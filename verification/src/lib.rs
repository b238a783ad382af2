//! A complete weighted graph over 2-D points, with a dense-matrix minimum
//! spanning tree (Prim's algorithm), depth-first path evaluation, and a
//! greedy nearest-neighbour path heuristic.

pub mod dfs;
pub mod points;
pub mod prim;

use vstd::prelude::*;
use vstd::pervasive::VecAdditionalExecFns;
use crate::points::{
    Point, dist_sq, coords_in_range, swap_removed, min_idx, greedy_order, greedy_total,
    lemma_greedy_total_nonneg,
};
use crate::prim::{
    in_seq, distinct, all_below, symmetric, complete, init_best, row_scan, set_scan,
    prim_best, prim_sets, prim_edge, edge_covers, tree_cell_upto, tree_cell,
    lemma_prim_sets_props, lemma_prim_best_found,
};
use crate::dfs::{
    count_unseen, push_range, dfs_rec, init_seen, dfs_order, path_sum, point_path_sum,
    lemma_push_range_measure, lemma_path_sum_concat_le, lemma_point_path_sum_concat_le,
    lemma_dfs_order_distinct, lemma_dfs_order_closed,
};

verus! {

/// A graph over `n` nodes, held as an `n` x `n` adjacency matrix of squared
/// distances. The maximum `u32` value is the sentinel that marks an absent
/// edge; the diagonal always holds it.
pub struct Graph {
    /// The number of points in the graph
    pub n: usize,
    /// The adjacency matrix of the graph
    pub matrix: Vec<Vec<u32>>,
    /// The points of the graph, in node order (may be empty on derived graphs)
    pub points: Vec<Point>,
}

impl Graph {
    /// The matrix as a sequence of rows of cells.
    pub open spec fn mat(self) -> Seq<Seq<u32>> {
        Seq::new(self.matrix@.len(), |i: int| self.matrix@[i]@)
    }

    /// The matrix model looks only at the matrix field.
    pub proof fn lemma_mat_same(a: Graph, b: Graph)
        requires
            a.matrix == b.matrix,
        ensures
            a.mat() == b.mat(),
    {
        assert(a.mat() =~= b.mat());
    }

    /// The matrix is `n` x `n`.
    pub open spec fn wf(self) -> bool {
        &&& self.matrix@.len() == self.n
        &&& forall|i: int| 0 <= i < self.n ==> (#[trigger] self.matrix@[i])@.len() == self.n
    }

    /// Returns an empty graph: every cell holds the no-edge sentinel.
    pub fn new(n: usize) -> (g: Graph)
        ensures
            g.wf(),
            g.n == n,
            g.points@.len() == 0,
            forall|i: int, j: int| 0 <= i < n && 0 <= j < n ==> g.mat()[i][j] == u32::MAX,
    {
        let mut matrix: Vec<Vec<u32>> = Vec::new();
        let mut r: usize = 0;
        while r < n
            invariant
                r <= n,
                matrix@.len() == r,
                forall|i: int| 0 <= i < r ==> (#[trigger] matrix@[i])@.len() == n,
                forall|i: int, j: int| 0 <= i < r && 0 <= j < n ==> matrix@[i]@[j] == u32::MAX,
            decreases n - r,
        {
            let mut row: Vec<u32> = Vec::new();
            let mut c: usize = 0;
            while c < n
                invariant
                    c <= n,
                    row@.len() == c,
                    forall|j: int| 0 <= j < c ==> row@[j] == u32::MAX,
                decreases n - c,
            {
                row.push(u32::MAX);
                c += 1;
            }
            matrix.push(row);
            r += 1;
        }
        Graph { n, matrix, points: Vec::new() }
    }

    /// Writes an edge into the matrix, symmetrically; every other cell is
    /// left as it was.
    pub fn add_edge(&mut self, pt1: usize, pt2: usize, dist: u32)
        requires
            old(self).wf(),
            pt1 < old(self).n,
            pt2 < old(self).n,
        ensures
            final(self).wf(),
            final(self).n == old(self).n,
            final(self).points == old(self).points,
            final(self).mat()[pt1 as int][pt2 as int] == dist,
            final(self).mat()[pt2 as int][pt1 as int] == dist,
            forall|i: int, j: int|
                0 <= i < old(self).n && 0 <= j < old(self).n
                    && !(i == pt1 && j == pt2) && !(i == pt2 && j == pt1)
                    ==> final(self).mat()[i][j] == old(self).mat()[i][j],
    {
        let row1 = &mut self.matrix[pt1];
        row1.set(pt2, dist);
        let row2 = &mut self.matrix[pt2];
        row2.set(pt1, dist);
    }

    /// Returns the complete graph over the given points: each off-diagonal
    /// cell holds the squared distance of its pair, and the diagonal holds
    /// the sentinel.
    pub fn new_with_points(points: &Vec<Point>) -> (g: Graph)
        requires
            forall|k: int| 0 <= k < points@.len() ==> coords_in_range(#[trigger] points@[k]),
            forall|i: int, j: int|
                0 <= i < points@.len() && 0 <= j < points@.len()
                    ==> dist_sq(#[trigger] points@[i], #[trigger] points@[j]) <= i32::MAX,
        ensures
            g.wf(),
            g.n == points@.len(),
            g.points@ == points@,
            forall|i: int, j: int|
                0 <= i < g.n && 0 <= j < g.n && i != j
                    ==> g.mat()[i][j] == dist_sq(points@[i], points@[j]),
            forall|i: int| 0 <= i < g.n ==> g.mat()[i][i] == u32::MAX,
            symmetric(g.mat(), g.n as int),
            complete(g.mat(), g.n as int),
    {
        let n = points.len();
        let mut graph = Graph::new(n);
        let mut index: usize = 0;
        while index < n
            invariant
                index <= n,
                graph.wf(),
                graph.n == n,
                n == points@.len(),
                graph.points@.len() == 0,
                forall|k: int| 0 <= k < n ==> coords_in_range(#[trigger] points@[k]),
                forall|i: int, j: int|
                    0 <= i < n && 0 <= j < n
                        ==> dist_sq(#[trigger] points@[i], #[trigger] points@[j]) <= i32::MAX,
                forall|i: int, j: int|
                    0 <= i < n && 0 <= j < n && i != j && (i < index || j < index)
                        ==> graph.mat()[i][j] == dist_sq(points@[i], points@[j]),
                forall|i: int| 0 <= i < n ==> graph.mat()[i][i] == u32::MAX,
            decreases n - index,
        {
            let pt = points[index];
            let mut j: usize = index + 1;
            while j < n
                invariant
                    index < n,
                    index + 1 <= j <= n,
                    graph.wf(),
                    graph.n == n,
                    n == points@.len(),
                    graph.points@.len() == 0,
                    pt == points@[index as int],
                    forall|k: int| 0 <= k < n ==> coords_in_range(#[trigger] points@[k]),
                    forall|i: int, j2: int|
                        0 <= i < n && 0 <= j2 < n
                            ==> dist_sq(#[trigger] points@[i], #[trigger] points@[j2]) <= i32::MAX,
                    forall|i: int, j2: int|
                        0 <= i < n && 0 <= j2 < n && i != j2 && (i < index || j2 < index)
                            ==> graph.mat()[i][j2] == dist_sq(points@[i], points@[j2]),
                    forall|j2: int|
                        index < j2 < j ==> graph.mat()[index as int][j2]
                            == dist_sq(points@[index as int], points@[j2]),
                    forall|j2: int|
                        index < j2 < j ==> graph.mat()[j2][index as int]
                            == dist_sq(points@[j2], points@[index as int]),
                    forall|i: int| 0 <= i < n ==> graph.mat()[i][i] == u32::MAX,
                decreases n - j,
            {
                let d = pt.distance(&points[j]);
                proof {
                    crate::points::lemma_dist_sq_sym(points@[index as int], points@[j as int]);
                }
                graph.add_edge(index, j, d);
                j += 1;
            }
            index += 1;
        }
        let mut stored: Vec<Point> = Vec::new();
        let mut k: usize = 0;
        while k < n
            invariant
                k <= n,
                n == points@.len(),
                stored@ == points@.subrange(0, k as int),
            decreases n - k,
        {
            stored.push(points[k]);
            k += 1;
        }
        proof {
            assert(stored@ =~= points@);
        }
        let ghost before = graph;
        graph.points = stored;
        proof {
            Graph::lemma_mat_same(before, graph);
            assert forall|i: int, j: int| 0 <= i < n && 0 <= j < n
                implies #[trigger] graph.mat()[i][j] == graph.mat()[j][i] by {
                if i != j {
                    crate::points::lemma_dist_sq_sym(points@[i], points@[j]);
                }
            }
            assert forall|i: int, j: int| 0 <= i < n && 0 <= j < n && i != j
                implies #[trigger] graph.mat()[i][j] < u32::MAX by {
                crate::points::lemma_dist_sq_nonneg(points@[i], points@[j]);
            }
        }
        graph
    }

    /// Returns the spanning-tree edges that Prim's algorithm selects from
    /// the root, in construction order; each entry holds the newly added
    /// node first and the tree node it was reached from second.
    #[verifier::loop_isolation(false)]
    pub fn spanning_tree_edges(&self, root: usize) -> (edges: Vec<(usize, usize)>)
        requires
            self.wf(),
            symmetric(self.mat(), self.n as int),
            complete(self.mat(), self.n as int),
            root < self.n,
        ensures
            edges@.len() == self.n - 1,
            forall|k: int| 0 <= k < self.n - 1 ==> {
                let e = #[trigger] edges@[k];
                &&& e.0 == prim_edge(self.mat(), self.n as int, root, k).0
                &&& e.1 == prim_edge(self.mat(), self.n as int, root, k).1
                &&& e.0 < self.n && e.1 < self.n && e.0 != e.1
            },
    {
        let ghost m = self.mat();
        let ghost nn = self.n as int;
        let n = self.n;
        let mut edges: Vec<(usize, usize)> = Vec::new();
        let mut set_of_points: Vec<usize> = Vec::new();
        set_of_points.push(root);
        proof {
            assert(set_of_points@ =~= prim_sets(m, nn, root, 0));
            lemma_prim_sets_props(m, nn, root, 0);
        }
        // While we don't have a spanning tree
        while set_of_points.len() != n
            invariant
                1 <= set_of_points@.len() <= n,
                set_of_points@ == prim_sets(m, nn, root, set_of_points@.len() - 1),
                distinct(set_of_points@),
                all_below(set_of_points@, nn),
                edges@.len() == set_of_points@.len() - 1,
                forall|k: int| 0 <= k < edges@.len() ==> {
                    let e = #[trigger] edges@[k];
                    &&& e.0 == prim_edge(m, nn, root, k).0
                    &&& e.1 == prim_edge(m, nn, root, k).1
                    &&& e.0 < n && e.1 < n && e.0 != e.1
                },
            decreases n - set_of_points@.len(),
        {
            let ghost set = set_of_points@;
            let mut min: u32 = u32::MAX;
            let mut min_pt: usize = 0;
            let mut from_point: usize = 0;
            let mut si: usize = 0;
            // For all the points currently in the spanning tree
            while si < set_of_points.len()
                invariant
                    set_of_points@ == set,
                    si <= set.len(),
                    min_pt < n,
                    from_point < n,
                    (min as int, min_pt as int, from_point as int)
                        == set_scan(m, set, nn, si as int, init_best()),
                decreases set.len() - si,
            {
                let pt = set_of_points[si];
                let ghost entry = set_scan(m, set, nn, si as int, init_best());
                let mut next_point: usize = 0;
                while next_point < n
                    invariant
                        set_of_points@ == set,
                        si < set.len(),
                        pt == set[si as int],
                        next_point <= n,
                        min_pt < n,
                        from_point < n,
                        (min as int, min_pt as int, from_point as int)
                            == row_scan(m, set, pt as int, next_point as int, entry),
                    decreases n - next_point,
                {
                    // If the point is not in the spanning tree
                    if !contains_node(&set_of_points, next_point) {
                        // If it is the closest from the spanning tree
                        if self.matrix[pt][next_point] < min {
                            min = self.matrix[pt][next_point];
                            min_pt = next_point;
                            from_point = pt;
                        }
                    }
                    next_point += 1;
                }
                si += 1;
            }
            proof {
                assert((min as int, min_pt as int, from_point as int)
                    == prim_best(m, set, nn));
                lemma_prim_best_found(m, set, nn);
                assert(min < u32::MAX);
            }
            let ghost cnt = set.len() as int;
            // We add the closest point from the spanning tree to the tree
            set_of_points.push(min_pt);
            edges.push((min_pt, from_point));
            proof {
                assert(set_of_points@ =~= prim_sets(m, nn, root, cnt));
                lemma_prim_sets_props(m, nn, root, cnt);
                assert(edges@[cnt - 1].0 == prim_edge(m, nn, root, cnt - 1).0);
                assert(edges@[cnt - 1].1 == prim_edge(m, nn, root, cnt - 1).1);
            }
        }
        edges
    }

    /// Returns the spanning tree from the root point using Prim's
    /// algorithm; the source graph is left unchanged.
    #[verifier::loop_isolation(false)]
    pub fn spanning_tree(&self, root: usize) -> (t: Graph)
        requires
            self.wf(),
            symmetric(self.mat(), self.n as int),
            complete(self.mat(), self.n as int),
            root < self.n,
        ensures
            t.wf(),
            t.n == self.n,
            t.points@ == self.points@,
            forall|i: int, j: int|
                0 <= i < self.n && 0 <= j < self.n
                    ==> t.mat()[i][j] == tree_cell(self.mat(), self.n as int, root, i, j),
    {
        let ghost m = self.mat();
        let ghost nn = self.n as int;
        let edges = self.spanning_tree_edges(root);
        let mut result = Graph::new(self.n);
        let mut k: usize = 0;
        while k < edges.len()
            invariant
                k <= edges@.len(),
                result.wf(),
                result.n == self.n,
                result.points@.len() == 0,
                forall|i: int, j: int|
                    0 <= i < nn && 0 <= j < nn
                        ==> result.mat()[i][j] == tree_cell_upto(m, nn, root, k as int, i, j),
            decreases edges@.len() - k,
        {
            let e = edges[k];
            let w = self.matrix[e.0][e.1];
            result.add_edge(e.0, e.1, w);
            proof {
                let ek = prim_edge(m, nn, root, k as int);
                assert(edge_covers(ek, ek.0, ek.1));
                assert(edge_covers(ek, ek.1, ek.0));
                assert forall|i: int, j: int| 0 <= i < nn && 0 <= j < nn
                    implies result.mat()[i][j] == tree_cell_upto(m, nn, root, k + 1, i, j) by {
                    if (i == ek.0 && j == ek.1) || (i == ek.1 && j == ek.0) {
                        assert(m[i][j] == m[ek.0][ek.1]);
                        assert(tree_cell_upto(m, nn, root, k + 1, i, j) == m[i][j]);
                    } else {
                        assert(!edge_covers(ek, i, j));
                        if exists|l: int|
                            0 <= l < k + 1 && edge_covers(#[trigger] prim_edge(m, nn, root, l), i, j) {
                            let l = choose|l: int|
                                0 <= l < k + 1 && edge_covers(#[trigger] prim_edge(m, nn, root, l), i, j);
                            assert(l < k);
                            assert(tree_cell_upto(m, nn, root, k as int, i, j) == m[i][j]);
                            assert(tree_cell_upto(m, nn, root, k + 1, i, j) == m[i][j]);
                        } else {
                            assert(tree_cell_upto(m, nn, root, k + 1, i, j) == u32::MAX);
                            assert(tree_cell_upto(m, nn, root, k as int, i, j) == u32::MAX);
                        }
                    }
                }
            }
            k += 1;
        }
        let mut stored: Vec<Point> = Vec::new();
        let mut c: usize = 0;
        while c < self.points.len()
            invariant
                c <= self.points@.len(),
                stored@ == self.points@.subrange(0, c as int),
            decreases self.points@.len() - c,
        {
            stored.push(self.points[c]);
            c += 1;
        }
        proof {
            assert(stored@ =~= self.points@);
        }
        let ghost before = result;
        result.points = stored;
        proof {
            Graph::lemma_mat_same(before, result);
        }
        result
    }

    /// Returns the distance of the walk that visits every node reachable
    /// from the root by a depth-first traversal of this graph, measured
    /// against the cells of `full_graph` between consecutively visited
    /// nodes. The first visited node contributes nothing.
    #[verifier::loop_isolation(false)]
    #[verifier::rlimit(30)]
    pub fn path_in_spanning_tree(&self, root: usize, full_graph: &Graph) -> (total: u32)
        requires
            self.wf(),
            full_graph.wf(),
            full_graph.n == self.n,
            root < self.n,
            path_sum(full_graph.mat(), dfs_order(self.mat(), self.n as int, root)) <= u32::MAX,
        ensures
            total == path_sum(full_graph.mat(), dfs_order(self.mat(), self.n as int, root)),
    {
        let ghost m = self.mat();
        let ghost mfull = full_graph.mat();
        let ghost nn = self.n as int;
        let ghost order = dfs_order(m, nn, root);
        let n = self.n;
        // The stack of the points to see
        let mut stack: Vec<usize> = Vec::new();
        // The distance of the final path
        let mut cumulated_distance: u32 = 0;
        let mut previous_point = root;
        let mut popped = false;
        // An array representing which points have already been seen
        let mut already_seen: Vec<bool> = Vec::new();
        let mut c: usize = 0;
        while c < n
            invariant
                c <= n,
                already_seen@.len() == c,
                forall|j: int| 0 <= j < c ==> already_seen@[j] == (j == root),
            decreases n - c,
        {
            already_seen.push(c == root);
            c += 1;
        }
        stack.push(root);
        proof {
            assert(already_seen@ =~= init_seen(nn, root));
            assert(stack@ =~= seq![root]);
            assert(Seq::<usize>::empty() + dfs_rec(m, nn, stack@, already_seen@) =~= order);
        }
        let ghost mut prefix: Seq<usize> = Seq::empty();
        // While there is some point to see
        while stack.len() != 0
            invariant
                all_below(stack@, nn),
                already_seen@.len() == n,
                order == prefix + dfs_rec(m, nn, stack@, already_seen@),
                cumulated_distance == path_sum(mfull, prefix),
                popped == (prefix.len() > 0),
                prefix.len() > 0 ==> previous_point == prefix.last(),
                previous_point < n,
            decreases count_unseen(already_seen@), stack@.len(),
        {
            let top = stack.pop().unwrap();
            let ghost st0 = (stack@, already_seen@);
            let ghost rest0 = dfs_rec(m, nn, st0.0.push(top), st0.1);
            let mut pt: usize = 0;
            while pt < n
                invariant
                    pt <= n,
                    already_seen@.len() == n,
                    all_below(stack@, nn),
                    (stack@, already_seen@) == push_range(m, top as int, st0, pt as int),
                decreases n - pt,
            {
                // For all the neighbours of top that have not yet been seen
                if !already_seen[pt] && self.matrix[top][pt] != u32::MAX {
                    // We add those points to be seen
                    stack.push(pt);
                    already_seen.set(pt, true);
                }
                pt += 1;
            }
            proof {
                lemma_push_range_measure(m, top as int, st0, nn);
                assert(st0.0.push(top).last() == top);
                assert(st0.0.push(top).drop_last() =~= st0.0);
                assert((stack@, already_seen@) == push_range(m, top as int, st0, nn));
                assert(rest0 == seq![top] + dfs_rec(m, nn, stack@, already_seen@));
                assert(order == prefix + rest0);
                assert(prefix + (seq![top] + dfs_rec(m, nn, stack@, already_seen@))
                    =~= prefix.push(top) + dfs_rec(m, nn, stack@, already_seen@));
                assert(prefix.push(top).drop_last() =~= prefix);
                if prefix.len() > 0 {
                    assert(path_sum(mfull, prefix.push(top))
                        == path_sum(mfull, prefix)
                            + mfull[top as int][previous_point as int]);
                } else {
                    assert(path_sum(mfull, prefix.push(top)) == 0);
                }
                lemma_path_sum_concat_le(
                    mfull,
                    prefix.push(top),
                    dfs_rec(m, nn, stack@, already_seen@),
                );
            }
            if popped {
                cumulated_distance += full_graph.matrix[top][previous_point];
            }
            previous_point = top;
            popped = true;
            proof {
                prefix = prefix.push(top);
            }
        }
        proof {
            assert(order == prefix + dfs_rec(m, nn, stack@, already_seen@));
            assert(prefix + dfs_rec(m, nn, stack@, already_seen@) =~= prefix);
        }
        cumulated_distance
    }

    /// Returns, for the same depth-first walk, the visitation steps in
    /// order - each step holds the previously visited node, the visited
    /// node, and the step index - together with the distance accumulated
    /// between consecutively visited points of this graph.
    #[verifier::loop_isolation(false)]
    #[verifier::rlimit(30)]
    pub fn path_traversal(&self, root: usize) -> (r: (Vec<(usize, usize, usize)>, u32))
        requires
            self.wf(),
            root < self.n,
            self.points@.len() == self.n,
            forall|k: int| 0 <= k < self.n ==> coords_in_range(#[trigger] self.points@[k]),
            forall|i: int, j: int|
                0 <= i < self.n && 0 <= j < self.n
                    ==> dist_sq(#[trigger] self.points@[i], #[trigger] self.points@[j]) <= i32::MAX,
            point_path_sum(self.points@, dfs_order(self.mat(), self.n as int, root)) <= u32::MAX,
        ensures
            r.1 == point_path_sum(self.points@, dfs_order(self.mat(), self.n as int, root)),
            r.0@.len() == dfs_order(self.mat(), self.n as int, root).len(),
            forall|k: int| 0 <= k < r.0@.len() ==> {
                let order = dfs_order(self.mat(), self.n as int, root);
                &&& (#[trigger] r.0@[k]).1 == order[k]
                &&& r.0@[k].2 == k
                &&& r.0@[k].0 == if k == 0 { root as int } else { order[k - 1] as int }
            },
    {
        let ghost m = self.mat();
        let ghost nn = self.n as int;
        let ghost order = dfs_order(m, nn, root);
        let n = self.n;
        let mut stack: Vec<usize> = Vec::new();
        let mut steps: Vec<(usize, usize, usize)> = Vec::new();
        let mut cumulated_distance: u32 = 0;
        let mut previous_point = root;
        let mut already_seen: Vec<bool> = Vec::new();
        let mut c: usize = 0;
        while c < n
            invariant
                c <= n,
                already_seen@.len() == c,
                forall|j: int| 0 <= j < c ==> already_seen@[j] == (j == root),
            decreases n - c,
        {
            already_seen.push(c == root);
            c += 1;
        }
        stack.push(root);
        proof {
            assert(already_seen@ =~= init_seen(nn, root));
            assert(stack@ =~= seq![root]);
            assert(Seq::<usize>::empty() + dfs_rec(m, nn, stack@, already_seen@) =~= order);
        }
        let ghost mut prefix: Seq<usize> = Seq::empty();
        while stack.len() != 0
            invariant
                all_below(stack@, nn),
                already_seen@.len() == n,
                order == prefix + dfs_rec(m, nn, stack@, already_seen@),
                cumulated_distance == point_path_sum(self.points@, prefix),
                steps@.len() == prefix.len(),
                forall|k: int| 0 <= k < prefix.len() ==> {
                    &&& (#[trigger] steps@[k]).1 == prefix[k]
                    &&& steps@[k].2 == k
                    &&& steps@[k].0 == if k == 0 { root as int } else { prefix[k - 1] as int }
                },
                prefix.len() > 0 ==> previous_point == prefix.last(),
                prefix.len() == 0 ==> previous_point == root,
                previous_point < n,
            decreases count_unseen(already_seen@), stack@.len(),
        {
            let top = stack.pop().unwrap();
            let ghost st0 = (stack@, already_seen@);
            let ghost rest0 = dfs_rec(m, nn, st0.0.push(top), st0.1);
            let mut pt: usize = 0;
            while pt < n
                invariant
                    pt <= n,
                    already_seen@.len() == n,
                    all_below(stack@, nn),
                    (stack@, already_seen@) == push_range(m, top as int, st0, pt as int),
                decreases n - pt,
            {
                if !already_seen[pt] && self.matrix[top][pt] != u32::MAX {
                    stack.push(pt);
                    already_seen.set(pt, true);
                }
                pt += 1;
            }
            proof {
                lemma_push_range_measure(m, top as int, st0, nn);
                assert(st0.0.push(top).last() == top);
                assert(st0.0.push(top).drop_last() =~= st0.0);
                assert((stack@, already_seen@) == push_range(m, top as int, st0, nn));
                assert(rest0 == seq![top] + dfs_rec(m, nn, stack@, already_seen@));
                assert(order == prefix + rest0);
                assert(prefix + (seq![top] + dfs_rec(m, nn, stack@, already_seen@))
                    =~= prefix.push(top) + dfs_rec(m, nn, stack@, already_seen@));
                assert(prefix.push(top).drop_last() =~= prefix);
                if prefix.len() > 0 {
                    assert(point_path_sum(self.points@, prefix.push(top))
                        == point_path_sum(self.points@, prefix)
                            + dist_sq(self.points@[previous_point as int], self.points@[top as int]));
                } else {
                    assert(order[0] == top);
                    assert(order == dfs_rec(m, nn, seq![root], init_seen(nn, root)));
                    assert(order[0] == seq![root].last());
                    assert(top == root);
                    assert(point_path_sum(self.points@, prefix.push(top)) == 0);
                    assert(dist_sq(self.points@[root as int], self.points@[root as int]) == 0);
                }
                lemma_point_path_sum_concat_le(
                    self.points@,
                    prefix.push(top),
                    dfs_rec(m, nn, stack@, already_seen@),
                );
            }
            let step_index = steps.len();
            steps.push((previous_point, top, step_index));
            cumulated_distance += self.points[previous_point].distance(&self.points[top]);
            previous_point = top;
            proof {
                prefix = prefix.push(top);
            }
        }
        proof {
            assert(order == prefix + dfs_rec(m, nn, stack@, already_seen@));
            assert(prefix + dfs_rec(m, nn, stack@, already_seen@) =~= prefix);
        }
        (steps, cumulated_distance)
    }
}

/// The shape of a derived spanning tree over a complete graph: its matrix
/// is symmetric with the sentinel on the diagonal, the populated cells are
/// exactly the unordered pairs recorded by the construction - `n - 1`
/// pairwise distinct pairs, each joining the node added at its step to an
/// earlier node, with every node added once - and each populated cell
/// carries the weight of the source graph.
pub proof fn lemma_spanning_tree_edge_pairs(g: Graph, root: usize, t: Graph)
    requires
        g.wf(),
        symmetric(g.mat(), g.n as int),
        complete(g.mat(), g.n as int),
        root < g.n,
        t.wf(),
        t.n == g.n,
        forall|i: int, j: int|
            0 <= i < g.n && 0 <= j < g.n
                ==> #[trigger] t.mat()[i][j] == tree_cell(g.mat(), g.n as int, root, i, j),
    ensures
        forall|i: int, j: int|
            0 <= i < g.n && 0 <= j < g.n ==> #[trigger] t.mat()[i][j] == t.mat()[j][i],
        forall|i: int| 0 <= i < g.n ==> #[trigger] t.mat()[i][i] == u32::MAX,
        forall|i: int, j: int|
            0 <= i < g.n && 0 <= j < g.n ==> (#[trigger] t.mat()[i][j] != u32::MAX
                <==> exists|k: int|
                0 <= k < g.n - 1 && edge_covers(#[trigger] prim_edge(g.mat(), g.n as int, root, k), i, j)),
        forall|i: int, j: int|
            0 <= i < g.n && 0 <= j < g.n && t.mat()[i][j] != u32::MAX
                ==> #[trigger] t.mat()[i][j] == g.mat()[i][j],
{
    let m = g.mat();
    let nn = g.n as int;
    crate::prim::lemma_prim_spanning(m, nn, root);
    assert forall|i: int, j: int| 0 <= i < g.n && 0 <= j < g.n
        implies #[trigger] t.mat()[i][j] == t.mat()[j][i] by {
        if exists|k: int| 0 <= k < nn - 1 && edge_covers(#[trigger] prim_edge(m, nn, root, k), i, j) {
            let k = choose|k: int|
                0 <= k < nn - 1 && edge_covers(#[trigger] prim_edge(m, nn, root, k), i, j);
            assert(edge_covers(prim_edge(m, nn, root, k), j, i));
            assert(m[i][j] == m[j][i]);
        } else {
            assert(forall|k: int|
                0 <= k < nn - 1 ==> !edge_covers(#[trigger] prim_edge(m, nn, root, k), j, i));
        }
    }
    assert forall|i: int| 0 <= i < g.n implies #[trigger] t.mat()[i][i] == u32::MAX by {
        if exists|k: int| 0 <= k < nn - 1 && edge_covers(#[trigger] prim_edge(m, nn, root, k), i, i) {
            let k = choose|k: int|
                0 <= k < nn - 1 && edge_covers(#[trigger] prim_edge(m, nn, root, k), i, i);
            crate::prim::lemma_prim_edge_props(m, nn, root, k);
        }
    }
}

/// One step of the walk-coverage argument: the node standing at place `k`
/// of the construction order is visited by the walk over the derived tree,
/// because the edge recorded at its step joins it to an earlier node.
proof fn lemma_walk_covers_rec(g: Graph, root: usize, t: Graph, k: int)
    requires
        g.wf(),
        symmetric(g.mat(), g.n as int),
        complete(g.mat(), g.n as int),
        root < g.n,
        t.wf(),
        t.n == g.n,
        forall|i: int, j: int|
            0 <= i < g.n && 0 <= j < g.n
                ==> #[trigger] t.mat()[i][j] == tree_cell(g.mat(), g.n as int, root, i, j),
        0 <= k < g.n,
    ensures
        in_seq(
            dfs_order(t.mat(), g.n as int, root),
            prim_sets(g.mat(), g.n as int, root, g.n - 1)[k] as int,
        ),
    decreases k,
{
    let n = g.n as int;
    let tm = t.mat();
    let o = prim_sets(g.mat(), n, root, n - 1);
    crate::prim::lemma_prim_spanning(g.mat(), n, root);
    lemma_dfs_order_closed(tm, n, root);
    if k == 0 {
        assert(o[0] == root);
    } else {
        let e = prim_edge(g.mat(), n, root, k - 1);
        crate::prim::lemma_prim_edge_props(g.mat(), n, root, k - 1);
        assert(e.0 == o[k]);
        assert(in_seq(o.take(k), e.1));
        let j = choose|j: int| 0 <= j < o.take(k).len() && #[trigger] o.take(k)[j] == e.1;
        assert(o.take(k)[j] == o[j]);
        lemma_walk_covers_rec(g, root, t, j);
        lemma_spanning_tree_edge_pairs(g, root, t);
        assert(tm[e.1][e.0] != u32::MAX) by {
            assert(edge_covers(prim_edge(g.mat(), n, root, k - 1), e.1, e.0));
        }
        assert(in_seq(dfs_order(tm, n, root), e.1));
    }
}

/// Over a spanning tree derived from a complete graph, the depth-first
/// walk from the root reaches every node of the graph, each exactly once:
/// its visitation order is a permutation of the nodes.
pub proof fn lemma_spanning_tree_walk_covers(g: Graph, root: usize, t: Graph)
    requires
        g.wf(),
        symmetric(g.mat(), g.n as int),
        complete(g.mat(), g.n as int),
        root < g.n,
        t.wf(),
        t.n == g.n,
        forall|i: int, j: int|
            0 <= i < g.n && 0 <= j < g.n
                ==> #[trigger] t.mat()[i][j] == tree_cell(g.mat(), g.n as int, root, i, j),
    ensures
        dfs_order(t.mat(), g.n as int, root).len() == g.n,
        distinct(dfs_order(t.mat(), g.n as int, root)),
        forall|v: int|
            0 <= v < g.n ==> #[trigger] in_seq(dfs_order(t.mat(), g.n as int, root), v),
{
    let n = g.n as int;
    let tm = t.mat();
    let o = prim_sets(g.mat(), n, root, n - 1);
    let order = dfs_order(tm, n, root);
    crate::prim::lemma_prim_spanning(g.mat(), n, root);
    lemma_dfs_order_distinct(tm, n, root);
    assert forall|v: int| 0 <= v < n implies #[trigger] in_seq(order, v) by {
        assert(in_seq(o, v));
        let k = choose|k: int| 0 <= k < o.len() && o[k] == v;
        lemma_walk_covers_rec(g, root, t, k);
    }
    if order.len() < n {
        crate::prim::lemma_missing_value(order, n);
    }
}

/// Deriving a spanning tree is deterministic: two trees that the
/// spanning-tree derivation describes for the same source graph and the
/// same root carry the same node count and the same matrix, edge for edge
/// and weight for weight.
pub proof fn lemma_spanning_tree_deterministic(g: Graph, root: usize, t1: Graph, t2: Graph)
    requires
        t1.wf(),
        t2.wf(),
        t1.n == g.n,
        t2.n == g.n,
        forall|i: int, j: int|
            0 <= i < g.n && 0 <= j < g.n
                ==> #[trigger] t1.mat()[i][j] == tree_cell(g.mat(), g.n as int, root, i, j),
        forall|i: int, j: int|
            0 <= i < g.n && 0 <= j < g.n
                ==> #[trigger] t2.mat()[i][j] == tree_cell(g.mat(), g.n as int, root, i, j),
    ensures
        t1.n == t2.n,
        t1.mat() == t2.mat(),
{
    assert(t1.mat() =~~= t2.mat());
}

/// Walks the points greedily from the first one: each step moves to the
/// closest remaining point and removes it from the working set, which is
/// drained completely. Returns the visitation order and the accumulated
/// squared distance of the open path.
#[verifier::loop_isolation(false)]
pub fn greedy_path(vec: &mut Vec<Point>) -> (r: (Vec<Point>, u32))
    requires
        old(vec)@.len() >= 1,
        forall|k: int| 0 <= k < old(vec)@.len() ==> coords_in_range(#[trigger] old(vec)@[k]),
        forall|i: int, j: int|
            0 <= i < old(vec)@.len() && 0 <= j < old(vec)@.len()
                ==> dist_sq(#[trigger] old(vec)@[i], #[trigger] old(vec)@[j]) <= i32::MAX,
        greedy_total(old(vec)@[0], swap_removed(old(vec)@, 0)) <= u32::MAX,
    ensures
        final(vec)@.len() == 0,
        r.0@ == seq![old(vec)@[0]] + greedy_order(old(vec)@[0], swap_removed(old(vec)@, 0)),
        r.1 == greedy_total(old(vec)@[0], swap_removed(old(vec)@, 0)),
{
    let ghost s0 = vec@;
    let ghost full_order = seq![s0[0]] + greedy_order(s0[0], swap_removed(s0, 0));
    let ghost full_total = greedy_total(s0[0], swap_removed(s0, 0));
    // --- Definition of the main variables ---
    let mut current: Point = vec.swap_remove(0);
    let mut cumulated_distance: u32 = 0;
    let mut order: Vec<Point> = Vec::new();
    order.push(current);
    proof {
        assert(order@ =~= seq![s0[0]]);
        assert(order@ + greedy_order(current, vec@) =~= full_order);
    }
    // --- End of the definition of the main variables ---
    while vec.len() > 0
        invariant
            order@.len() >= 1,
            order@.last() == current,
            full_order == order@ + greedy_order(current, vec@),
            cumulated_distance + greedy_total(current, vec@) == full_total,
            exists|a: int| 0 <= a < s0.len() && s0[a] == current,
            forall|k: int|
                0 <= k < vec@.len()
                    ==> exists|a: int| 0 <= a < s0.len() && s0[a] == #[trigger] vec@[k],
        decreases vec@.len(),
    {
        let ghost before = vec@;
        proof {
            assert forall|k: int| 0 <= k < before.len()
                implies coords_in_range(#[trigger] before[k])
                    && dist_sq(current, before[k]) <= i32::MAX by {
                let a = choose|a: int| 0 <= a < s0.len() && s0[a] == current;
                let b = choose|b: int| 0 <= b < s0.len() && s0[b] == before[k];
                assert(dist_sq(s0[a], s0[b]) <= i32::MAX);
            }
            assert(coords_in_range(current)) by {
                let a = choose|a: int| 0 <= a < s0.len() && s0[a] == current;
                assert(coords_in_range(s0[a]));
            }
        }
        let closest: Point = current.closest_point(vec);
        let ghost i = min_idx(current, before, before.len() as int);
        proof {
            crate::points::lemma_min_idx_props(current, before, before.len() as int);
            assert(greedy_order(current, before)
                == seq![closest] + greedy_order(closest, vec@));
            assert(greedy_total(current, before)
                == dist_sq(current, closest) + greedy_total(closest, vec@));
            assert(order@ + (seq![closest] + greedy_order(closest, vec@))
                =~= order@.push(closest) + greedy_order(closest, vec@));
            lemma_greedy_total_nonneg(closest, vec@);
            crate::points::lemma_dist_sq_nonneg(current, closest);
        }
        cumulated_distance += current.distance(&closest);
        order.push(closest);
        proof {
            assert forall|k: int| 0 <= k < vec@.len()
                implies exists|a: int| 0 <= a < s0.len() && s0[a] == #[trigger] vec@[k] by {
                if k == i && k < vec@.len() {
                    assert(vec@[k] == before[before.len() - 1]);
                } else {
                    assert(vec@[k] == before[k]);
                }
            }
        }
        current = closest;
    }
    proof {
        assert(order@ + greedy_order(current, vec@) =~= order@);
    }
    (order, cumulated_distance)
}

/// Tells whether a node index stands in the vector.
fn contains_node(v: &Vec<usize>, x: usize) -> (r: bool)
    ensures
        r == in_seq(v@, x as int),
{
    let mut i: usize = 0;
    while i < v.len()
        invariant
            i <= v@.len(),
            forall|j: int| 0 <= j < i ==> #[trigger] v@[j] != x,
        decreases v@.len() - i,
    {
        if v[i] == x {
            return true;
        }
        i += 1;
    }
    false
}

} // verus!
