//! A mathematical model of the stack-based depth-first walk over the
//! adjacency matrix: the top of the stack is popped, its not-yet-seen
//! neighbours are pushed in ascending index order (and marked as seen on
//! push), and the walk repeats until the stack is empty. Because a stack
//! reverses its content, the realized visitation order is the
//! reverse-of-push order; the distance sums below follow that exact order.

use vstd::prelude::*;
use crate::points::{Point, dist_sq};
use crate::prim::{in_seq, distinct};

verus! {

/// The number of nodes not yet seen.
pub open spec fn count_unseen(seen: Seq<bool>) -> nat
    decreases seen.len(),
{
    if seen.len() == 0 {
        0
    } else {
        count_unseen(seen.drop_last()) + if seen.last() {
            0nat
        } else {
            1nat
        }
    }
}

/// One candidate step of the neighbour push: node `c` is pushed and marked
/// when it is not yet seen and shares a real edge with `top`.
pub open spec fn push_step(
    m: Seq<Seq<u32>>,
    top: int,
    st: (Seq<usize>, Seq<bool>),
    c: int,
) -> (Seq<usize>, Seq<bool>) {
    if 0 <= c < st.1.len() && !st.1[c] && m[top][c] != u32::MAX {
        (st.0.push(c as usize), st.1.update(c, true))
    } else {
        st
    }
}

/// The stack and the seen set after scanning the first `k` neighbour
/// candidates of `top` in ascending order.
pub open spec fn push_range(
    m: Seq<Seq<u32>>,
    top: int,
    st: (Seq<usize>, Seq<bool>),
    k: int,
) -> (Seq<usize>, Seq<bool>)
    decreases k,
{
    if k <= 0 {
        st
    } else {
        push_step(m, top, push_range(m, top, st, k - 1), k - 1)
    }
}

/// Marking an unseen node lowers the unseen count by exactly one.
proof fn lemma_count_update(seen: Seq<bool>, c: int)
    requires
        0 <= c < seen.len(),
        !seen[c],
    ensures
        count_unseen(seen.update(c, true)) + 1 == count_unseen(seen),
    decreases seen.len(),
{
    if c == seen.len() - 1 {
        assert(seen.update(c, true).drop_last() =~= seen.drop_last());
    } else {
        lemma_count_update(seen.drop_last(), c);
        assert(seen.update(c, true).drop_last() =~= seen.drop_last().update(c, true));
        assert(seen.update(c, true).last() == seen.last());
    }
}

/// The neighbour push keeps the sum of stack length and unseen count, and
/// never raises the unseen count or shortens the seen set.
pub proof fn lemma_push_range_measure(
    m: Seq<Seq<u32>>,
    top: int,
    st: (Seq<usize>, Seq<bool>),
    k: int,
)
    ensures
        count_unseen(push_range(m, top, st, k).1) + push_range(m, top, st, k).0.len()
            == count_unseen(st.1) + st.0.len(),
        count_unseen(push_range(m, top, st, k).1) <= count_unseen(st.1),
        push_range(m, top, st, k).1.len() == st.1.len(),
    decreases k,
{
    if k > 0 {
        lemma_push_range_measure(m, top, st, k - 1);
        let p = push_range(m, top, st, k - 1);
        if 0 <= k - 1 < p.1.len() && !p.1[k - 1] && m[top][k - 1] != u32::MAX {
            lemma_count_update(p.1, k - 1);
        }
    }
}

/// The visitation order of the walk from a given stack and seen set.
pub open spec fn dfs_rec(m: Seq<Seq<u32>>, n: int, stack: Seq<usize>, seen: Seq<bool>) -> Seq<usize>
    decreases count_unseen(seen), stack.len(),
{
    if stack.len() == 0 {
        Seq::empty()
    } else {
        let top = stack.last();
        let st = push_range(m, top as int, (stack.drop_last(), seen), n);
        proof {
            lemma_push_range_measure(m, top as int, (stack.drop_last(), seen), n);
        }
        seq![top] + dfs_rec(m, n, st.0, st.1)
    }
}

/// The seen set at the start of the walk: only the root is marked.
pub open spec fn init_seen(n: int, root: usize) -> Seq<bool> {
    Seq::new(n as nat, |i: int| i == root)
}

/// The complete visitation order of the walk seeded with the root.
pub open spec fn dfs_order(m: Seq<Seq<u32>>, n: int, root: usize) -> Seq<usize> {
    dfs_rec(m, n, seq![root], init_seen(n, root))
}

/// The distance accumulated along a visitation order when each visited node
/// (past the first) adds the reference cell between itself and the node
/// visited just before it.
pub open spec fn path_sum(mref: Seq<Seq<u32>>, order: Seq<usize>) -> int
    decreases order.len(),
{
    if order.len() <= 1 {
        0
    } else {
        path_sum(mref, order.drop_last())
            + mref[order.last() as int][order[order.len() - 2] as int]
    }
}

/// The distance accumulated along a visitation order when each visited node
/// (past the first) adds the direct squared point distance to the node
/// visited just before it.
pub open spec fn point_path_sum(points: Seq<Point>, order: Seq<usize>) -> int
    decreases order.len(),
{
    if order.len() <= 1 {
        0
    } else {
        point_path_sum(points, order.drop_last())
            + dist_sq(points[order[order.len() - 2] as int], points[order.last() as int])
    }
}

/// The shape of the neighbour push: the old stack stays as a prefix, the
/// appended nodes were unseen and are now marked (each one once), the
/// marks only grow, and exactly the appended nodes become marked.
proof fn lemma_push_range_shape(m: Seq<Seq<u32>>, top: int, st: (Seq<usize>, Seq<bool>), k: int)
    requires
        k <= usize::MAX,
    ensures
        push_range(m, top, st, k).1.len() == st.1.len(),
        push_range(m, top, st, k).0.len() >= st.0.len(),
        forall|i: int|
            0 <= i < st.0.len() ==> #[trigger] push_range(m, top, st, k).0[i] == st.0[i],
        forall|i: int|
            st.0.len() <= i < push_range(m, top, st, k).0.len() ==> {
                let v = #[trigger] push_range(m, top, st, k).0[i];
                &&& 0 <= v < st.1.len()
                &&& !st.1[v as int]
                &&& push_range(m, top, st, k).1[v as int]
            },
        forall|i: int, j: int|
            st.0.len() <= i < j < push_range(m, top, st, k).0.len()
                ==> #[trigger] push_range(m, top, st, k).0[i]
                    != #[trigger] push_range(m, top, st, k).0[j],
        forall|v: int|
            0 <= v < st.1.len() && st.1[v] ==> #[trigger] push_range(m, top, st, k).1[v],
        forall|c: int|
            0 <= c < k && c < st.1.len() && m[top][c] != u32::MAX
                ==> #[trigger] push_range(m, top, st, k).1[c],
        forall|v: int|
            0 <= v < st.1.len() && push_range(m, top, st, k).1[v] ==> st.1[v]
                || exists|i: int|
                st.0.len() <= i < push_range(m, top, st, k).0.len()
                    && #[trigger] push_range(m, top, st, k).0[i] == v,
    decreases k,
{
    if k > 0 {
        lemma_push_range_shape(m, top, st, k - 1);
        let p = push_range(m, top, st, k - 1);
        let r = push_range(m, top, st, k);
        if 0 <= k - 1 < p.1.len() && !p.1[k - 1] && m[top][k - 1] != u32::MAX {
            assert(r.0 == p.0.push((k - 1) as usize));
            assert(r.1 == p.1.update(k - 1, true));
            assert forall|i: int| st.0.len() <= i < r.0.len()
                implies {
                    let v = #[trigger] r.0[i];
                    &&& 0 <= v < st.1.len()
                    &&& !st.1[v as int]
                    &&& r.1[v as int]
                } by {
                if i < p.0.len() {
                    assert(r.0[i] == p.0[i]);
                    assert(p.0[i] != k - 1) by {
                        assert(p.1[p.0[i] as int]);
                    }
                } else {
                    assert(r.0[i] == (k - 1) as usize);
                }
            }
            assert forall|i: int, j: int| st.0.len() <= i < j < r.0.len()
                implies #[trigger] r.0[i] != #[trigger] r.0[j] by {
                if j < p.0.len() {
                    assert(r.0[i] == p.0[i] && r.0[j] == p.0[j]);
                } else {
                    assert(r.0[j] == (k - 1) as usize);
                    assert(r.0[i] == p.0[i]);
                    assert(p.1[p.0[i] as int]);
                }
            }
            assert forall|v: int| 0 <= v < st.1.len() && r.1[v]
                implies st.1[v] || exists|i: int|
                st.0.len() <= i < r.0.len() && #[trigger] r.0[i] == v by {
                if v == k - 1 {
                    assert(r.0[r.0.len() - 1] == v);
                } else {
                    assert(p.1[v] == r.1[v]);
                    if !st.1[v] {
                        let i = choose|i: int|
                            st.0.len() <= i < p.0.len() && #[trigger] p.0[i] == v;
                        assert(r.0[i] == v);
                    }
                }
            }
        } else {
            assert(r == p);
        }
    }
}

/// From a stack of distinct, already-marked nodes, the walk visits each
/// node at most once, every visited node lies below the seen set's length,
/// and every visited node came from the stack or was unseen.
proof fn lemma_dfs_shape(m: Seq<Seq<u32>>, n: int, stack: Seq<usize>, seen: Seq<bool>)
    requires
        seen.len() == n,
        n <= usize::MAX,
        distinct(stack),
        forall|j: int|
            0 <= j < stack.len() ==> (#[trigger] stack[j]) < n && seen[stack[j] as int],
    ensures
        distinct(dfs_rec(m, n, stack, seen)),
        forall|j: int|
            0 <= j < dfs_rec(m, n, stack, seen).len()
                ==> (#[trigger] dfs_rec(m, n, stack, seen)[j]) < n,
        forall|j: int|
            0 <= j < dfs_rec(m, n, stack, seen).len() ==> {
                let v = #[trigger] dfs_rec(m, n, stack, seen)[j];
                in_seq(stack, v as int) || !seen[v as int]
            },
    decreases count_unseen(seen), stack.len(),
{
    if stack.len() > 0 {
        let top = stack.last();
        let st0 = (stack.drop_last(), seen);
        let st = push_range(m, top as int, st0, n);
        lemma_push_range_measure(m, top as int, st0, n);
        lemma_push_range_shape(m, top as int, st0, n);
        assert(distinct(st.0)) by {
            assert forall|i: int, j: int| 0 <= i < j < st.0.len()
                implies #[trigger] st.0[i] != #[trigger] st.0[j] by {
                if j < st0.0.len() {
                    assert(st.0[i] == stack[i] && st.0[j] == stack[j]);
                } else if i < st0.0.len() {
                    assert(st.0[i] == stack[i]);
                    assert(seen[stack[i] as int]);
                    assert(!st0.1[st.0[j] as int]);
                }
            }
        }
        assert forall|j: int| 0 <= j < st.0.len()
            implies (#[trigger] st.0[j]) < n && st.1[st.0[j] as int] by {
            if j < st0.0.len() {
                assert(st.0[j] == stack[j]);
                assert(seen[stack[j] as int]);
            }
        }
        lemma_dfs_shape(m, n, st.0, st.1);
        let rest = dfs_rec(m, n, st.0, st.1);
        assert(dfs_rec(m, n, stack, seen) == seq![top] + rest);
        assert(!in_seq(rest, top as int)) by {
            if in_seq(rest, top as int) {
                let j = choose|j: int| 0 <= j < rest.len() && rest[j] == top as int;
                assert(in_seq(st.0, top as int) || !st.1[top as int]);
                assert(st.1[top as int]) by {
                    assert(seen[top as int]);
                }
                if in_seq(st.0, top as int) {
                    let i = choose|i: int| 0 <= i < st.0.len() && st.0[i] == top as int;
                    if i < st0.0.len() {
                        assert(st.0[i] == stack[i]);
                        assert(stack[i] != stack[stack.len() - 1]);
                    } else {
                        assert(!st0.1[st.0[i] as int]);
                    }
                }
            }
        }
        assert forall|i: int, j: int| 0 <= i < j < (seq![top] + rest).len()
            implies #[trigger] (seq![top] + rest)[i] != #[trigger] (seq![top] + rest)[j] by {
            if i > 0 {
                assert((seq![top] + rest)[i] == rest[i - 1]);
                assert((seq![top] + rest)[j] == rest[j - 1]);
            } else {
                assert((seq![top] + rest)[j] == rest[j - 1]);
                assert(!in_seq(rest, top as int));
            }
        }
        assert forall|j: int| 0 <= j < (seq![top] + rest).len()
            implies {
                let v = #[trigger] (seq![top] + rest)[j];
                in_seq(stack, v as int) || !seen[v as int]
            } by {
            if j == 0 {
                assert(in_seq(stack, top as int));
            } else {
                let v = rest[j - 1];
                assert(in_seq(st.0, v as int) || !st.1[v as int]);
                if in_seq(st.0, v as int) {
                    let i = choose|i: int| 0 <= i < st.0.len() && st.0[i] == v as int;
                    if i < st0.0.len() {
                        assert(stack[i] == v);
                    } else {
                        assert(!st0.1[st.0[i] as int]);
                    }
                } else {
                    assert(!st.1[v as int]);
                    assert(0 <= v < n);
                }
            }
        }
    }
}

/// The closure of the walk: every stacked node is eventually visited, and
/// the visited nodes - together with the nodes `popped` before this state
/// was reached - are closed under real edges. `popped` stands for the
/// nodes already emitted by an enclosing walk: the seen set holds exactly
/// the stacked and the popped nodes, and every neighbour of a popped node
/// is already seen.
proof fn lemma_dfs_closure(
    m: Seq<Seq<u32>>,
    n: int,
    stack: Seq<usize>,
    seen: Seq<bool>,
    popped: Set<int>,
)
    requires
        seen.len() == n,
        n <= usize::MAX,
        distinct(stack),
        forall|j: int|
            0 <= j < stack.len() ==> (#[trigger] stack[j]) < n && seen[stack[j] as int],
        forall|v: int|
            0 <= v < n ==> (seen[v] <==> in_seq(stack, v) || #[trigger] popped.contains(v)),
        forall|u: int, v: int|
            popped.contains(u) && 0 <= v < n && 0 <= u < n && #[trigger] m[u][v] != u32::MAX
                ==> seen[v],
        forall|u: int| #[trigger] popped.contains(u) ==> 0 <= u < n,
    ensures
        forall|j: int|
            0 <= j < stack.len()
                ==> in_seq(dfs_rec(m, n, stack, seen), #[trigger] stack[j] as int),
        forall|u: int, v: int|
            (popped.contains(u) || in_seq(dfs_rec(m, n, stack, seen), u)) && 0 <= u < n
                && 0 <= v < n && #[trigger] m[u][v] != u32::MAX
                ==> popped.contains(v) || in_seq(dfs_rec(m, n, stack, seen), v),
    decreases count_unseen(seen), stack.len(),
{
    if stack.len() == 0 {
        assert forall|u: int, v: int|
            (popped.contains(u) || in_seq(dfs_rec(m, n, stack, seen), u)) && 0 <= u < n
                && 0 <= v < n && #[trigger] m[u][v] != u32::MAX
            implies popped.contains(v) || in_seq(dfs_rec(m, n, stack, seen), v) by {
            if popped.contains(u) {
                assert(seen[v]);
                assert(!in_seq(stack, v));
            }
        }
    } else {
        let top = stack.last();
        let st0 = (stack.drop_last(), seen);
        let st = push_range(m, top as int, st0, n);
        lemma_push_range_measure(m, top as int, st0, n);
        lemma_push_range_shape(m, top as int, st0, n);
        let popped2 = popped.insert(top as int);
        let rest = dfs_rec(m, n, st.0, st.1);
        let result = dfs_rec(m, n, stack, seen);
        assert(result == seq![top] + rest);
        assert(distinct(st.0)) by {
            assert forall|i: int, j: int| 0 <= i < j < st.0.len()
                implies #[trigger] st.0[i] != #[trigger] st.0[j] by {
                if j < st0.0.len() {
                    assert(st.0[i] == stack[i] && st.0[j] == stack[j]);
                } else if i < st0.0.len() {
                    assert(st.0[i] == stack[i]);
                    assert(seen[stack[i] as int]);
                    assert(!st0.1[st.0[j] as int]);
                }
            }
        }
        assert forall|j: int| 0 <= j < st.0.len()
            implies (#[trigger] st.0[j]) < n && st.1[st.0[j] as int] by {
            if j < st0.0.len() {
                assert(st.0[j] == stack[j]);
                assert(seen[stack[j] as int]);
            }
        }
        assert forall|v: int| 0 <= v < n
            implies (st.1[v] <==> in_seq(st.0, v) || #[trigger] popped2.contains(v)) by {
            if st.1[v] {
                if seen[v] {
                    if in_seq(stack, v) {
                        let j = choose|j: int| 0 <= j < stack.len() && stack[j] == v;
                        if j < stack.len() - 1 {
                            assert(st.0[j] == stack[j]);
                            assert(in_seq(st.0, v));
                        } else {
                            assert(popped2.contains(v));
                        }
                    }
                } else {
                    let i = choose|i: int|
                        st0.0.len() <= i < st.0.len() && #[trigger] st.0[i] as int
                            == v;
                    assert(in_seq(st.0, v));
                }
            } else {
                assert(!seen[v]);
                assert(!in_seq(stack, v));
                if in_seq(st.0, v) {
                    let j = choose|j: int| 0 <= j < st.0.len() && st.0[j] == v;
                    if j < st0.0.len() {
                        assert(stack[j] == st.0[j]);
                        assert(in_seq(stack, v));
                    } else {
                        assert(st.1[st.0[j] as int]);
                    }
                }
                assert(v != top as int);
            }
        }
        assert forall|u: int, v: int|
            popped2.contains(u) && 0 <= v < n && 0 <= u < n && #[trigger] m[u][v] != u32::MAX
            implies st.1[v] by {
            if u == top as int && !popped.contains(u) {
                assert(st.1[v]);
            } else {
                assert(seen[v]);
            }
        }
        lemma_dfs_closure(m, n, st.0, st.1, popped2);
        assert forall|j: int| 0 <= j < stack.len()
            implies in_seq(result, #[trigger] stack[j] as int) by {
            if j < stack.len() - 1 {
                assert(st.0[j] == stack[j]);
                assert(in_seq(rest, stack[j] as int));
                let i = choose|i: int| 0 <= i < rest.len() && rest[i] == stack[j] as int;
                assert(result[i + 1] == rest[i]);
            } else {
                assert(result[0] == top);
            }
        }
        assert forall|u: int, v: int|
            (popped.contains(u) || in_seq(result, u)) && 0 <= u < n && 0 <= v < n
                && #[trigger] m[u][v] != u32::MAX
            implies popped.contains(v) || in_seq(result, v) by {
            let in_rec = popped2.contains(u) || in_seq(rest, u);
            assert(in_rec) by {
                if in_seq(result, u) {
                    let i = choose|i: int| 0 <= i < result.len() && result[i] == u;
                    if i == 0 {
                        assert(popped2.contains(u));
                    } else {
                        assert(rest[i - 1] == result[i]);
                    }
                }
            }
            assert(popped2.contains(v) || in_seq(rest, v));
            if popped2.contains(v) && !popped.contains(v) {
                assert(v == top as int);
                assert(in_seq(result, v)) by {
                    assert(result[0] == top);
                }
            }
            if in_seq(rest, v) {
                let i = choose|i: int| 0 <= i < rest.len() && rest[i] == v;
                assert(result[i + 1] == rest[i]);
            }
        }
    }
}

/// The walk from the root visits the root, and what it visits is closed
/// under real edges: a neighbour of a visited node is visited too.
pub proof fn lemma_dfs_order_closed(m: Seq<Seq<u32>>, n: int, root: usize)
    requires
        0 <= root < n,
        n <= usize::MAX,
    ensures
        in_seq(dfs_order(m, n, root), root as int),
        forall|u: int, v: int|
            in_seq(dfs_order(m, n, root), u) && 0 <= u < n && 0 <= v < n
                && #[trigger] m[u][v] != u32::MAX ==> in_seq(dfs_order(m, n, root), v),
{
    let stack = seq![root];
    let seen = init_seen(n, root);
    assert forall|v: int| 0 <= v < n
        implies (seen[v] <==> in_seq(stack, v) || Set::<int>::empty().contains(v)) by {
        if in_seq(stack, v) {
            assert(stack[0] == root);
        }
        if v == root {
            assert(stack[0] == root);
            assert(0 <= 0 < stack.len() && stack[0] as int == v);
            assert(in_seq(stack, v));
        }
    }
    lemma_dfs_closure(m, n, stack, seen, Set::empty());
    assert(in_seq(dfs_order(m, n, root), stack[0] as int));
}

/// The depth-first walk visits each node at most once: its visitation
/// order holds no node twice, and only nodes of the graph.
pub proof fn lemma_dfs_order_distinct(m: Seq<Seq<u32>>, n: int, root: usize)
    requires
        0 <= root < n,
        n <= usize::MAX,
    ensures
        distinct(dfs_order(m, n, root)),
        forall|j: int|
            0 <= j < dfs_order(m, n, root).len()
                ==> (#[trigger] dfs_order(m, n, root)[j]) < n,
        dfs_order(m, n, root).len() <= n,
{
    lemma_dfs_shape(m, n, seq![root], init_seen(n, root));
    crate::prim::lemma_distinct_len_bound(dfs_order(m, n, root), n);
}

/// A chain matrix: nodes share a real edge exactly when their indices
/// differ by one, so the graph is the path 0 - 1 - ... - (n-1).
pub open spec fn chain_matrix(m: Seq<Seq<u32>>, n: int) -> bool {
    forall|i: int, j: int|
        0 <= i < n && 0 <= j < n
            ==> (#[trigger] m[i][j] != u32::MAX <==> (i - j == 1 || j - i == 1))
}

/// The seen set of a chain walk that has visited the nodes up to `k`.
spec fn chain_seen(n: int, k: int) -> Seq<bool> {
    Seq::new(n as nat, |j: int| j <= k)
}

/// The index sequence k, k+1, ..., n-1.
spec fn idx_range(k: int, n: int) -> Seq<usize> {
    Seq::new((n - k) as nat, |j: int| (k + j) as usize)
}

/// The weight of the chain up to node `k`: the sum of its first `k` edges.
pub open spec fn chain_weight(m: Seq<Seq<u32>>, k: int) -> int
    decreases k,
{
    if k <= 0 {
        0
    } else {
        chain_weight(m, k - 1) + m[k][k - 1]
    }
}

/// On a chain, the neighbour push from node `k` pushes exactly node
/// `k + 1` (when there is one) and marks it seen.
proof fn lemma_chain_push(m: Seq<Seq<u32>>, n: int, k: int, c: int)
    requires
        chain_matrix(m, n),
        0 <= k < n,
        0 <= c <= n,
        n <= usize::MAX,
    ensures
        push_range(m, k, (Seq::empty(), chain_seen(n, k)), c) == if c <= k + 1 {
            (Seq::<usize>::empty(), chain_seen(n, k))
        } else {
            (seq![(k + 1) as usize], chain_seen(n, k + 1))
        },
    decreases c,
{
    if c > 0 {
        lemma_chain_push(m, n, k, c - 1);
        let prev = push_range(m, k, (Seq::empty(), chain_seen(n, k)), c - 1);
        if c - 1 == k + 1 {
            assert(c - 1 < n && !chain_seen(n, k)[c - 1] && m[k][c - 1] != u32::MAX);
            assert(chain_seen(n, k).update(k + 1, true) =~= chain_seen(n, k + 1));
        } else if c - 1 > k + 1 {
            assert(m[k][c - 1] == u32::MAX);
        } else {
            assert(chain_seen(n, k)[c - 1]);
        }
    }
}

/// On a chain rooted at node `k`, the walk visits k, k+1, ..., n-1.
proof fn lemma_chain_rec(m: Seq<Seq<u32>>, n: int, k: int)
    requires
        chain_matrix(m, n),
        0 <= k < n,
        n <= usize::MAX,
    ensures
        dfs_rec(m, n, seq![(k as usize)], chain_seen(n, k)) == idx_range(k, n),
    decreases n - k,
{
    let stack = seq![(k as usize)];
    assert(stack.last() == k as usize);
    assert(stack.drop_last() =~= Seq::<usize>::empty());
    lemma_chain_push(m, n, k, n);
    if k + 1 < n {
        lemma_chain_rec(m, n, k + 1);
        assert(seq![(k as usize)] + idx_range(k + 1, n) =~= idx_range(k, n));
    } else {
        assert(dfs_rec(m, n, Seq::<usize>::empty(), chain_seen(n, k)) == Seq::<usize>::empty());
        assert(seq![(k as usize)] + Seq::<usize>::empty() =~= idx_range(k, n));
    }
}

/// Walking the first `k` chain nodes in index order accumulates exactly
/// the chain's first `k - 1` edge weights.
proof fn lemma_chain_path_sum(m: Seq<Seq<u32>>, k: int)
    requires
        1 <= k <= usize::MAX,
    ensures
        path_sum(m, idx_range(0, k)) == chain_weight(m, k - 1),
    decreases k,
{
    if k > 1 {
        lemma_chain_path_sum(m, k - 1);
        assert(idx_range(0, k).drop_last() =~= idx_range(0, k - 1));
        assert(idx_range(0, k).last() == (k - 1) as usize);
        assert(idx_range(0, k)[k - 2] == (k - 2) as usize);
        assert((k - 1) as usize as int == k - 1);
        assert((k - 2) as usize as int == k - 2);
        assert(path_sum(m, idx_range(0, k))
            == path_sum(m, idx_range(0, k - 1)) + m[k - 1][k - 2]);
    }
}

/// Over a chain-shaped tree rooted at its first node, the depth-first walk
/// visits every node exactly once, in index order, and the distance
/// measured against the tree itself is exactly the sum of the tree's own
/// edge weights.
pub proof fn lemma_chain_walk(m: Seq<Seq<u32>>, n: int)
    requires
        chain_matrix(m, n),
        1 <= n,
        n <= usize::MAX,
    ensures
        dfs_order(m, n, 0).len() == n,
        forall|k: int| 0 <= k < n ==> dfs_order(m, n, 0)[k] == k,
        path_sum(m, dfs_order(m, n, 0)) == chain_weight(m, n - 1),
{
    assert(init_seen(n, 0) =~= chain_seen(n, 0));
    lemma_chain_rec(m, n, 0);
    assert(dfs_order(m, n, 0) == idx_range(0, n));
    lemma_chain_path_sum(m, n);
}

/// A walked prefix never accumulates more than the whole walk.
pub proof fn lemma_path_sum_concat_le(mref: Seq<Seq<u32>>, p: Seq<usize>, q: Seq<usize>)
    ensures
        path_sum(mref, p) <= path_sum(mref, p + q),
    decreases q.len(),
{
    if q.len() > 0 {
        lemma_path_sum_concat_le(mref, p, q.drop_last());
        assert((p + q).drop_last() =~= p + q.drop_last());
        if (p + q).len() > 1 {
            assert(path_sum(mref, p + q)
                == path_sum(mref, p + q.drop_last())
                    + mref[(p + q).last() as int][(p + q)[(p + q).len() - 2] as int]);
        } else {
            assert(p.len() == 0 && q.len() == 1);
            assert(path_sum(mref, p) == 0);
        }
    } else {
        assert(p + q =~= p);
    }
}

/// A walked prefix never accumulates more than the whole walk, in the
/// direct point-distance policy.
pub proof fn lemma_point_path_sum_concat_le(points: Seq<Point>, p: Seq<usize>, q: Seq<usize>)
    ensures
        point_path_sum(points, p) <= point_path_sum(points, p + q),
    decreases q.len(),
{
    if q.len() > 0 {
        lemma_point_path_sum_concat_le(points, p, q.drop_last());
        assert((p + q).drop_last() =~= p + q.drop_last());
        if (p + q).len() > 1 {
            crate::points::lemma_dist_sq_nonneg(
                points[(p + q)[(p + q).len() - 2] as int],
                points[(p + q).last() as int],
            );
            assert(point_path_sum(points, p + q)
                == point_path_sum(points, p + q.drop_last())
                    + dist_sq(
                    points[(p + q)[(p + q).len() - 2] as int],
                    points[(p + q).last() as int],
                ));
        } else {
            assert(p.len() == 0 && q.len() == 1);
            assert(point_path_sum(points, p) == 0);
        }
    } else {
        assert(p + q =~= p);
    }
}

} // verus!
