use mst_paths::Graph;
use mst_paths::points::Point;

const NO_EDGE: u32 = u32::MAX;

fn line_points() -> Vec<Point> {
    vec![
        Point::new(0, 0),
        Point::new(1, 0),
        Point::new(3, 0),
        Point::new(7, 0),
    ]
}

fn reachable_from(matrix: &Vec<Vec<u32>>, n: usize, root: usize) -> Vec<bool> {
    let mut seen = vec![false; n];
    let mut stack = vec![root];
    seen[root] = true;
    while let Some(top) = stack.pop() {
        for v in 0..n {
            if !seen[v] && matrix[top][v] != NO_EDGE {
                seen[v] = true;
                stack.push(v);
            }
        }
    }
    seen
}

#[test]
fn new_graph_is_all_sentinel() {
    let g = Graph::new(3);
    assert_eq!(g.n, 3);
    assert_eq!(g.matrix.len(), 3);
    for row in g.matrix.iter() {
        assert_eq!(row.len(), 3);
        for cell in row.iter() {
            assert_eq!(*cell, NO_EDGE);
        }
    }
    assert!(g.points.is_empty());
}

#[test]
fn add_edge_writes_symmetrically() {
    let mut g = Graph::new(3);
    g.add_edge(0, 2, 9);
    assert_eq!(g.matrix[0][2], 9);
    assert_eq!(g.matrix[2][0], 9);
    assert_eq!(g.matrix[0][1], NO_EDGE);
    assert_eq!(g.matrix[1][2], NO_EDGE);
}

#[test]
fn with_points_matrix_is_symmetric_with_sentinel_diagonal_only() {
    let points = vec![
        Point::new(0, 0),
        Point::new(3, 0),
        Point::new(0, 4),
        Point::new(10, 10),
        Point::new(7, 1),
    ];
    let g = Graph::new_with_points(&points);
    assert_eq!(g.n, 5);
    for i in 0..5 {
        for j in 0..5 {
            assert_eq!(g.matrix[i][j], g.matrix[j][i]);
            if i == j {
                assert_eq!(g.matrix[i][j], NO_EDGE);
            } else {
                assert_ne!(g.matrix[i][j], NO_EDGE);
            }
        }
    }
    assert_eq!(g.matrix[0][1], 9);
    assert_eq!(g.matrix[0][2], 16);
    assert_eq!(g.matrix[1][2], 25);
    assert_eq!(g.points.len(), 5);
}

#[test]
fn spanning_tree_edges_follow_construction_order() {
    let g = Graph::new_with_points(&line_points());
    let edges = g.spanning_tree_edges(0);
    assert_eq!(edges, vec![(1, 0), (2, 1), (3, 2)]);
}

#[test]
fn spanning_tree_has_n_minus_one_edges_and_is_connected() {
    let points = vec![
        Point::new(0, 0),
        Point::new(9, 1),
        Point::new(2, 7),
        Point::new(14, 3),
        Point::new(5, 5),
        Point::new(11, 12),
    ];
    let g = Graph::new_with_points(&points);
    let tree = g.spanning_tree(2);
    assert_eq!(tree.n, 6);
    let mut populated_pairs = 0;
    for i in 0..6 {
        assert_eq!(tree.matrix[i][i], NO_EDGE);
        for j in 0..6 {
            assert_eq!(tree.matrix[i][j], tree.matrix[j][i]);
            if i < j && tree.matrix[i][j] != NO_EDGE {
                populated_pairs += 1;
                assert_eq!(tree.matrix[i][j], g.matrix[i][j]);
            }
        }
    }
    assert_eq!(populated_pairs, 5);
    let seen = reachable_from(&tree.matrix, 6, 2);
    assert!(seen.iter().all(|s| *s));
    assert_eq!(tree.points.len(), 6);
}

#[test]
fn spanning_tree_weight_is_minimal_among_all_spanning_trees() {
    let points = vec![
        Point::new(0, 0),
        Point::new(4, 1),
        Point::new(1, 6),
        Point::new(8, 8),
        Point::new(3, 3),
    ];
    let n = 5;
    let g = Graph::new_with_points(&points);
    let tree = g.spanning_tree(0);
    let mut tree_weight: u64 = 0;
    for i in 0..n {
        for j in (i + 1)..n {
            if tree.matrix[i][j] != NO_EDGE {
                tree_weight += tree.matrix[i][j] as u64;
            }
        }
    }

    let mut all_edges = Vec::new();
    for i in 0..n {
        for j in (i + 1)..n {
            all_edges.push((i, j));
        }
    }
    let m = all_edges.len();
    let mut best: u64 = u64::MAX;
    for mask in 0u32..(1 << m) {
        if mask.count_ones() as usize != n - 1 {
            continue;
        }
        let mut candidate = vec![vec![NO_EDGE; n]; n];
        let mut weight: u64 = 0;
        for (b, (i, j)) in all_edges.iter().enumerate() {
            if mask & (1 << b) != 0 {
                candidate[*i][*j] = g.matrix[*i][*j];
                candidate[*j][*i] = g.matrix[*i][*j];
                weight += g.matrix[*i][*j] as u64;
            }
        }
        let seen = reachable_from(&candidate, n, 0);
        if seen.iter().all(|s| *s) && weight < best {
            best = weight;
        }
    }
    assert_eq!(tree_weight, best);
}

#[test]
fn spanning_tree_twice_gives_identical_edges_and_weights() {
    let points = vec![
        Point::new(2, 2),
        Point::new(9, 0),
        Point::new(0, 9),
        Point::new(12, 12),
        Point::new(6, 4),
    ];
    let g = Graph::new_with_points(&points);
    let t1 = g.spanning_tree(1);
    let t2 = g.spanning_tree(1);
    assert_eq!(t1.n, t2.n);
    assert_eq!(t1.matrix, t2.matrix);
    assert_eq!(g.spanning_tree_edges(1), g.spanning_tree_edges(1));
}

#[test]
fn path_distance_on_path_graph_equals_edge_sum() {
    let mut tree = Graph::new(4);
    tree.add_edge(0, 1, 1);
    tree.add_edge(1, 2, 2);
    tree.add_edge(2, 3, 3);
    let total = tree.path_in_spanning_tree(0, &tree);
    assert_eq!(total, 6);
}

#[test]
fn path_distance_against_reference_graph() {
    let g = Graph::new_with_points(&line_points());
    let tree = g.spanning_tree(0);
    // The tree is the path 0-1-2-3 with weights 1, 4, 16; the walk visits
    // the nodes in index order, so the reference cells add up the same way.
    assert_eq!(tree.path_in_spanning_tree(0, &g), 21);
    assert_eq!(tree.path_in_spanning_tree(0, &tree), 21);
}

#[test]
fn path_traversal_reports_steps_and_point_distance() {
    let g = Graph::new_with_points(&line_points());
    let tree = g.spanning_tree(0);
    let (steps, total) = tree.path_traversal(0);
    assert_eq!(steps, vec![(0, 0, 0), (0, 1, 1), (1, 2, 2), (2, 3, 3)]);
    assert_eq!(total, 21);
}

#[test]
fn path_traversal_pops_pushed_neighbours_in_reverse() {
    // A star around node 0: the neighbours are pushed in ascending order,
    // so the stack pops them in descending order.
    let mut tree = Graph::new(4);
    tree.add_edge(0, 1, 5);
    tree.add_edge(0, 2, 7);
    tree.add_edge(0, 3, 9);
    tree.points = vec![
        Point::new(0, 0),
        Point::new(1, 0),
        Point::new(2, 0),
        Point::new(3, 0),
    ];
    let (steps, total) = tree.path_traversal(0);
    assert_eq!(steps, vec![(0, 0, 0), (0, 3, 1), (3, 2, 2), (2, 1, 3)]);
    // 0 -> 3 costs 9, 3 -> 2 costs 1, 2 -> 1 costs 1.
    assert_eq!(total, 11);
}

#[test]
fn greedy_path_visits_square_in_nearest_order() {
    let mut vec = vec![
        Point::new(0, 0),
        Point::new(10, 0),
        Point::new(10, 10),
        Point::new(0, 10),
    ];
    let (order, total) = mst_paths::greedy_path(&mut vec);
    assert!(vec.is_empty());
    assert_eq!(total, 300);
    let expected = [(0, 0), (0, 10), (10, 10), (10, 0)];
    assert_eq!(order.len(), 4);
    for (pt, (x, y)) in order.iter().zip(expected.iter()) {
        assert_eq!((pt.x, pt.y), (*x, *y));
    }
}
