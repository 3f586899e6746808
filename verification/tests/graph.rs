use graph_cycles::DiGraph;

#[test]
fn new_graph_has_nodes_and_no_edges() {
    let g = DiGraph::new(3);
    assert_eq!(g.node_count(), 3);
    for a in 0..3 {
        assert_eq!(g.neighbors(a), Some(&vec![]));
    }
    assert_eq!(g.neighbors(3), None);
    assert_eq!(DiGraph::new(0).node_count(), 0);
    assert_eq!(DiGraph::new(0).neighbors(0), None);
}

#[test]
fn add_edge_appends_in_order_and_keeps_repeats() {
    let mut g = DiGraph::new(3);
    assert!(g.add_edge(0, 2));
    assert!(g.add_edge(0, 1));
    assert!(g.add_edge(0, 2));
    assert!(g.add_edge(2, 2));
    assert_eq!(g.neighbors(0), Some(&vec![2, 1, 2]));
    assert_eq!(g.neighbors(1), Some(&vec![]));
    assert_eq!(g.neighbors(2), Some(&vec![2]));
    assert_eq!(g.node_count(), 3);
}

#[test]
fn add_edge_refuses_unknown_nodes() {
    let mut g = DiGraph::new(2);
    assert!(!g.add_edge(0, 2));
    assert!(!g.add_edge(2, 0));
    assert!(!g.add_edge(usize::MAX, usize::MAX));
    assert_eq!(g.neighbors(0), Some(&vec![]));
    assert_eq!(g.neighbors(1), Some(&vec![]));
    assert_eq!(g.node_count(), 2);
    let mut empty = DiGraph::new(0);
    assert!(!empty.add_edge(0, 0));
}

fn sorted_parts(g: &DiGraph) -> Vec<Vec<usize>> {
    let mut parts = g.strongly_connected_components();
    for part in parts.iter_mut() {
        part.sort();
    }
    parts.sort();
    parts
}

#[test]
fn components_split_the_nodes() {
    let mut g = DiGraph::new(7);
    for &(a, b) in &[(0, 1), (1, 2), (2, 0), (2, 3), (3, 4), (4, 3), (5, 5), (4, 6)] {
        assert!(g.add_edge(a, b));
    }
    assert_eq!(sorted_parts(&g), vec![vec![0, 1, 2], vec![3, 4], vec![5], vec![6]]);
}

#[test]
fn components_of_a_graph_without_edges_are_its_nodes() {
    assert_eq!(sorted_parts(&DiGraph::new(3)), vec![vec![0], vec![1], vec![2]]);
    assert!(DiGraph::new(0).strongly_connected_components().is_empty());
}

#[test]
fn components_follow_the_direction_of_edges() {
    let mut g = DiGraph::new(3);
    assert!(g.add_edge(0, 1));
    assert!(g.add_edge(1, 2));
    assert_eq!(sorted_parts(&g), vec![vec![0], vec![1], vec![2]]);
    assert!(g.add_edge(2, 0));
    assert_eq!(sorted_parts(&g), vec![vec![0, 1, 2]]);
}

#[test]
fn components_hold_exactly_the_nodes_that_reach_each_other() {
    let mut state: u64 = 0xc0ffee;
    let mut next = move || {
        state = state.wrapping_mul(6364136223846793005).wrapping_add(1442695040888963407);
        state >> 33
    };
    for _ in 0..200 {
        let n = 1 + (next() % 9) as usize;
        let mut g = DiGraph::new(n);
        let mut reach = vec![vec![false; n]; n];
        for (a, row) in reach.iter_mut().enumerate() {
            row[a] = true;
        }
        for a in 0..n {
            for b in 0..n {
                if next() % 5 == 0 {
                    assert!(g.add_edge(a, b));
                    reach[a][b] = true;
                }
            }
        }
        for k in 0..n {
            for a in 0..n {
                for b in 0..n {
                    if reach[a][k] && reach[k][b] {
                        reach[a][b] = true;
                    }
                }
            }
        }
        let parts = g.strongly_connected_components();
        let mut part_of = vec![usize::MAX; n];
        for (p, part) in parts.iter().enumerate() {
            assert!(!part.is_empty());
            for &node in part {
                assert!(node < n);
                assert_eq!(part_of[node], usize::MAX, "a node is listed once");
                part_of[node] = p;
            }
        }
        for a in 0..n {
            assert_ne!(part_of[a], usize::MAX, "every node is listed");
            for b in 0..n {
                assert_eq!(part_of[a] == part_of[b], reach[a][b] && reach[b][a]);
            }
        }
    }
}
