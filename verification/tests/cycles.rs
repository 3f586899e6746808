use graph_cycles::{Cycles, DiGraph};
use std::ops::ControlFlow;

fn graph(node_count: usize, edges: &[(usize, usize)]) -> DiGraph {
    let mut g = DiGraph::new(node_count);
    for &(a, b) in edges {
        assert!(g.add_edge(a, b));
    }
    g
}

/// The cycle read from its least node on.
fn canonical(cycle: &[usize]) -> Vec<usize> {
    let at = (0..cycle.len()).min_by_key(|&i| cycle[i]).unwrap();
    let mut out = cycle[at..].to_vec();
    out.extend_from_slice(&cycle[..at]);
    out
}

fn canonical_sorted(cycles: &[Vec<usize>]) -> Vec<Vec<usize>> {
    let mut out: Vec<Vec<usize>> = cycles.iter().map(|c| canonical(c)).collect();
    out.sort();
    out
}

fn has_edge(g: &DiGraph, a: usize, b: usize) -> bool {
    g.neighbors(a).map_or(false, |list| list.contains(&b))
}

fn assert_elementary(g: &DiGraph, cycle: &[usize]) {
    assert!(!cycle.is_empty());
    for i in 0..cycle.len() {
        let next = cycle[(i + 1) % cycle.len()];
        assert!(has_edge(g, cycle[i], next), "no edge {} -> {}", cycle[i], next);
        for j in 0..i {
            assert_ne!(cycle[i], cycle[j]);
        }
    }
}

/// All elementary cycles, each from its least node on, found by trying every
/// simple path.
fn brute_force(g: &DiGraph) -> Vec<Vec<usize>> {
    fn extend(g: &DiGraph, start: usize, path: &mut Vec<usize>, out: &mut Vec<Vec<usize>>) {
        let last = *path.last().unwrap();
        let mut nexts: Vec<usize> = g.neighbors(last).unwrap().clone();
        nexts.sort();
        nexts.dedup();
        for w in nexts {
            if w == start {
                out.push(path.clone());
            } else if w > start && !path.contains(&w) {
                path.push(w);
                extend(g, start, path, out);
                path.pop();
            }
        }
    }
    let mut out = Vec::new();
    for start in 0..g.node_count() {
        let mut path = vec![start];
        extend(g, start, &mut path, &mut out);
    }
    out.sort();
    out
}

struct Lcg(u64);

impl Lcg {
    fn next(&mut self) -> u64 {
        self.0 = self.0.wrapping_mul(6364136223846793005).wrapping_add(1442695040888963407);
        self.0 >> 33
    }
}

#[test]
fn test() {}

#[test]
fn triangle_has_one_cycle() {
    let g = graph(3, &[(0, 1), (1, 2), (2, 0)]);
    let cycles = g.cycles();
    assert_eq!(cycles.len(), 1);
    assert_eq!(cycles[0].len(), 3);
    let mut seen = 0;
    g.visit_all_cycles(|_g, c| {
        assert_eq!(c.len(), 3);
        seen += 1;
    });
    assert_eq!(seen, 1);
}

#[test]
fn emitted_cycles_follow_edges_and_repeat_no_node() {
    let g = graph(
        6,
        &[(0, 1), (0, 2), (1, 2), (1, 3), (2, 1), (3, 0), (3, 4), (4, 5), (5, 3), (4, 4)],
    );
    let cycles = g.cycles();
    assert!(!cycles.is_empty());
    for c in &cycles {
        assert_elementary(&g, c);
    }
}

#[test]
fn no_cycle_is_reported_twice() {
    let g = graph(
        5,
        &[(0, 1), (1, 0), (1, 2), (2, 1), (2, 3), (3, 2), (3, 4), (4, 3), (4, 0), (0, 4)],
    );
    let found = canonical_sorted(&g.cycles());
    for i in 1..found.len() {
        assert_ne!(found[i - 1], found[i]);
    }
    assert_eq!(found, brute_force(&g));
}

#[test]
fn random_small_graphs_match_brute_force() {
    let mut rng = Lcg(0x5eed);
    for round in 0..300 {
        let n = 1 + (rng.next() % 8) as usize;
        let density = 1 + rng.next() % 5;
        let mut g = DiGraph::new(n);
        for a in 0..n {
            for b in 0..n {
                if rng.next() % 6 < density {
                    assert!(g.add_edge(a, b));
                }
            }
        }
        let cycles = g.cycles();
        for c in &cycles {
            assert_elementary(&g, c);
        }
        let expected = brute_force(&g);
        assert_eq!(cycles.len(), expected.len(), "round {round}");
        assert_eq!(canonical_sorted(&cycles), expected, "round {round}");
        let mut sets: Vec<Vec<usize>> = cycles
            .iter()
            .map(|c| {
                let mut s = c.clone();
                s.sort();
                s
            })
            .collect();
        sets.sort();
        let mut expected_sets: Vec<Vec<usize>> = expected
            .iter()
            .map(|c| {
                let mut s = c.clone();
                s.sort();
                s
            })
            .collect();
        expected_sets.sort();
        assert_eq!(sets, expected_sets, "round {round}");
    }
}

#[test]
fn graph_without_edges_has_no_cycle() {
    assert!(DiGraph::new(0).cycles().is_empty());
    assert!(DiGraph::new(1).cycles().is_empty());
    assert!(DiGraph::new(7).cycles().is_empty());
}

#[test]
fn acyclic_graph_has_no_cycle() {
    let g = graph(6, &[(0, 1), (0, 2), (1, 3), (2, 3), (3, 4), (3, 5), (1, 5), (0, 5)]);
    assert!(g.cycles().is_empty());
    let mut calls = 0;
    let out: Option<()> = g.visit_cycles(|_g, _c| {
        calls += 1;
        ControlFlow::Continue(())
    });
    assert_eq!(out, None);
    assert_eq!(calls, 0);
}

#[test]
fn pure_cycle_is_found_once_in_its_order() {
    for k in 1..9usize {
        let edges: Vec<(usize, usize)> = (0..k).map(|i| (i, (i + 1) % k)).collect();
        let g = graph(k, &edges);
        let cycles = g.cycles();
        assert_eq!(cycles.len(), 1);
        assert_eq!(cycles[0].len(), k);
        let expected: Vec<usize> = (0..k).collect();
        assert_eq!(canonical(&cycles[0]), expected);
    }
}

#[test]
fn two_disjoint_triangles_give_two_cycles() {
    let g = graph(6, &[(0, 1), (1, 2), (2, 0), (3, 4), (4, 5), (5, 3)]);
    let cycles = g.cycles();
    assert_eq!(cycles.len(), 2);
    assert_eq!(canonical_sorted(&cycles), vec![vec![0, 1, 2], vec![3, 4, 5]]);
    for c in &cycles {
        assert_eq!(c.len(), 3);
        let low = c.iter().all(|&x| x < 3);
        let high = c.iter().all(|&x| x >= 3);
        assert!(low || high);
    }
}

#[test]
fn break_on_first_cycle_stops_the_search() {
    let g = graph(4, &[(0, 1), (1, 0), (1, 2), (2, 1), (2, 3), (3, 2), (3, 0), (0, 3)]);
    assert!(g.cycles().len() > 1);
    let mut calls = 0;
    let out = g.visit_cycles(|_g, c| {
        calls += 1;
        ControlFlow::Break(c.to_vec())
    });
    assert_eq!(calls, 1);
    let first = out.expect("a cycle was visited");
    assert_eq!(first, g.cycles()[0]);
}

#[test]
fn break_is_passed_up_from_any_depth() {
    let g = graph(
        5,
        &[(0, 1), (1, 2), (2, 3), (3, 4), (4, 0), (4, 1), (3, 1), (2, 0), (1, 0), (2, 2)],
    );
    let all = g.cycles();
    assert!(all.len() >= 5);
    for stop_at in 1..=all.len() {
        let mut calls = 0;
        let mut seen: Vec<Vec<usize>> = Vec::new();
        let out = g.visit_cycles(|_g, c| {
            calls += 1;
            seen.push(c.to_vec());
            if calls == stop_at {
                ControlFlow::Break(calls)
            } else {
                ControlFlow::Continue(())
            }
        });
        assert_eq!(out, Some(stop_at));
        assert_eq!(calls, stop_at);
        assert_eq!(seen[..], all[..stop_at]);
    }
}

#[test]
fn visitor_that_never_breaks_sees_every_cycle() {
    let g = graph(4, &[(0, 1), (1, 2), (2, 0), (2, 3), (3, 0), (3, 3)]);
    let mut seen: Vec<Vec<usize>> = Vec::new();
    let out: Option<u8> = g.visit_cycles(|_g, c| {
        seen.push(c.to_vec());
        ControlFlow::Continue(())
    });
    assert_eq!(out, None);
    assert_eq!(seen, g.cycles());
    let mut told: Vec<Vec<usize>> = Vec::new();
    g.visit_all_cycles(|_g, c| told.push(c.to_vec()));
    assert_eq!(told, seen);
    assert_eq!(canonical_sorted(&seen), vec![vec![0, 1, 2], vec![0, 1, 2, 3], vec![3]]);
}

#[test]
fn visitor_is_handed_the_graph_it_was_called_on() {
    let g = graph(2, &[(0, 1), (1, 0)]);
    let mut nodes = 0;
    g.visit_all_cycles(|seen, _c| nodes = seen.node_count());
    assert_eq!(nodes, 2);
}

#[test]
fn self_loop_is_a_cycle_of_one_node() {
    let g = graph(3, &[(1, 1)]);
    assert_eq!(g.cycles(), vec![vec![1]]);
    let g = graph(2, &[(0, 0), (0, 1), (1, 0), (1, 1)]);
    assert_eq!(canonical_sorted(&g.cycles()), vec![vec![0], vec![0, 1], vec![1]]);
}

#[test]
fn parallel_edges_report_a_cycle_once_for_each_way_round() {
    let g = graph(2, &[(0, 1), (0, 1), (1, 0)]);
    let cycles = g.cycles();
    assert_eq!(cycles.len(), 2);
    assert_eq!(canonical_sorted(&cycles), vec![vec![0, 1], vec![0, 1]]);
    let g = graph(1, &[(0, 0), (0, 0), (0, 0)]);
    assert_eq!(g.cycles(), vec![vec![0], vec![0], vec![0]]);
}

#[test]
fn vertex_that_waited_is_searched_again_after_its_release() {
    let g = graph(4, &[(0, 1), (0, 2), (1, 2), (1, 3), (2, 1), (3, 0)]);
    assert_eq!(
        canonical_sorted(&g.cycles()),
        vec![vec![0, 1, 3], vec![0, 2, 1, 3], vec![1, 2]]
    );
    let g = graph(
        6,
        &[(0, 1), (1, 2), (2, 3), (3, 1), (3, 4), (4, 5), (5, 0), (2, 5), (5, 2), (0, 3)],
    );
    assert_eq!(canonical_sorted(&g.cycles()), brute_force(&g));
}

#[test]
fn complete_graph_on_five_nodes_has_eighty_four_cycles() {
    let mut g = DiGraph::new(5);
    for a in 0..5 {
        for b in 0..5 {
            if a != b {
                assert!(g.add_edge(a, b));
            }
        }
    }
    let cycles = g.cycles();
    assert_eq!(cycles.len(), 84);
    assert_eq!(cycles.iter().filter(|c| c.len() == 2).count(), 10);
    assert_eq!(cycles.iter().filter(|c| c.len() == 3).count(), 20);
    assert_eq!(cycles.iter().filter(|c| c.len() == 4).count(), 30);
    assert_eq!(cycles.iter().filter(|c| c.len() == 5).count(), 24);
}

/// The cycles as a plain search gives them: part after part as the graph
/// lists its parts, root after root, successor after successor, going on only
/// through nodes that come after the root in the part and are not on the way.
fn plain_enumeration(g: &DiGraph) -> Vec<Vec<usize>> {
    fn go(succ: &[Vec<usize>], s: usize, path: &mut Vec<usize>, out: &mut Vec<Vec<usize>>, part: &[usize]) {
        let last = *path.last().unwrap();
        for &w in &succ[last] {
            if w == s {
                out.push(path.iter().map(|&x| part[x]).collect());
            } else if w > s && !path.contains(&w) {
                path.push(w);
                go(succ, s, path, out, part);
                path.pop();
            }
        }
    }
    let mut out = Vec::new();
    for part in g.strongly_connected_components() {
        let succ: Vec<Vec<usize>> = part
            .iter()
            .map(|&node| {
                let list = g.neighbors(node).unwrap();
                list.iter().filter_map(|n| part.iter().position(|x| x == n)).collect()
            })
            .collect();
        for s in 0..part.len() {
            let mut path = vec![s];
            go(&succ, s, &mut path, &mut out, &part);
        }
    }
    out
}

fn random_graph(rng: &mut Lcg, max_nodes: u64, repeats: bool) -> DiGraph {
    let n = 1 + (rng.next() % max_nodes) as usize;
    let density = 1 + rng.next() % 4;
    let mut g = DiGraph::new(n);
    for a in 0..n {
        for b in 0..n {
            let times = if repeats { 1 + rng.next() % 2 } else { 1 };
            if rng.next() % 6 < density {
                for _ in 0..times {
                    assert!(g.add_edge(a, b));
                }
            }
        }
    }
    g
}

#[test]
fn cycles_come_in_the_order_of_parts_roots_and_successors() {
    let mut rng = Lcg(0xfeed);
    for round in 0..200 {
        let g = random_graph(&mut rng, 7, round % 2 == 1);
        assert_eq!(g.cycles(), plain_enumeration(&g), "round {round}");
    }
    let g = graph(2, &[(0, 1), (0, 1), (1, 0), (1, 0)]);
    assert_eq!(g.cycles().len(), 4);
    assert_eq!(g.cycles(), plain_enumeration(&g));
}

#[test]
fn two_searches_of_one_graph_find_the_same() {
    let mut rng = Lcg(0xbead);
    for _ in 0..50 {
        let g = random_graph(&mut rng, 8, true);
        let first = g.cycles();
        let mut second: Vec<Vec<usize>> = Vec::new();
        let out: Option<()> = g.visit_cycles(|_g, c| {
            second.push(c.to_vec());
            ControlFlow::Continue(())
        });
        assert_eq!(out, None);
        assert_eq!(first, second);
        let mut third: Vec<Vec<usize>> = Vec::new();
        g.visit_all_cycles(|_g, c| third.push(c.to_vec()));
        assert_eq!(first, third);
        assert_eq!(first, g.cycles());
    }
}

#[test]
fn cycles_of_one_part_come_next_to_each_other() {
    let mut rng = Lcg(0xabba);
    for _ in 0..100 {
        let g = random_graph(&mut rng, 9, false);
        let parts = g.strongly_connected_components();
        let part_of = |node: usize| parts.iter().position(|p| p.contains(&node)).unwrap();
        let cycles = g.cycles();
        let mut last = 0;
        for c in &cycles {
            let p = part_of(c[0]);
            assert!(c.iter().all(|&x| part_of(x) == p));
            assert!(last <= p, "parts come in the order of the list of parts");
            last = p;
        }
    }
}

#[test]
fn each_cycle_starts_at_its_first_node_in_the_part() {
    let g = graph(5, &[(0, 1), (1, 2), (2, 0), (2, 3), (3, 4), (4, 2), (1, 3), (4, 0)]);
    let parts = g.strongly_connected_components();
    assert_eq!(parts.len(), 1);
    let pos = |node: usize| parts[0].iter().position(|&x| x == node).unwrap();
    let mut last = 0;
    for c in g.cycles() {
        assert!(c.iter().all(|&x| pos(c[0]) <= pos(x)));
        assert!(last <= pos(c[0]));
        last = pos(c[0]);
    }
}
