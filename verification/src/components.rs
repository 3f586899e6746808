//! Strongly connected components, as petgraph computes them.

use crate::graph::{lists, reaches, well_formed};
use petgraph::algo::tarjan_scc;
use petgraph::graph::Graph;
use petgraph::Directed;
use vstd::prelude::*;

verus! {

/// `p` and `i` name an entry of `parts`.
pub open spec fn is_entry(parts: Seq<Seq<usize>>, p: int, i: int) -> bool {
    0 <= p < parts.len() && 0 <= i < parts[p].len()
}

/// Some entry of `parts` is `node`.
pub open spec fn is_listed(parts: Seq<Seq<usize>>, node: usize) -> bool {
    exists|p: int, i: int| is_entry(parts, p, i) && #[trigger] parts[p][i] == node
}

/// Each of the two nodes reaches the other.
pub open spec fn mutually_reachable(adj: Seq<Seq<usize>>, a: usize, b: usize) -> bool {
    reaches(adj, a, b) && reaches(adj, b, a)
}

/// `parts` lists every node of the graph exactly once, and two nodes stand in
/// the same part exactly when each reaches the other.
pub open spec fn are_strongly_connected_components(
    adj: Seq<Seq<usize>>,
    parts: Seq<Seq<usize>>,
) -> bool {
    &&& forall|p: int, i: int| is_entry(parts, p, i) ==> (#[trigger] parts[p][i]) < adj.len()
    &&& forall|node: usize| node < adj.len() ==> #[trigger] is_listed(parts, node)
    &&& forall|p: int, i: int, q: int, j: int|
        is_entry(parts, p, i) && is_entry(parts, q, j) && #[trigger] parts[p][i]
            == #[trigger] parts[q][j] ==> p == q && i == j
    &&& forall|p: int, i: int, q: int, j: int|
        is_entry(parts, p, i) && is_entry(parts, q, j) ==> (p == q <==> mutually_reachable(
            adj,
            #[trigger] parts[p][i],
            #[trigger] parts[q][j],
        ))
}

/// The strongly connected components of the graph with the successor lists
/// `adj`, in the order in which `petgraph::algo::tarjan_scc` yields them and
/// with the nodes of each in the order in which it lists them. That order is
/// a matter of how petgraph walks the graph, and is the same whenever the
/// same lists are given.
pub uninterp spec fn component_order(adj: Seq<Seq<usize>>) -> Seq<Seq<usize>>;

/// Builds a petgraph `Graph` with one node for each row of `successors` and
/// one edge for each of its entries, and hands it to
/// `petgraph::algo::tarjan_scc`. The contract takes petgraph at its word that
/// what comes back are the strongly connected components of that graph: every
/// node in one of them, once, and two nodes together exactly when each can be
/// reached from the other. Of the order of the components and of the nodes
/// within one it claims only that it depends on nothing but the graph, which
/// petgraph walks node by node and edge by edge with no hashing and no chance
/// in it.
#[verifier::external_body]
pub(crate) fn tarjan_components(successors: &Vec<Vec<usize>>) -> (parts: Vec<Vec<usize>>)
    requires
        well_formed(lists(*successors)),
    ensures
        lists(parts) == component_order(lists(*successors)),
        are_strongly_connected_components(lists(*successors), lists(parts)),
{
    let mut graph = Graph::<(), (), Directed, usize>::with_capacity(successors.len(), 0);
    successors.iter().for_each(|_| {
        graph.add_node(());
    });
    let rows = successors.iter().enumerate();
    graph.extend_with_edges(rows.flat_map(|(a, row)| row.iter().map(move |&b| (a, b))));
    let parts = tarjan_scc(&graph).into_iter();
    parts.map(|part| part.into_iter().map(|node| node.index()).collect()).collect()
}

} // verus!
