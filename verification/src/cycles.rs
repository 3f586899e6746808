//! Finding all elementary cycles of a graph.

use crate::components::{are_strongly_connected_components, component_order, is_entry, is_listed};
use crate::order::{
    component_cycles,
    cycles_in_order,
    emitted,
    lemma_emitted_chain,
    lemma_emitted_within,
    lemma_parts_prefix,
    parts_upto,
    went_on,
};
use crate::coverage::{
    in_earlier_part,
    lemma_part_covered,
    lemma_parts_apart,
    lemma_rooted_rotation,
    listed_before,
    no_rotations_since,
    reported_since,
};
use crate::finder::CycleFinder;
use crate::graph::{
    is_elementary_cycle,
    is_rotation,
    lists,
    lists_rotation,
    no_parallel_edges,
    no_rotations,
    DiGraph,
};
use crate::record::{logged, rooted};
use crate::visitor::{
    lemma_reports_chain,
    reports,
    takes_cycles,
    Asking,
    Collecting,
    CycleVisitor,
    Telling,
};
use std::ops::ControlFlow;
use vstd::prelude::*;

verus! {

/// `seen` holds cycles only. Unless the graph has parallel edges, none of
/// them comes twice, from whichever node it is read. Where `whole` is set,
/// every cycle is among them, read from one of its nodes on.
pub open spec fn lists_cycles<T>(
    is_cycle: spec_fn(Seq<T>) -> bool,
    parallel_edges: bool,
    seen: Seq<Seq<T>>,
    whole: bool,
) -> bool {
    &&& forall|i: int| 0 <= i < seen.len() ==> is_cycle(#[trigger] seen[i])
    &&& !parallel_edges ==> no_rotations(seen)
    &&& whole ==> forall|cycle: Seq<T>| is_cycle(cycle) ==> #[trigger] lists_rotation(seen, cycle)
}

/// `visitor`, applied to the graph and a slice that holds `nodes`, may return
/// `answer`.
pub open spec fn applied<G: ?Sized, T, F, R>(graph: &G, visitor: F, nodes: Seq<T>, answer: R) -> bool where
    F: FnMut(&G, &[T]) -> R,
 {
    exists|slice: &[T]| slice@ == nodes && call_ensures(visitor, (graph, slice), answer)
}

/// `seen` lists what `visitor` was applied to, in turn. Each time it
/// returned `Continue`; but where `broke` holds a value, it was on the last
/// entry that it returned `Break` with that value instead.
pub open spec fn visited<G: ?Sized, T, F, B>(
    graph: &G,
    visitor: F,
    seen: Seq<Seq<T>>,
    broke: Option<B>,
) -> bool where F: FnMut(&G, &[T]) -> ControlFlow<B> {
    let asked = if broke.is_some() {
        seen.len() - 1
    } else {
        seen.len() as int
    };
    &&& forall|i: int|
        0 <= i < asked ==> applied(
            graph,
            visitor,
            #[trigger] seen[i],
            ControlFlow::<B, ()>::Continue(()),
        )
    &&& broke matches Some(value) ==> seen.len() > 0 && applied(
        graph,
        visitor,
        seen.last(),
        ControlFlow::<B, ()>::Break(value),
    )
}

/// `seen` lists what `visitor` was applied to, in turn.
pub open spec fn told<G: ?Sized, T, F>(graph: &G, visitor: F, seen: Seq<Seq<T>>) -> bool where
    F: FnMut(&G, &[T]),
 {
    forall|i: int| 0 <= i < seen.len() ==> applied(graph, visitor, #[trigger] seen[i], ())
}

/// Identifying the cycles of a graph.
pub trait Cycles {
    /// The node identifier of the underlying graph.
    type NodeId;

    /// `nodes` is an elementary cycle of the graph: its nodes are pairwise
    /// distinct, each has an edge to the next, and the last has an edge back
    /// to the first.
    spec fn is_cycle(&self, nodes: Seq<Self::NodeId>) -> bool;

    /// Some edge occurs more than once in the graph.
    spec fn has_parallel_edges(&self) -> bool;

    /// The cycles of the graph in the order in which they are found, each
    /// read from the node from which it is found.
    spec fn enumeration(&self) -> Seq<Seq<Self::NodeId>>;

    /// Applies `visitor` to each cycle until it says to stop.
    ///
    /// The visitor is handed the graph and a slice with the nodes that form
    /// the cycle. As soon as it returns `ControlFlow::Break(value)` no
    /// further cycle is visited and `Some(value)` is returned. Otherwise the
    /// return value is `None`.
    fn visit_cycles<F, B>(&self, visitor: F) -> (broke: Option<B>) where
        F: FnMut(&Self, &[Self::NodeId]) -> ControlFlow<B>,

        requires
            forall|nodes: &[Self::NodeId]|
                self.is_cycle(nodes@) ==> call_requires(visitor, (self, nodes)),
        ensures
            exists|seen: Seq<Seq<Self::NodeId>>|
                visited(self, visitor, seen, broke) && seen.is_prefix_of(self.enumeration()) && (
                broke.is_none() ==> seen == self.enumeration()) && lists_cycles(
                    |nodes: Seq<Self::NodeId>| self.is_cycle(nodes),
                    self.has_parallel_edges(),
                    seen,
                    broke.is_none(),
                ),
    ;

    /// Applies `visitor` to each cycle.
    ///
    /// The visitor is handed the graph and a slice with the nodes that form
    /// the cycle.
    fn visit_all_cycles<F>(&self, visitor: F) where F: FnMut(&Self, &[Self::NodeId])
        requires
            forall|nodes: &[Self::NodeId]|
                self.is_cycle(nodes@) ==> call_requires(visitor, (self, nodes)),
        ensures
            exists|seen: Seq<Seq<Self::NodeId>>|
                told(self, visitor, seen) && seen == self.enumeration() && lists_cycles(
                    |nodes: Seq<Self::NodeId>| self.is_cycle(nodes),
                    self.has_parallel_edges(),
                    seen,
                    true,
                ),
    ;

    /// Finds all cycles.
    ///
    /// Each element of the returned `Vec` holds the nodes of one cycle.
    fn cycles(&self) -> (all: Vec<Vec<Self::NodeId>>)
        ensures
            lists(all) == self.enumeration(),
            lists_cycles(
                |nodes: Seq<Self::NodeId>| self.is_cycle(nodes),
                self.has_parallel_edges(),
                lists(all),
                true,
            ),
    ;
}

/// What was reported stays reported when more is.
proof fn lemma_reported_stays<B, V: CycleVisitor<B>>(
    before: V,
    after: V,
    graph: &DiGraph,
    broke: Option<B>,
    from: int,
    cycle: Seq<usize>,
)
    requires
        0 <= from,
        reports(before, after, graph, broke),
        reported_since(before.seen(), from, cycle),
    ensures
        reported_since(after.seen(), from, cycle),
{
    let i = choose|i: int|
        from <= i < before.seen().len() && is_rotation(cycle, #[trigger] before.seen()[i]);
    assert(after.seen().take(before.seen().len() as int)[i] == before.seen()[i]);
    assert(is_rotation(cycle, after.seen()[i]));
}

/// What the search has established of a log that starts empty, in the words
/// of the trait.
proof fn lemma_lists_cycles(graph: &DiGraph, seen: Seq<Seq<usize>>, whole: bool)
    requires
        forall|i: int| 0 <= i < seen.len() ==> is_elementary_cycle(graph@, #[trigger] seen[i]),
        no_parallel_edges(graph@) ==> no_rotations_since(seen, 0),
        whole ==> forall|cycle: Seq<usize>| #[trigger]
            is_elementary_cycle(graph@, cycle) ==> reported_since(seen, 0, cycle),
    ensures
        lists_cycles(
            |nodes: Seq<usize>| graph.is_cycle(nodes),
            graph.has_parallel_edges(),
            seen,
            whole,
        ),
{
    if whole {
        assert forall|cycle: Seq<usize>| graph.is_cycle(cycle) implies #[trigger] lists_rotation(
            seen,
            cycle,
        ) by {
            assert(reported_since(seen, 0, cycle));
            let i = choose|i: int| 0 <= i < seen.len() && is_rotation(cycle, #[trigger] seen[i]);
            assert(is_rotation(cycle, seen[i]));
        }
    }
}

/// What the search of part `p` logged joins what the searches of the parts
/// before it logged, and no cycle has come twice.
#[verifier::spinoff_prover]
proof fn lemma_log_part(
    adj: Seq<Seq<usize>>,
    parts: Seq<Seq<usize>>,
    p: int,
    seen: Seq<Seq<usize>>,
    after: Seq<Seq<usize>>,
    from: int,
    simple: bool,
)
    requires
        are_strongly_connected_components(adj, parts),
        0 <= p < parts.len(),
        0 <= from <= seen.len() <= after.len(),
        after.take(seen.len() as int) =~= seen,
        simple ==> no_rotations_since(seen, from),
        forall|i: int|
            from <= i < seen.len() ==> in_earlier_part(parts, p, #[trigger] seen[i]) && seen[i].len()
                > 0,
        logged(after, seen.len() as int, parts[p], Seq::empty(), simple),
        forall|i: int| seen.len() <= i < after.len() ==> is_elementary_cycle(adj, #[trigger] after[i]),
    ensures
        simple ==> no_rotations_since(after, from),
        forall|i: int|
            from <= i < after.len() ==> in_earlier_part(parts, p + 1, #[trigger] after[i])
                && after[i].len() > 0,
{
    assert forall|i: int| from <= i < seen.len() implies after[i] == #[trigger] seen[i] by {
        assert(after.take(seen.len() as int)[i] == seen[i]);
    }
    assert forall|i: int| from <= i < after.len() implies in_earlier_part(
        parts,
        p + 1,
        #[trigger] after[i],
    ) && after[i].len() > 0 by {
        if i < seen.len() {
            assert(after[i] == seen[i]);
            let r = choose|r: int|
                0 <= r < p && r < parts.len() && forall|t: int|
                    0 <= t < seen[i].len() ==> (#[trigger] parts[r]).contains(seen[i][t]);
            assert(forall|t: int| 0 <= t < after[i].len() ==> (#[trigger] parts[r]).contains(after[i][t]));
        } else {
            assert(rooted(parts[p], after[i]));
            assert(forall|t: int| 0 <= t < after[i].len() ==> (#[trigger] parts[p]).contains(after[i][t]));
        }
    }
    if simple {
        assert forall|i: int, j: int|
            from <= i < after.len() && from <= j < after.len() && i != j implies !is_rotation(
            #[trigger] after[i],
            #[trigger] after[j],
        ) by {
            if i < seen.len() && j < seen.len() {
                assert(after[i] == seen[i] && after[j] == seen[j]);
            } else if i >= seen.len() && j >= seen.len() {
                assert(rooted(parts[p], after[i]) && rooted(parts[p], after[j]));
                if is_rotation(after[i], after[j]) {
                    lemma_rooted_rotation(parts[p], after[i], after[j]);
                    if i < j {
                        assert(after[i] != after[j]);
                    } else {
                        assert(after[j] != after[i]);
                    }
                }
            } else {
                let (old, new) = if i < seen.len() { (i, j) } else { (j, i) };
                assert(after[old] == seen[old]);
                let r = choose|r: int|
                    0 <= r < p && r < parts.len() && forall|t: int|
                        0 <= t < seen[old].len() ==> (#[trigger] parts[r]).contains(seen[old][t]);
                assert(rooted(parts[p], after[new]));
                assert(forall|t: int| 0 <= t < after[old].len() ==> parts[r].contains(#[trigger] after[old][t]));
                assert(forall|t: int| 0 <= t < after[new].len() ==> parts[p].contains(#[trigger] after[new][t]));
                lemma_parts_apart(adj, parts, r, p, after[old], after[new]);
            }
        }
    }
}

/// Searches the strongly connected components of `graph` one after the
/// other, until the visitor breaks off.
#[verifier::spinoff_prover]
fn visit_components<B, V: CycleVisitor<B>>(graph: &DiGraph, visitor: &mut V) -> (broke: Option<B>)
    requires
        takes_cycles::<B, V>(old(visitor).rule(), graph),
    ensures
        reports(*old(visitor), *final(visitor), graph, broke),
        emitted(
            old(visitor).seen(),
            final(visitor).seen(),
            cycles_in_order(graph@, component_order(graph@)),
            broke.is_none(),
        ),
        no_parallel_edges(graph@) ==> no_rotations_since(
            final(visitor).seen(),
            old(visitor).seen().len() as int,
        ),
        broke.is_none() ==> forall|cycle: Seq<usize>| #[trigger]
            is_elementary_cycle(graph@, cycle) ==> reported_since(
                final(visitor).seen(),
                old(visitor).seen().len() as int,
                cycle,
            ),
{
    proof {
        assert(visitor.seen().take(visitor.seen().len() as int) =~= visitor.seen());
        assert(visitor.seen() =~= visitor.seen() + Seq::<Seq<usize>>::empty().take(0));
    }
    let mut parts = graph.strongly_connected_components();
    let ghost all_parts = lists(parts);
    let ghost from = visitor.seen().len() as int;
    let mut p: usize = 0;
    while p < parts.len()
        invariant
            p <= parts.len(),
            parts.len() == all_parts.len(),
            from == old(visitor).seen().len(),
            forall|q: int| p <= q < parts.len() ==> (#[trigger] parts@[q])@ == all_parts[q],
            crate::components::are_strongly_connected_components(graph@, all_parts),
            crate::graph::well_formed(graph@),
            takes_cycles::<B, V>(visitor.rule(), graph),
            reports(*old(visitor), *visitor, graph, None::<B>),
            all_parts == component_order(graph@),
            emitted(
                old(visitor).seen(),
                visitor.seen(),
                parts_upto(graph@, all_parts, p as int),
                true,
            ),
            no_parallel_edges(graph@) ==> no_rotations_since(visitor.seen(), from),
            forall|i: int|
                from <= i < visitor.seen().len() ==> in_earlier_part(
                    all_parts,
                    p as int,
                    #[trigger] visitor.seen()[i],
                ) && visitor.seen()[i].len() > 0,
            forall|cycle: Seq<usize>| #[trigger]
                is_elementary_cycle(graph@, cycle) && listed_before(all_parts, p as int, cycle[0])
                    ==> reported_since(visitor.seen(), from, cycle),
        decreases parts.len() - p,
    {
        let mut component: Vec<usize> = Vec::new();
        std::mem::swap(&mut parts[p], &mut component);
        let ghost size = component.len();
        proof {
            assert(component@ == all_parts[p as int]);
            assert(all_parts[p as int].len() == size);
            assert forall|i: int, j: int|
                0 <= i < component.len() && 0 <= j < component.len() && i != j implies component@[i]
                != component@[j] by {
                assert(is_entry(all_parts, p as int, i) && is_entry(all_parts, p as int, j));
                assert(all_parts[p as int][i] == component@[i]);
                assert(all_parts[p as int][j] == component@[j]);
            }
            assert forall|i: int| 0 <= i < component.len() implies (#[trigger] component@[i])
                < graph@.len() by {
                assert(is_entry(all_parts, p as int, i));
                assert(all_parts[p as int][i] == component@[i]);
            }
        }
        let mut finder = CycleFinder::new(graph, component);
        let ghost before = *visitor;
        let flow = finder.visit(visitor);
        proof {
            lemma_emitted_chain(
                old(visitor).seen(),
                before.seen(),
                visitor.seen(),
                parts_upto(graph@, all_parts, p as int),
                component_cycles(graph@, all_parts[p as int]),
                went_on(flow),
            );
            assert(parts_upto(graph@, all_parts, p + 1) == parts_upto(graph@, all_parts, p as int)
                + component_cycles(graph@, all_parts[p as int]));
            lemma_parts_prefix(graph@, all_parts, p + 1, all_parts.len() as int);
            lemma_emitted_within(
                old(visitor).seen(),
                visitor.seen(),
                parts_upto(graph@, all_parts, p + 1),
                cycles_in_order(graph@, all_parts),
                went_on(flow),
            );
            lemma_log_part(
                graph@,
                all_parts,
                p as int,
                before.seen(),
                visitor.seen(),
                from,
                no_parallel_edges(graph@),
            );
        }
        match flow {
            ControlFlow::Break(value) => {
                proof {
                    lemma_reports_chain(*old(visitor), before, *visitor, graph, Some(value));
                }
                return Some(value);
            },
            ControlFlow::Continue(_) => {
                proof {
                    lemma_reports_chain(*old(visitor), before, *visitor, graph, None::<B>);
                    let scc = all_parts[p as int];
                    let since = before.seen().len() as int;
                    assert(scc.len() == size);
                    assert forall|cycle: Seq<usize>| #[trigger]
                        is_elementary_cycle(graph@, cycle) && listed_before(
                            all_parts,
                            p + 1,
                            cycle[0],
                        ) implies reported_since(visitor.seen(), from, cycle) by {
                        if listed_before(all_parts, p as int, cycle[0]) {
                            lemma_reported_stays(
                                before,
                                *visitor,
                                graph,
                                None::<B>,
                                from,
                                cycle,
                            );
                        } else {
                            let (r, k) = choose|r: int, k: int|
                                r < p + 1 && is_entry(all_parts, r, k)
                                    && #[trigger] all_parts[r][k] == cycle[0];
                            assert(r == p);
                            assert(scc[k] == cycle[0]);
                            lemma_part_covered(
                                graph@,
                                all_parts,
                                p as int,
                                visitor.seen(),
                                since,
                                cycle,
                            );
                            let i = choose|i: int|
                                since <= i < visitor.seen().len() && is_rotation(
                                    cycle,
                                    #[trigger] visitor.seen()[i],
                                );
                            assert(is_rotation(cycle, visitor.seen()[i]));
                        }
                    }
                }
            },
        }
        p += 1;
    }
    proof {
        assert forall|cycle: Seq<usize>| #[trigger]
            is_elementary_cycle(graph@, cycle) implies reported_since(visitor.seen(), from, cycle) by {
            assert(crate::graph::has_edge(
                graph@,
                cycle[0],
                cycle[crate::graph::next_position(cycle.len() as int, 0)],
            ));
            assert(is_listed(all_parts, cycle[0]));
            let (r, k) = choose|r: int, k: int|
                is_entry(all_parts, r, k) && #[trigger] all_parts[r][k] == cycle[0];
            assert(listed_before(all_parts, p as int, cycle[0]));
        }
    }
    None
}

/// The cycles of a `DiGraph`. A node with an edge to itself is a cycle of one
/// node. Where the same edge was added more than once, a cycle through it is
/// found once for each way of taking one of the equal edges: `enumeration`
/// goes through the successor lists entry by entry, and an entry that occurs
/// twice is gone through twice.
impl Cycles for DiGraph {
    type NodeId = usize;

    open spec fn is_cycle(&self, nodes: Seq<usize>) -> bool {
        is_elementary_cycle(self@, nodes)
    }

    open spec fn has_parallel_edges(&self) -> bool {
        !no_parallel_edges(self@)
    }

    open spec fn enumeration(&self) -> Seq<Seq<usize>> {
        cycles_in_order(self@, component_order(self@))
    }

    fn visit_cycles<F, B>(&self, visitor: F) -> (broke: Option<B>) where
        F: FnMut(&Self, &[usize]) -> ControlFlow<B>,
     {
        let mut asking = Asking { visitor, seen: Ghost(Seq::empty()) };
        let broke = visit_components(self, &mut asking);
        proof {
            lemma_lists_cycles(self, asking.seen@, broke.is_none());
            assert(visited(self, visitor, asking.seen@, broke));
            assert(asking.seen@ =~= self.enumeration().take(asking.seen@.len() as int));
            assert(asking.seen@.is_prefix_of(self.enumeration()));
            if broke.is_none() {
                assert(asking.seen@ =~= self.enumeration());
            }
        }
        broke
    }

    fn visit_all_cycles<F>(&self, visitor: F) where F: FnMut(&Self, &[usize]) {
        let mut telling = Telling { visitor, seen: Ghost(Seq::empty()) };
        let broke = visit_components(self, &mut telling);
        proof {
            assert(broke.is_none());
            lemma_lists_cycles(self, telling.seen@, true);
            assert(told(self, visitor, telling.seen@));
            assert(telling.seen@ =~= self.enumeration());
        }
    }

    fn cycles(&self) -> (all: Vec<Vec<usize>>) {
        let mut collecting = Collecting { cycles: Vec::new() };
        let broke = visit_components(self, &mut collecting);
        proof {
            assert(broke.is_none());
            lemma_lists_cycles(self, lists(collecting.cycles), true);
            assert(lists(collecting.cycles) =~= self.enumeration());
        }
        collecting.cycles
    }
}

} // verus!
