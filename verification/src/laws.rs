//! What follows, for every graph, from what `Cycles` promises.

use crate::components::{are_strongly_connected_components, is_entry};
use crate::cycles::{applied, lists_cycles, visited, Cycles};
use crate::order::{cycles_in_order, lemma_parts_grouped, within};
use crate::graph::{
    has_cycle,
    has_edge,
    is_elementary_cycle,
    is_rotation,
    lists_rotation,
    next_position,
    rotated,
};
use std::ops::ControlFlow;
use vstd::prelude::*;

verus! {

/// A cycle read from one of its nodes on has the same length and the same
/// nodes.
pub proof fn rotation_keeps_nodes<T>(a: Seq<T>, b: Seq<T>)
    requires
        is_rotation(a, b),
    ensures
        a.len() == b.len(),
        forall|i: int| 0 <= i < a.len() ==> b.contains(#[trigger] a[i]),
        forall|i: int| 0 <= i < b.len() ==> a.contains(#[trigger] b[i]),
{
    let shift = choose|shift: int| 0 <= shift < a.len() && b == #[trigger] rotated(a, shift);
    let len = a.len() as int;
    assert forall|i: int| 0 <= i < len implies b.contains(#[trigger] a[i]) by {
        let at = if i >= shift { i - shift } else { i + len - shift };
        assert(b[at] == a[i]);
    }
    assert forall|i: int| 0 <= i < len implies a.contains(#[trigger] b[i]) by {
        let at = if i < len - shift { i + shift } else { i - (len - shift) };
        assert(a[at] == b[i]);
    }
}

/// A graph without edges has no cycle.
pub proof fn graph_without_edges_has_no_cycle(adj: Seq<Seq<usize>>)
    requires
        forall|a: int| 0 <= a < adj.len() ==> (#[trigger] adj[a]).len() == 0,
    ensures
        !has_cycle(adj),
{
    assert forall|cycle: Seq<usize>| !#[trigger] is_elementary_cycle(adj, cycle) by {
        if is_elementary_cycle(adj, cycle) {
            assert(has_edge(adj, cycle[0], cycle[next_position(cycle.len() as int, 0)]));
            assert(adj[cycle[0] as int].len() == 0);
        }
    }
}

/// Of a graph that has no cycle, no cycle is listed.
pub proof fn acyclic_graph_lists_no_cycle<G: Cycles>(
    graph: &G,
    seen: Seq<Seq<G::NodeId>>,
    whole: bool,
)
    requires
        lists_cycles(
            |nodes: Seq<G::NodeId>| graph.is_cycle(nodes),
            graph.has_parallel_edges(),
            seen,
            whole,
        ),
        forall|cycle: Seq<G::NodeId>| !graph.is_cycle(cycle),
    ensures
        seen.len() == 0,
{
    if seen.len() > 0 {
        assert(graph.is_cycle(seen[0]));
    }
}

/// Of a graph that has a cycle, any whole list of its cycles holds that
/// cycle, read from one of its nodes on.
pub proof fn every_cycle_is_listed<G: Cycles>(
    graph: &G,
    seen: Seq<Seq<G::NodeId>>,
    cycle: Seq<G::NodeId>,
)
    requires
        lists_cycles(
            |nodes: Seq<G::NodeId>| graph.is_cycle(nodes),
            graph.has_parallel_edges(),
            seen,
            true,
        ),
        graph.is_cycle(cycle),
    ensures
        seen.len() > 0,
        lists_rotation(seen, cycle),
{
}

/// In a graph without parallel edges, a cycle is listed at one place only.
pub proof fn cycle_is_listed_once<G: Cycles>(
    graph: &G,
    seen: Seq<Seq<G::NodeId>>,
    whole: bool,
    i: int,
    j: int,
)
    requires
        lists_cycles(
            |nodes: Seq<G::NodeId>| graph.is_cycle(nodes),
            graph.has_parallel_edges(),
            seen,
            whole,
        ),
        !graph.has_parallel_edges(),
        0 <= i < seen.len(),
        0 <= j < seen.len(),
        is_rotation(seen[i], seen[j]),
    ensures
        i == j,
{
}

/// A visitor that breaks off whenever it is called is called at most once:
/// on the first cycle if the graph has one, and then its value is given
/// back; never if the graph has none.
pub proof fn visitor_that_breaks_sees_one_cycle<G: Cycles, F, B>(
    graph: &G,
    visitor: F,
    seen: Seq<Seq<G::NodeId>>,
    broke: Option<B>,
) where F: FnMut(&G, &[G::NodeId]) -> ControlFlow<B>
    requires
        visited(graph, visitor, seen, broke),
        lists_cycles(
            |nodes: Seq<G::NodeId>| graph.is_cycle(nodes),
            graph.has_parallel_edges(),
            seen,
            broke.is_none(),
        ),
        forall|nodes: &[G::NodeId], answer: ControlFlow<B>|
            call_ensures(visitor, (graph, nodes), answer) ==> answer is Break,
    ensures
        seen.len() <= 1,
        broke.is_some() <==> seen.len() == 1,
        broke.is_none() ==> forall|cycle: Seq<G::NodeId>| !graph.is_cycle(cycle),
{
    let asked = if broke.is_some() {
        seen.len() - 1
    } else {
        seen.len() as int
    };
    if asked > 0 {
        assert(applied(graph, visitor, seen[0], ControlFlow::<B, ()>::Continue(())));
    }
    if broke.is_none() {
        assert forall|cycle: Seq<G::NodeId>| !graph.is_cycle(cycle) by {
            if graph.is_cycle(cycle) {
                assert(lists_rotation(seen, cycle));
            }
        }
    }
}

/// The cycles of one strongly connected component come next to each other:
/// between two cycles of a part, only cycles of that part are found.
pub proof fn cycles_of_a_part_come_together(
    adj: Seq<Seq<usize>>,
    parts: Seq<Seq<usize>>,
    p: int,
    i: int,
    j: int,
    k: int,
)
    requires
        are_strongly_connected_components(adj, parts),
        0 <= p < parts.len(),
        0 <= i <= j <= k < cycles_in_order(adj, parts).len(),
        within(parts[p], cycles_in_order(adj, parts)[i]),
        within(parts[p], cycles_in_order(adj, parts)[k]),
    ensures
        within(parts[p], cycles_in_order(adj, parts)[j]),
{
    let order = cycles_in_order(adj, parts);
    let total = parts.len() as int;
    let (a, b) = lemma_parts_grouped(adj, parts, total, i, j);
    let (c, d) = lemma_parts_grouped(adj, parts, total, j, k);
    lemma_same_part(adj, parts, a, p, order[i]);
    lemma_same_part(adj, parts, d, p, order[k]);
    lemma_same_part(adj, parts, b, c, order[j]);
}

/// Parts that hold the same cycle are the same.
proof fn lemma_same_part(
    adj: Seq<Seq<usize>>,
    parts: Seq<Seq<usize>>,
    p: int,
    q: int,
    entry: Seq<usize>,
)
    requires
        are_strongly_connected_components(adj, parts),
        0 <= p < parts.len(),
        0 <= q < parts.len(),
        within(parts[p], entry),
        within(parts[q], entry),
    ensures
        p == q,
{
    assert(parts[p].contains(entry[0]) && parts[q].contains(entry[0]));
    let i = choose|i: int| 0 <= i < parts[p].len() && parts[p][i] == entry[0];
    let j = choose|j: int| 0 <= j < parts[q].len() && parts[q][j] == entry[0];
    assert(is_entry(parts, p, i) && is_entry(parts, q, j));
    assert(parts[p][i] == parts[q][j]);
}

/// What a visitor has seen when it breaks off, or when the search ends, is
/// what `cycles` lists first, entry by entry, and all of it where the
/// visitor never broke off. So two searches of one graph see the same cycles
/// in the same order as far as both get.
pub proof fn visits_follow_the_enumeration<G: Cycles>(
    graph: &G,
    seen: Seq<Seq<G::NodeId>>,
    listed: Seq<Seq<G::NodeId>>,
)
    requires
        seen.is_prefix_of(graph.enumeration()),
        listed.is_prefix_of(graph.enumeration()),
        seen.len() <= listed.len(),
    ensures
        forall|i: int| 0 <= i < seen.len() ==> seen[i] == listed[i],
        seen.len() == listed.len() ==> seen == listed,
{
    let all = graph.enumeration();
    assert forall|i: int| 0 <= i < seen.len() implies seen[i] == listed[i] by {
        assert(seen[i] == all.subrange(0, seen.len() as int)[i]);
        assert(listed[i] == all.subrange(0, listed.len() as int)[i]);
    }
    if seen.len() == listed.len() {
        assert(seen =~= listed);
    }
}

/// Reading a cycle from another node on can be undone.
pub proof fn rotation_is_symmetric<T>(a: Seq<T>, b: Seq<T>)
    requires
        is_rotation(a, b),
    ensures
        is_rotation(b, a),
{
    let shift = choose|shift: int| 0 <= shift < a.len() && b == #[trigger] rotated(a, shift);
    let len = a.len() as int;
    let back = if shift == 0 {
        0
    } else {
        len - shift
    };
    assert(rotated(b, back) =~= a);
}

/// Reading a cycle from another node on, twice, is reading it from another
/// node on.
pub proof fn rotation_is_transitive<T>(a: Seq<T>, b: Seq<T>, c: Seq<T>)
    requires
        is_rotation(a, b),
        is_rotation(b, c),
    ensures
        is_rotation(a, c),
{
    let first = choose|shift: int| 0 <= shift < a.len() && b == #[trigger] rotated(a, shift);
    let second = choose|shift: int| 0 <= shift < b.len() && c == #[trigger] rotated(b, shift);
    let len = a.len() as int;
    let both = if first + second < len {
        first + second
    } else {
        first + second - len
    };
    assert(rotated(a, both) =~= c);
}

/// A list of distinct numbers below a bound is no longer than the bound.
proof fn lemma_distinct_numbers(values: Seq<int>, bound: int)
    requires
        values.no_duplicates(),
        forall|i: int| 0 <= i < values.len() ==> 0 <= #[trigger] values[i] < bound,
    ensures
        values.len() <= bound || values.len() == 0,
    decreases bound,
{
    if values.len() > 0 {
        if bound <= 0 {
            assert(0 <= values[0] < bound);
        } else if values.contains(bound - 1) {
            let at = values.index_of(bound - 1);
            let rest = values.remove(at);
            assert forall|i: int| 0 <= i < rest.len() implies 0 <= #[trigger] rest[i] < bound - 1 by {
                if i < at {
                    assert(rest[i] == values[i]);
                } else {
                    assert(rest[i] == values[i + 1]);
                }
            }
            assert forall|i: int, j: int|
                0 <= i < rest.len() && 0 <= j < rest.len() && i != j implies rest[i] != rest[j] by {
                let a = if i < at { i } else { i + 1 };
                let b = if j < at { j } else { j + 1 };
                assert(rest[i] == values[a] && rest[j] == values[b]);
            }
            lemma_distinct_numbers(rest, bound - 1);
        } else {
            assert forall|i: int| 0 <= i < values.len() implies 0 <= #[trigger] values[i] < bound
                - 1 by {
                assert(values.contains(values[i]));
            }
            lemma_distinct_numbers(values, bound - 1);
        }
    }
}

/// A list that holds cycles only and none twice is no longer than a list
/// that holds every cycle.
proof fn lemma_no_longer<T>(is_cycle: spec_fn(Seq<T>) -> bool, seen: Seq<Seq<T>>, all: Seq<Seq<T>>)
    requires
        lists_cycles(is_cycle, false, seen, false),
        lists_cycles(is_cycle, true, all, true),
    ensures
        seen.len() <= all.len(),
{
    let place = |i: int| choose|j: int| 0 <= j < all.len() && is_rotation(seen[i], #[trigger] all[j]);
    let places = Seq::new(seen.len(), place);
    assert forall|i: int| 0 <= i < seen.len() implies 0 <= #[trigger] places[i] < all.len()
        && is_rotation(seen[i], all[places[i]]) by {
        assert(is_cycle(seen[i]));
        assert(lists_rotation(all, seen[i]));
    }
    assert forall|i: int, j: int|
        0 <= i < places.len() && 0 <= j < places.len() && i != j implies places[i] != places[j] by {
        if places[i] == places[j] {
            rotation_is_symmetric(seen[j], all[places[j]]);
            rotation_is_transitive(seen[i], all[places[i]], seen[j]);
        }
    }
    lemma_distinct_numbers(places, all.len() as int);
}

/// Two lists that each hold every cycle of a graph, and none twice, are of
/// the same length. So in a graph without parallel edges as many cycles are
/// found as any other way of listing each cycle once gives.
pub proof fn all_lists_are_equally_long<T>(
    is_cycle: spec_fn(Seq<T>) -> bool,
    seen: Seq<Seq<T>>,
    other: Seq<Seq<T>>,
)
    requires
        lists_cycles(is_cycle, false, seen, true),
        lists_cycles(is_cycle, false, other, true),
    ensures
        seen.len() == other.len(),
{
    lemma_no_longer(is_cycle, seen, other);
    lemma_no_longer(is_cycle, other, seen);
}

} // verus!
