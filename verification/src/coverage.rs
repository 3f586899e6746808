//! Why a search of every strongly connected component, from every root,
//! misses no elementary cycle of the graph and finds none twice.

use crate::components::{are_strongly_connected_components, is_entry, is_listed};
use crate::graph::{
    has_edge,
    is_elementary_cycle,
    is_rotation,
    is_walk,
    next_position,
    reaches,
    rotated,
};
use crate::local::{
    continues,
    least_position,
    lemma_cycle_continues,
    lemma_least_position,
    lemma_rotated_local_cycle,
    lemma_to_positions,
    nodes_of,
    to_positions,
};
use crate::record::{covered_all, rooted};
use vstd::prelude::*;

verus! {

/// Some entry of `seen` from position `from` on is `cycle`, read from one of
/// its nodes on.
pub open spec fn reported_since(seen: Seq<Seq<usize>>, from: int, cycle: Seq<usize>) -> bool {
    exists|i: int| from <= i < seen.len() && is_rotation(cycle, #[trigger] seen[i])
}

/// Some entry of one of the first `p` parts is `node`.
pub open spec fn listed_before(parts: Seq<Seq<usize>>, p: int, node: usize) -> bool {
    exists|r: int, k: int| r < p && is_entry(parts, r, k) && #[trigger] parts[r][k] == node
}

/// No entry of `seen` from position `from` on is another one of them read
/// from one of its nodes on.
pub open spec fn no_rotations_since(seen: Seq<Seq<usize>>, from: int) -> bool {
    forall|i: int, j: int|
        from <= i < seen.len() && from <= j < seen.len() && i != j ==> !is_rotation(
            #[trigger] seen[i],
            #[trigger] seen[j],
        )
}

/// All nodes of `entry` lie in one of the first `p` parts.
pub open spec fn in_earlier_part(parts: Seq<Seq<usize>>, p: int, entry: Seq<usize>) -> bool {
    exists|r: int|
        0 <= r < p && r < parts.len() && forall|t: int|
            0 <= t < entry.len() ==> (#[trigger] parts[r]).contains(entry[t])
}

/// Two rooted cycles of one part that are each other read from another node
/// on are the same.
pub proof fn lemma_rooted_rotation(scc: Seq<usize>, a: Seq<usize>, b: Seq<usize>)
    requires
        rooted(scc, a),
        rooted(scc, b),
        a.no_duplicates(),
        is_rotation(a, b),
    ensures
        a == b,
{
    let shift = choose|shift: int| 0 <= shift < a.len() && b == #[trigger] rotated(a, shift);
    let len = a.len() as int;
    if shift > 0 {
        assert(b[0] == a[shift]);
        assert(b[len - shift] == a[0]);
        assert(scc.contains(a[shift]) && scc.contains(a[0]));
        assert(scc.index_of(b[0]) <= scc.index_of(b[len - shift]));
        assert(scc.index_of(a[0]) <= scc.index_of(a[shift]));
        assert(scc[scc.index_of(a[0])] == a[0]);
        assert(scc[scc.index_of(a[shift])] == a[shift]);
        assert(a[0] == a[shift]);
    }
    assert(rotated(a, 0) =~= a);
}

/// Cycles in different parts are not each other read from another node on.
pub proof fn lemma_parts_apart(
    adj: Seq<Seq<usize>>,
    parts: Seq<Seq<usize>>,
    r: int,
    p: int,
    a: Seq<usize>,
    b: Seq<usize>,
)
    requires
        are_strongly_connected_components(adj, parts),
        0 <= r < parts.len(),
        0 <= p < parts.len(),
        r != p,
        a.len() > 0,
        forall|t: int| 0 <= t < a.len() ==> parts[r].contains(#[trigger] a[t]),
        forall|t: int| 0 <= t < b.len() ==> parts[p].contains(#[trigger] b[t]),
    ensures
        !is_rotation(a, b),
        !is_rotation(b, a),
{
    if is_rotation(a, b) || is_rotation(b, a) {
        let (x, y) = if is_rotation(a, b) { (a, b) } else { (b, a) };
        let (rx, ry) = if is_rotation(a, b) { (r, p) } else { (p, r) };
        let shift = choose|shift: int| 0 <= shift < x.len() && y == #[trigger] rotated(x, shift);
        assert(y[0] == x[shift]);
        assert(parts[rx].contains(x[shift]));
        assert(parts[ry].contains(y[0]));
        let i = choose|i: int| 0 <= i < parts[rx].len() && parts[rx][i] == x[shift];
        let j = choose|j: int| 0 <= j < parts[ry].len() && parts[ry][j] == y[0];
        assert(is_entry(parts, rx, i) && is_entry(parts, ry, j));
        assert(parts[rx][i] == parts[ry][j]);
    }
}

/// Each node of an elementary cycle reaches every other.
pub proof fn lemma_cycle_reaches(adj: Seq<Seq<usize>>, cycle: Seq<usize>, j: int)
    requires
        is_elementary_cycle(adj, cycle),
        0 <= j < cycle.len(),
    ensures
        reaches(adj, cycle[0], cycle[j]),
        reaches(adj, cycle[j], cycle[0]),
{
    let len = cycle.len() as int;
    assert forall|i: int| 0 <= i < len implies (#[trigger] cycle[i]) < adj.len() by {
        assert(has_edge(adj, cycle[i], cycle[next_position(len, i)]));
    }
    let out = cycle.take(j + 1);
    assert forall|i: int| 0 <= i < out.len() - 1 implies #[trigger] has_edge(
        adj,
        out[i],
        out[next_position(out.len() as int, i)],
    ) by {
        assert(has_edge(adj, cycle[i], cycle[next_position(len, i)]));
    }
    assert(is_walk(adj, out) && out.first() == cycle[0] && out.last() == cycle[j]);
    let back = cycle.skip(j).push(cycle[0]);
    assert forall|i: int| 0 <= i < back.len() - 1 implies #[trigger] has_edge(
        adj,
        back[i],
        back[next_position(back.len() as int, i)],
    ) by {
        assert(has_edge(adj, cycle[i + j], cycle[next_position(len, i + j)]));
    }
    assert(is_walk(adj, back) && back.first() == cycle[j] && back.last() == cycle[0]);
}

/// Where a search of the part `scc` has reported every cycle that starts at
/// its least vertex, it has reported every elementary cycle of the graph that
/// passes through a node of `scc`.
pub proof fn lemma_part_covered(
    adj: Seq<Seq<usize>>,
    parts: Seq<Seq<usize>>,
    p: int,
    seen: Seq<Seq<usize>>,
    from: int,
    cycle: Seq<usize>,
)
    requires
        0 <= from,
        are_strongly_connected_components(adj, parts),
        0 <= p < parts.len(),
        parts[p].len() <= usize::MAX,
        is_elementary_cycle(adj, cycle),
        parts[p].contains(cycle[0]),
        forall|m: usize|
            m < parts[p].len() ==> #[trigger] covered_all(seen, from, adj, parts[p], m, seq![m]),
    ensures
        reported_since(seen, from, cycle),
{
    let scc = parts[p];
    let len = cycle.len() as int;
    let first = choose|first: int| 0 <= first < scc.len() && scc[first] == cycle[0];
    assert(is_entry(parts, p, first));
    assert forall|j: int| 0 <= j < len implies scc.contains(#[trigger] cycle[j]) by {
        lemma_cycle_reaches(adj, cycle, j);
        assert(has_edge(adj, cycle[j], cycle[next_position(len, j)]));
        assert(is_listed(parts, cycle[j]));
        let (r, k) = choose|r: int, k: int| is_entry(parts, r, k) && #[trigger] parts[r][k] == cycle[j];
        assert(parts[p][first] == cycle[0] && parts[r][k] == cycle[j]);
        assert(r == p);
    }
    assert(scc.no_duplicates()) by {
        assert forall|i: int, j: int| 0 <= i < scc.len() && 0 <= j < scc.len() && i != j implies scc[i]
            != scc[j] by {
            assert(is_entry(parts, p, i) && is_entry(parts, p, j));
            if parts[p][i] == parts[p][j] {
                assert(i == j);
            }
        }
    }
    lemma_to_positions(adj, scc, cycle);
    let local = to_positions(scc, cycle);
    lemma_least_position(local);
    let shift = least_position(local);
    lemma_rotated_local_cycle(adj, scc, local, shift);
    let turned = rotated(local, shift);
    assert(turned[0] == local[shift]);
    assert forall|i: int| 0 <= i < turned.len() implies turned[0] <= #[trigger] turned[i] by {
        let at = if i < len - shift { i + shift } else { i - (len - shift) };
        assert(turned[i] == local[at]);
    }
    lemma_cycle_continues(adj, scc, turned);
    assert(covered_all(seen, from, adj, scc, turned[0], seq![turned[0]]));
    assert(continues(adj, scc, turned[0], seq![turned[0]], turned.skip(1)));
    assert(nodes_of(scc, turned) =~= rotated(cycle, shift));
    let i = choose|i: int| from <= i < seen.len() && #[trigger] seen[i] == nodes_of(scc, turned);
    assert(is_rotation(cycle, seen[i]));
}

} // verus!
