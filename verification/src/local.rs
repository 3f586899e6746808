//! A strongly connected component seen from inside: its vertices are the
//! positions in the list of its nodes, and its edges those of the graph that
//! stay within it.

use crate::graph::{has_edge, is_elementary_cycle, next_position, rotated};
use vstd::prelude::*;

verus! {

/// The positions in `scc` of those of `nodes` that occur in it, in the order
/// of `nodes`.
pub open spec fn to_local(scc: Seq<usize>, nodes: Seq<usize>) -> Seq<usize>
    decreases nodes.len(),
{
    if nodes.len() == 0 {
        Seq::empty()
    } else {
        let rest = to_local(scc, nodes.drop_last());
        match scc.index_of_first(nodes.last()) {
            Some(w) => rest.push(w as usize),
            None => rest,
        }
    }
}

/// The successors of the vertex at position `v` of `scc` that lie in `scc`,
/// as positions in `scc`.
pub open spec fn local_successors(adj: Seq<Seq<usize>>, scc: Seq<usize>, v: int) -> Seq<usize> {
    to_local(scc, adj[scc[v] as int])
}

/// Each position that `to_local` gives is one of `scc`, and the node there is
/// one of `nodes`.
pub proof fn lemma_to_local_sound(scc: Seq<usize>, nodes: Seq<usize>)
    requires
        scc.len() <= usize::MAX,
    ensures
        forall|k: int|
            0 <= k < to_local(scc, nodes).len() ==> {
                let w = #[trigger] to_local(scc, nodes)[k];
                w < scc.len() && nodes.contains(scc[w as int])
            },
    decreases nodes.len(),
{
    if nodes.len() > 0 {
        let front = nodes.drop_last();
        lemma_to_local_sound(scc, front);
        scc.index_of_first_ensures(nodes.last());
        let rest = to_local(scc, front);
        assert forall|k: int| 0 <= k < to_local(scc, nodes).len() implies {
            let w = #[trigger] to_local(scc, nodes)[k];
            w < scc.len() && nodes.contains(scc[w as int])
        } by {
            let w = to_local(scc, nodes)[k];
            if k < rest.len() {
                assert(w == rest[k]);
                let at = choose|at: int| 0 <= at < front.len() && front[at] == scc[w as int];
                assert(nodes[at] == scc[w as int]);
            } else {
                assert(nodes[nodes.len() - 1] == scc[w as int]);
            }
        }
    }
}

/// Each position of `scc` whose node is one of `nodes` is given by `to_local`.
pub proof fn lemma_to_local_complete(scc: Seq<usize>, nodes: Seq<usize>, w: int)
    requires
        scc.len() <= usize::MAX,
        scc.no_duplicates(),
        0 <= w < scc.len(),
        nodes.contains(scc[w]),
    ensures
        to_local(scc, nodes).contains(w as usize),
    decreases nodes.len(),
{
    let front = nodes.drop_last();
    let rest = to_local(scc, front);
    scc.index_of_first_ensures(nodes.last());
    if nodes.last() == scc[w] {
        let last = to_local(scc, nodes).len() - 1;
        assert(to_local(scc, nodes)[last] == w as usize);
    } else {
        let at = choose|at: int| 0 <= at < nodes.len() && nodes[at] == scc[w];
        assert(front[at] == scc[w]);
        lemma_to_local_complete(scc, front, w);
        let k = choose|k: int| 0 <= k < rest.len() && rest[k] == w as usize;
        assert(to_local(scc, nodes)[k] == w as usize);
    }
}

/// Distinct nodes have distinct positions.
pub proof fn lemma_to_local_distinct(scc: Seq<usize>, nodes: Seq<usize>)
    requires
        scc.len() <= usize::MAX,
        nodes.no_duplicates(),
    ensures
        to_local(scc, nodes).no_duplicates(),
    decreases nodes.len(),
{
    if nodes.len() > 0 {
        let front = nodes.drop_last();
        let rest = to_local(scc, front);
        lemma_to_local_distinct(scc, front);
        lemma_to_local_sound(scc, front);
        scc.index_of_first_ensures(nodes.last());
        let all = to_local(scc, nodes);
        assert forall|i: int, j: int| 0 <= i < all.len() && 0 <= j < all.len() && i != j implies all[i]
            != all[j] by {
            if i < rest.len() && j < rest.len() {
                assert(rest[i] != rest[j]);
            } else {
                let k = if i < rest.len() { i } else { j };
                let w = rest[k];
                assert(front.contains(scc[w as int]));
                if all[i] == all[j] {
                    let at = choose|at: int| 0 <= at < front.len() && front[at] == scc[w as int];
                    assert(nodes[at] == nodes[nodes.len() - 1]);
                }
            }
        }
    }
}

/// The first position of `node` in `scc`, if it occurs there.
pub fn position(scc: &Vec<usize>, node: usize) -> (found: Option<usize>)
    ensures
        match found {
            Some(at) => scc@.index_of_first(node) == Some(at as int),
            None => scc@.index_of_first(node).is_none(),
        },
{
    let mut at: usize = 0;
    while at < scc.len()
        invariant
            at <= scc.len(),
            forall|j: int| 0 <= j < at ==> scc@[j] != node,
        decreases scc.len() - at,
    {
        if scc[at] == node {
            proof {
                scc@.index_of_first_ensures(node);
                assert(scc@.contains(node));
            }
            return Some(at);
        }
        at += 1;
    }
    proof {
        scc@.index_of_first_ensures(node);
    }
    None
}

/// The nodes at the positions `local` of `scc`.
pub open spec fn nodes_of(scc: Seq<usize>, local: Seq<usize>) -> Seq<usize> {
    local.map_values(|x: usize| scc[x as int])
}

/// `q` leads from its first vertex back to the root `s`, along edges of the
/// component, through distinct vertices that come after `s` and are not on
/// `path`.
pub open spec fn avoiding(
    adj: Seq<Seq<usize>>,
    scc: Seq<usize>,
    s: usize,
    path: Seq<usize>,
    q: Seq<usize>,
) -> bool {
    &&& q.len() > 0
    &&& forall|i: int| 0 <= i < q.len() ==> s < (#[trigger] q[i]) < scc.len() && !path.contains(q[i])
    &&& q.no_duplicates()
    &&& forall|i: int|
        0 < i < q.len() ==> local_successors(adj, scc, q[i - 1] as int).contains(#[trigger] q[i])
    &&& local_successors(adj, scc, q.last() as int).contains(s)
}

/// `path`, which starts at the root `s`, followed by `q` is a cycle through
/// `s` whose other vertices beyond `path` come after `s`.
pub open spec fn continues(
    adj: Seq<Seq<usize>>,
    scc: Seq<usize>,
    s: usize,
    path: Seq<usize>,
    q: Seq<usize>,
) -> bool {
    if q.len() == 0 {
        local_successors(adj, scc, path.last() as int).contains(s)
    } else {
        avoiding(adj, scc, s, path, q) && local_successors(adj, scc, path.last() as int).contains(
            q[0],
        )
    }
}

/// The vertex that follows the path where `q` continues it: the first of
/// `q`, or the root where `q` is empty.
pub open spec fn first_step(s: usize, q: Seq<usize>) -> usize {
    if q.len() == 0 {
        s
    } else {
        q[0]
    }
}

/// No cycle of the component has `x` as its least vertex.
pub open spec fn barren(adj: Seq<Seq<usize>>, scc: Seq<usize>, x: usize) -> bool {
    forall|q: Seq<usize>| !#[trigger] continues(adj, scc, x, seq![x], q)
}

/// A tail of an avoiding sequence avoids too, also the vertices before it.
pub proof fn lemma_avoiding_tail(
    adj: Seq<Seq<usize>>,
    scc: Seq<usize>,
    s: usize,
    path: Seq<usize>,
    q: Seq<usize>,
    from: int,
)
    requires
        avoiding(adj, scc, s, path, q),
        0 <= from < q.len(),
    ensures
        avoiding(adj, scc, s, path, q.skip(from)),
        forall|i: int| 0 <= i < from ==> !q.skip(from).contains(#[trigger] q[i]),
{
    let tail = q.skip(from);
    assert forall|i: int| 0 <= i < tail.len() implies s < (#[trigger] tail[i]) < scc.len()
        && !path.contains(tail[i]) by {
        assert(tail[i] == q[i + from]);
    }
    assert forall|i: int| 0 < i < tail.len() implies local_successors(
        adj,
        scc,
        tail[i - 1] as int,
    ).contains(#[trigger] tail[i]) by {
        assert(tail[i] == q[i + from]);
        assert(tail[i - 1] == q[i + from - 1]);
    }
    assert(tail.last() == q.last());
    assert forall|i: int| 0 <= i < from implies !tail.contains(#[trigger] q[i]) by {
        if tail.contains(q[i]) {
            let k = choose|k: int| 0 <= k < tail.len() && tail[k] == q[i];
            assert(q[k + from] == q[i]);
        }
    }
}

/// Where `q` continues `path` through `w`, the rest of `q` continues `path`
/// with `w` added.
pub proof fn lemma_continues_step(
    adj: Seq<Seq<usize>>,
    scc: Seq<usize>,
    s: usize,
    path: Seq<usize>,
    q: Seq<usize>,
)
    requires
        q.len() > 0,
        continues(adj, scc, s, path, q),
    ensures
        continues(adj, scc, s, path.push(q[0]), q.skip(1)),
        path.push(q[0]) + q.skip(1) == path + q,
{
    let longer = path.push(q[0]);
    let rest = q.skip(1);
    assert(longer + rest =~= path + q);
    assert(longer.last() == q[0]);
    if q.len() == 1 {
        assert(q.last() == q[0]);
    } else {
        lemma_avoiding_tail(adj, scc, s, path, q, 1);
        assert(rest[0] == q[1]);
        assert forall|i: int| 0 <= i < rest.len() implies !longer.contains(#[trigger] rest[i]) by {
            assert(rest.contains(rest[i]));
            if longer.contains(rest[i]) {
                let at = choose|at: int| 0 <= at < longer.len() && longer[at] == rest[i];
                if at < path.len() {
                    assert(path[at] == rest[i]);
                }
            }
        }
    }
}

/// A sequence of distinct values below `bound` is no longer than `bound`.
pub proof fn lemma_distinct_below(values: Seq<usize>, bound: nat)
    requires
        values.no_duplicates(),
        forall|i: int| 0 <= i < values.len() ==> values[i] < bound,
    ensures
        values.len() <= bound,
    decreases bound,
{
    if values.len() > 0 {
        if bound == 0 {
            assert(values[0] < bound);
        } else {
            let top = (bound - 1) as usize;
            if values.contains(top) {
                let at = values.index_of(top);
                let rest = values.remove(at);
                assert forall|i: int| 0 <= i < rest.len() implies rest[i] < bound - 1 by {
                    if i < at {
                        assert(rest[i] == values[i]);
                    } else {
                        assert(rest[i] == values[i + 1]);
                    }
                }
                assert(rest.no_duplicates()) by {
                    assert forall|i: int, j: int|
                        0 <= i < rest.len() && 0 <= j < rest.len() && i != j implies rest[i]
                        != rest[j] by {
                        let a = if i < at { i } else { i + 1 };
                        let b = if j < at { j } else { j + 1 };
                        assert(rest[i] == values[a] && rest[j] == values[b]);
                    }
                }
                lemma_distinct_below(rest, (bound - 1) as nat);
            } else {
                assert forall|i: int| 0 <= i < values.len() implies values[i] < bound - 1 by {
                    assert(values.contains(values[i]));
                }
                lemma_distinct_below(values, (bound - 1) as nat);
            }
        }
    }
}

/// `local` is an elementary cycle of the component, written in positions of
/// `scc`.
pub open spec fn is_local_cycle(adj: Seq<Seq<usize>>, scc: Seq<usize>, local: Seq<usize>) -> bool {
    &&& local.len() > 0
    &&& local.no_duplicates()
    &&& forall|i: int| 0 <= i < local.len() ==> (#[trigger] local[i]) < scc.len()
    &&& forall|i: int|
        0 <= i < local.len() ==> #[trigger] local_successors(adj, scc, local[i] as int).contains(
            local[next_position(local.len() as int, i)],
        )
}

/// The position of the least entry of a non-empty sequence.
pub open spec fn least_position(values: Seq<usize>) -> int
    decreases values.len(),
{
    if values.len() <= 1 {
        0
    } else {
        let before = least_position(values.drop_last());
        if values.last() < values[before] {
            values.len() - 1
        } else {
            before
        }
    }
}

/// The least position is a position, and no entry is less than the one
/// there.
pub proof fn lemma_least_position(values: Seq<usize>)
    requires
        values.len() > 0,
    ensures
        0 <= least_position(values) < values.len(),
        forall|i: int| 0 <= i < values.len() ==> values[least_position(values)] <= #[trigger] values[i],
    decreases values.len(),
{
    if values.len() > 1 {
        let front = values.drop_last();
        lemma_least_position(front);
        assert forall|i: int| 0 <= i < values.len() implies values[least_position(values)]
            <= #[trigger] values[i] by {
            if i < front.len() {
                assert(front[i] == values[i]);
            }
        }
    }
}

/// A cycle read from another start is a cycle.
pub proof fn lemma_rotated_local_cycle(
    adj: Seq<Seq<usize>>,
    scc: Seq<usize>,
    local: Seq<usize>,
    shift: int,
)
    requires
        is_local_cycle(adj, scc, local),
        0 <= shift < local.len(),
    ensures
        is_local_cycle(adj, scc, rotated(local, shift)),
{
    let len = local.len() as int;
    let turned = rotated(local, shift);
    let origin = |i: int| if i < len - shift { i + shift } else { i - (len - shift) };
    assert forall|i: int| 0 <= i < len implies turned[i] == local[origin(i)] by {}
    assert forall|i: int, j: int| 0 <= i < len && 0 <= j < len && i != j implies turned[i]
        != turned[j] by {
        assert(turned[i] == local[origin(i)] && turned[j] == local[origin(j)]);
    }
    assert forall|i: int| 0 <= i < len implies (#[trigger] turned[i]) < scc.len() by {
        assert(turned[i] == local[origin(i)]);
    }
    assert forall|i: int| 0 <= i < len implies #[trigger] local_successors(
        adj,
        scc,
        turned[i] as int,
    ).contains(turned[next_position(len, i)]) by {
        let at = origin(i);
        assert(turned[i] == local[at]);
        assert(turned[next_position(len, i)] == local[origin(next_position(len, i))]);
        assert(origin(next_position(len, i)) == next_position(len, at));
        assert(local_successors(adj, scc, local[at] as int).contains(
            local[next_position(len, at)],
        ));
    }
}

/// A cycle that starts at its least vertex continues from that vertex around.
pub proof fn lemma_cycle_continues(adj: Seq<Seq<usize>>, scc: Seq<usize>, local: Seq<usize>)
    requires
        is_local_cycle(adj, scc, local),
        forall|i: int| 0 <= i < local.len() ==> local[0] <= #[trigger] local[i],
    ensures
        continues(adj, scc, local[0], seq![local[0]], local.skip(1)),
        seq![local[0]] + local.skip(1) == local,
{
    let len = local.len() as int;
    let m = local[0];
    let q = local.skip(1);
    assert(seq![m] + q =~= local);
    assert(seq![m].last() == m);
    assert(local_successors(adj, scc, local[0] as int).contains(local[next_position(len, 0)]));
    if len > 1 {
        assert forall|i: int| 0 <= i < q.len() implies m < (#[trigger] q[i]) < scc.len()
            && !seq![m].contains(q[i]) by {
            assert(q[i] == local[i + 1]);
            assert(local[0] != local[i + 1]);
            if seq![m].contains(q[i]) {
                let at = choose|at: int| 0 <= at < 1 && seq![m][at] == q[i];
            }
        }
        assert forall|i: int| 0 < i < q.len() implies local_successors(
            adj,
            scc,
            q[i - 1] as int,
        ).contains(#[trigger] q[i]) by {
            assert(local_successors(adj, scc, local[i] as int).contains(
                local[next_position(len, i)],
            ));
        }
        assert(local_successors(adj, scc, local[len - 1] as int).contains(
            local[next_position(len, len - 1)],
        ));
        assert(q.last() == local[len - 1]);
        assert(avoiding(adj, scc, m, seq![m], q));
    }
}

/// An elementary cycle of the graph whose nodes all lie in `scc`, written in
/// positions of `scc`.
pub open spec fn to_positions(scc: Seq<usize>, cycle: Seq<usize>) -> Seq<usize> {
    Seq::new(cycle.len(), |j: int| scc.index_of(cycle[j]) as usize)
}

/// A cycle of the graph within `scc`, written in positions, is a cycle of
/// the component, and its nodes are those of the cycle.
pub proof fn lemma_to_positions(adj: Seq<Seq<usize>>, scc: Seq<usize>, cycle: Seq<usize>)
    requires
        scc.len() <= usize::MAX,
        scc.no_duplicates(),
        is_elementary_cycle(adj, cycle),
        forall|j: int| 0 <= j < cycle.len() ==> scc.contains(#[trigger] cycle[j]),
    ensures
        is_local_cycle(adj, scc, to_positions(scc, cycle)),
        nodes_of(scc, to_positions(scc, cycle)) == cycle,
{
    let local = to_positions(scc, cycle);
    let len = cycle.len() as int;
    assert forall|j: int| 0 <= j < len implies (#[trigger] local[j]) < scc.len()
        && scc[local[j] as int] == cycle[j] by {
        assert(scc.contains(cycle[j]));
    }
    assert(nodes_of(scc, local) =~= cycle);
    assert forall|i: int, j: int| 0 <= i < len && 0 <= j < len && i != j implies local[i]
        != local[j] by {
        assert(scc[local[i] as int] == cycle[i] && scc[local[j] as int] == cycle[j]);
    }
    assert forall|i: int| 0 <= i < len implies #[trigger] local_successors(
        adj,
        scc,
        local[i] as int,
    ).contains(local[next_position(len, i)]) by {
        let next = next_position(len, i);
        assert(has_edge(adj, cycle[i], cycle[next]));
        assert(scc[local[i] as int] == cycle[i] && scc[local[next] as int] == cycle[next]);
        lemma_to_local_complete(scc, adj[cycle[i] as int], local[next] as int);
    }
}

} // verus!
