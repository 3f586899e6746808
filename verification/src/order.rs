//! The order in which the cycles are found: component after component, root
//! after root, and from each vertex on through its successors in the order in
//! which it lists them.

use crate::local::{avoiding, continues, local_successors, nodes_of};
use std::ops::ControlFlow;
use vstd::prelude::*;

verus! {

/// The cycles through the root `s` that start with `path` and go on from its
/// last vertex through one of its first `k` successors, by way of vertices
/// after `s` that are not on `path`. They come successor by successor, and
/// for each successor in the order in which they are found from there.
pub open spec fn branches(
    adj: Seq<Seq<usize>>,
    scc: Seq<usize>,
    s: usize,
    path: Seq<usize>,
    k: int,
) -> Seq<Seq<usize>>
    decreases scc.len() + 1 - path.len(), k,
{
    if path.len() == 0 || path.len() > scc.len() || k <= 0 || k > local_successors(
        adj,
        scc,
        path.last() as int,
    ).len() {
        Seq::empty()
    } else {
        let w = local_successors(adj, scc, path.last() as int)[k - 1];
        branches(adj, scc, s, path, k - 1) + if w == s {
            seq![nodes_of(scc, path)]
        } else if s < w < scc.len() && !path.contains(w) {
            branches(
                adj,
                scc,
                s,
                path.push(w),
                local_successors(adj, scc, w as int).len() as int,
            )
        } else {
            Seq::empty()
        }
    }
}

/// The cycles through the root `s` that start with `path`, in the order in
/// which they are found.
pub open spec fn cycles_from(
    adj: Seq<Seq<usize>>,
    scc: Seq<usize>,
    s: usize,
    path: Seq<usize>,
) -> Seq<Seq<usize>> {
    branches(adj, scc, s, path, local_successors(adj, scc, path.last() as int).len() as int)
}

/// No vertex of `path` comes before the root `s`.
pub open spec fn above_root(s: usize, path: Seq<usize>) -> bool {
    forall|i: int| 0 <= i < path.len() ==> s <= #[trigger] path[i]
}

/// The cycles that a search from the end of `path` finds: those from `path`,
/// unless `path` has strayed to a vertex before the root, from where there
/// are none.
pub open spec fn cycles_beyond(
    adj: Seq<Seq<usize>>,
    scc: Seq<usize>,
    s: usize,
    path: Seq<usize>,
) -> Seq<Seq<usize>> {
    if above_root(s, path) {
        cycles_from(adj, scc, s, path)
    } else {
        Seq::empty()
    }
}

/// The cycles of the component whose least vertex is one of the first `k`,
/// root after root.
pub open spec fn roots_upto(adj: Seq<Seq<usize>>, scc: Seq<usize>, k: int) -> Seq<Seq<usize>>
    decreases k,
{
    if k <= 0 {
        Seq::empty()
    } else {
        roots_upto(adj, scc, k - 1) + cycles_from(adj, scc, (k - 1) as usize, seq![(k - 1) as usize])
    }
}

/// The cycles of the component `scc`, in the order in which they are found.
pub open spec fn component_cycles(adj: Seq<Seq<usize>>, scc: Seq<usize>) -> Seq<Seq<usize>> {
    roots_upto(adj, scc, scc.len() as int)
}

/// The cycles of the first `p` of `parts`, part after part.
pub open spec fn parts_upto(adj: Seq<Seq<usize>>, parts: Seq<Seq<usize>>, p: int) -> Seq<
    Seq<usize>,
>
    decreases p,
{
    if p <= 0 || p > parts.len() {
        Seq::empty()
    } else {
        parts_upto(adj, parts, p - 1) + component_cycles(adj, parts[p - 1])
    }
}

/// The cycles of the graph in the order in which they are found, when its
/// strongly connected components are searched in the order of `parts`.
pub open spec fn cycles_in_order(adj: Seq<Seq<usize>>, parts: Seq<Seq<usize>>) -> Seq<Seq<usize>> {
    parts_upto(adj, parts, parts.len() as int)
}

/// `after` is `before` followed by the first entries of `full`: by all of
/// them where `whole` is set.
pub open spec fn emitted(
    before: Seq<Seq<usize>>,
    after: Seq<Seq<usize>>,
    full: Seq<Seq<usize>>,
    whole: bool,
) -> bool {
    &&& before.len() <= after.len() <= before.len() + full.len()
    &&& after =~= before + full.take(after.len() - before.len())
    &&& whole ==> after.len() == before.len() + full.len()
}

/// What is emitted in two steps is emitted.
pub proof fn lemma_emitted_chain(
    first: Seq<Seq<usize>>,
    second: Seq<Seq<usize>>,
    third: Seq<Seq<usize>>,
    done: Seq<Seq<usize>>,
    part: Seq<Seq<usize>>,
    whole: bool,
)
    requires
        emitted(first, second, done, true),
        emitted(second, third, part, whole),
    ensures
        emitted(first, third, done + part, whole),
{
    let count = third.len() - second.len();
    assert(done.take(done.len() as int) =~= done);
    assert((done + part).take(done.len() + count) =~= done + part.take(count));
    assert(third =~= first + (done + part).take(third.len() - first.len()));
}

/// What is emitted of a list, short of all, is emitted of a longer one.
pub proof fn lemma_emitted_within(
    before: Seq<Seq<usize>>,
    after: Seq<Seq<usize>>,
    full: Seq<Seq<usize>>,
    longer: Seq<Seq<usize>>,
    whole: bool,
)
    requires
        emitted(before, after, full, whole),
        full.is_prefix_of(longer),
    ensures
        emitted(before, after, longer, false),
{
    let count = after.len() - before.len();
    assert(full.take(count) =~= longer.take(count)) by {
        assert(full =~= longer.subrange(0, full.len() as int));
    }
}

/// The cycles through fewer successors come first among those through more.
pub proof fn lemma_branches_prefix(
    adj: Seq<Seq<usize>>,
    scc: Seq<usize>,
    s: usize,
    path: Seq<usize>,
    k: int,
    total: int,
)
    requires
        0 <= k <= total <= local_successors(adj, scc, path.last() as int).len(),
    ensures
        branches(adj, scc, s, path, k).is_prefix_of(branches(adj, scc, s, path, total)),
    decreases total - k,
{
    let short = branches(adj, scc, s, path, k);
    if k < total {
        lemma_branches_prefix(adj, scc, s, path, k, total - 1);
        let mid = branches(adj, scc, s, path, total - 1);
        let all = branches(adj, scc, s, path, total);
        if path.len() == 0 || path.len() > scc.len() {
            assert(all =~= Seq::<Seq<usize>>::empty());
            assert(mid =~= Seq::<Seq<usize>>::empty());
        } else {
            assert(mid.is_prefix_of(all)) by {
                assert(mid =~= all.subrange(0, mid.len() as int));
            }
            assert(short =~= mid.subrange(0, short.len() as int));
        }
        assert(short =~= all.subrange(0, short.len() as int));
    } else {
        assert(short =~= short.subrange(0, short.len() as int));
    }
}

/// The cycles from fewer roots come first among those from more.
pub proof fn lemma_roots_prefix(adj: Seq<Seq<usize>>, scc: Seq<usize>, k: int, total: int)
    requires
        0 <= k <= total,
    ensures
        roots_upto(adj, scc, k).is_prefix_of(roots_upto(adj, scc, total)),
    decreases total - k,
{
    let short = roots_upto(adj, scc, k);
    if k < total {
        lemma_roots_prefix(adj, scc, k, total - 1);
        let mid = roots_upto(adj, scc, total - 1);
        let all = roots_upto(adj, scc, total);
        assert(mid =~= all.subrange(0, mid.len() as int));
        assert(short =~= mid.subrange(0, short.len() as int));
        assert(short =~= all.subrange(0, short.len() as int));
    } else {
        assert(short =~= short.subrange(0, short.len() as int));
    }
}

/// The cycles of fewer parts come first among those of more.
pub proof fn lemma_parts_prefix(adj: Seq<Seq<usize>>, parts: Seq<Seq<usize>>, p: int, total: int)
    requires
        0 <= p <= total <= parts.len(),
    ensures
        parts_upto(adj, parts, p).is_prefix_of(parts_upto(adj, parts, total)),
    decreases total - p,
{
    let short = parts_upto(adj, parts, p);
    if p < total {
        lemma_parts_prefix(adj, parts, p, total - 1);
        let mid = parts_upto(adj, parts, total - 1);
        let all = parts_upto(adj, parts, total);
        assert(mid =~= all.subrange(0, mid.len() as int));
        assert(short =~= mid.subrange(0, short.len() as int));
        assert(short =~= all.subrange(0, short.len() as int));
    } else {
        assert(short =~= short.subrange(0, short.len() as int));
    }
}

/// `entry` is `path` followed by a way back to the root, as nodes.
pub open spec fn closes(
    adj: Seq<Seq<usize>>,
    scc: Seq<usize>,
    s: usize,
    path: Seq<usize>,
    entry: Seq<usize>,
) -> bool {
    exists|q: Seq<usize>| #[trigger]
        continues(adj, scc, s, path, q) && entry == nodes_of(scc, path + q)
}

/// A way back to the root from `path` with `w` added is, with `w` put in
/// front, a way back from `path`.
pub proof fn lemma_continues_join(
    adj: Seq<Seq<usize>>,
    scc: Seq<usize>,
    s: usize,
    path: Seq<usize>,
    w: usize,
    q: Seq<usize>,
)
    requires
        path.len() > 0,
        s < w < scc.len(),
        !path.contains(w),
        continues(adj, scc, s, path.push(w), q),
    ensures
        avoiding(adj, scc, s, path, seq![w] + q),
        local_successors(adj, scc, path.last() as int).contains(w) ==> continues(
            adj,
            scc,
            s,
            path,
            seq![w] + q,
        ),
        path + (seq![w] + q) == path.push(w) + q,
{
    let longer = path.push(w);
    let all = seq![w] + q;
    assert(path + all =~= longer + q);
    assert(longer.last() == w);
    assert(longer[path.len() as int] == w);
    assert forall|i: int| 0 <= i < all.len() implies s < (#[trigger] all[i]) < scc.len()
        && !path.contains(all[i]) by {
        if i > 0 {
            assert(all[i] == q[i - 1]);
            assert(!longer.contains(q[i - 1]));
            if path.contains(q[i - 1]) {
                let at = choose|at: int| 0 <= at < path.len() && path[at] == q[i - 1];
                assert(longer[at] == q[i - 1]);
            }
        }
    }
    assert forall|i: int, j: int| 0 <= i < all.len() && 0 <= j < all.len() && i != j implies all[i]
        != all[j] by {
        if i > 0 && j > 0 {
            assert(q[i - 1] != q[j - 1]);
        } else {
            let other = if i > 0 { i } else { j };
            assert(all[other] == q[other - 1]);
            assert(!longer.contains(q[other - 1]));
        }
    }
    assert forall|i: int| 0 < i < all.len() implies local_successors(
        adj,
        scc,
        all[i - 1] as int,
    ).contains(#[trigger] all[i]) by {
        if i > 1 {
            assert(all[i] == q[i - 1] && all[i - 1] == q[(i - 1) - 1]);
        }
    }
    if q.len() > 0 {
        assert(all.last() == q.last());
    }
}

/// Each of the cycles from `path` is `path` followed by a way back to the
/// root.
pub proof fn lemma_branches_close(
    adj: Seq<Seq<usize>>,
    scc: Seq<usize>,
    s: usize,
    path: Seq<usize>,
    k: int,
    i: int,
)
    requires
        0 <= i < branches(adj, scc, s, path, k).len(),
        forall|t: int| 0 <= t < path.len() ==> (#[trigger] path[t]) < scc.len(),
    ensures
        closes(adj, scc, s, path, branches(adj, scc, s, path, k)[i]),
    decreases scc.len() + 1 - path.len(), k,
{
    let succ = local_successors(adj, scc, path.last() as int);
    let before = branches(adj, scc, s, path, k - 1);
    if i < before.len() {
        lemma_branches_close(adj, scc, s, path, k - 1, i);
    } else {
        let w = succ[k - 1];
        assert(succ.contains(w));
        if w == s {
            let q = Seq::<usize>::empty();
            assert(path + q =~= path);
            assert(continues(adj, scc, s, path, q));
        } else {
            let longer = path.push(w);
            let width = local_successors(adj, scc, w as int).len() as int;
            assert forall|t: int| 0 <= t < longer.len() implies (#[trigger] longer[t]) < scc.len() by {
                if t < path.len() {
                    assert(longer[t] == path[t]);
                }
            }
            lemma_branches_close(adj, scc, s, longer, width, i - before.len());
            let entry = branches(adj, scc, s, longer, width)[i - before.len()];
            let q = choose|q: Seq<usize>| #[trigger]
                continues(adj, scc, s, longer, q) && entry == nodes_of(scc, longer + q);
            lemma_continues_join(adj, scc, s, path, w, q);
            assert(continues(adj, scc, s, path, seq![w] + q));
        }
    }
}

/// From where there is no way back to the root, no cycle is found.
pub proof fn lemma_no_way_no_cycle(
    adj: Seq<Seq<usize>>,
    scc: Seq<usize>,
    s: usize,
    path: Seq<usize>,
)
    requires
        forall|t: int| 0 <= t < path.len() ==> (#[trigger] path[t]) < scc.len(),
        forall|q: Seq<usize>| !#[trigger] continues(adj, scc, s, path, q),
    ensures
        cycles_from(adj, scc, s, path) == Seq::<Seq<usize>>::empty(),
{
    let all = cycles_from(adj, scc, s, path);
    if all.len() > 0 {
        lemma_branches_close(
            adj,
            scc,
            s,
            path,
            local_successors(adj, scc, path.last() as int).len() as int,
            0,
        );
    }
    assert(all =~= Seq::<Seq<usize>>::empty());
}

/// The search went on to its end.
pub open spec fn went_on<B, C>(flow: ControlFlow<B, C>) -> bool {
    match flow {
        ControlFlow::Continue(_) => true,
        ControlFlow::Break(_) => false,
    }
}

/// The cycles that a search from the end of `path` finds through the first
/// `k` successors of its last vertex.
pub open spec fn branches_beyond(
    adj: Seq<Seq<usize>>,
    scc: Seq<usize>,
    s: usize,
    path: Seq<usize>,
    k: int,
) -> Seq<Seq<usize>> {
    if above_root(s, path) {
        branches(adj, scc, s, path, k)
    } else {
        Seq::empty()
    }
}

/// What a search has found through some successors comes first in what it
/// finds in all.
pub proof fn lemma_beyond_prefix(
    adj: Seq<Seq<usize>>,
    scc: Seq<usize>,
    s: usize,
    path: Seq<usize>,
    k: int,
)
    requires
        0 <= k <= local_successors(adj, scc, path.last() as int).len(),
    ensures
        branches_beyond(adj, scc, s, path, k).is_prefix_of(cycles_beyond(adj, scc, s, path)),
{
    if above_root(s, path) {
        lemma_branches_prefix(
            adj,
            scc,
            s,
            path,
            k,
            local_successors(adj, scc, path.last() as int).len() as int,
        );
    } else {
        let none = Seq::<Seq<usize>>::empty();
        assert(none =~= none.subrange(0, 0));
    }
}

/// Where successor `k` of the last vertex of `path` is the root, the path
/// itself is the one cycle through it.
pub proof fn lemma_step_emit(
    adj: Seq<Seq<usize>>,
    scc: Seq<usize>,
    s: usize,
    path: Seq<usize>,
    k: int,
)
    requires
        0 < path.len() <= scc.len(),
        above_root(s, path),
        0 <= k < local_successors(adj, scc, path.last() as int).len(),
        local_successors(adj, scc, path.last() as int)[k] == s,
    ensures
        branches_beyond(adj, scc, s, path, k + 1) == branches_beyond(adj, scc, s, path, k)
            + seq![nodes_of(scc, path)],
{
}

/// Where successor `k` of the last vertex of `path` is a vertex that is not
/// on `path`, the cycles through it are those that a search from there finds.
pub proof fn lemma_step_descend(
    adj: Seq<Seq<usize>>,
    scc: Seq<usize>,
    s: usize,
    path: Seq<usize>,
    k: int,
)
    requires
        0 < path.len() <= scc.len(),
        0 <= k < local_successors(adj, scc, path.last() as int).len(),
        local_successors(adj, scc, path.last() as int)[k] != s,
        local_successors(adj, scc, path.last() as int)[k] < scc.len(),
        !path.contains(local_successors(adj, scc, path.last() as int)[k]),
    ensures
        branches_beyond(adj, scc, s, path, k + 1) == branches_beyond(adj, scc, s, path, k)
            + cycles_beyond(
            adj,
            scc,
            s,
            path.push(local_successors(adj, scc, path.last() as int)[k]),
        ),
{
    let w = local_successors(adj, scc, path.last() as int)[k];
    let longer = path.push(w);
    assert(longer.last() == w);
    assert(longer[path.len() as int] == w);
    let none = Seq::<Seq<usize>>::empty();
    if above_root(s, path) {
        if s < w {
            assert forall|i: int| 0 <= i < longer.len() implies s <= #[trigger] longer[i] by {
                if i < path.len() {
                    assert(longer[i] == path[i]);
                }
            }
        } else {
            assert(!above_root(s, longer));
            assert(branches(adj, scc, s, path, k) + none =~= branches(adj, scc, s, path, k));
        }
    } else {
        let at = choose|at: int| 0 <= at < path.len() && !(s <= #[trigger] path[at]);
        assert(longer[at] == path[at]);
        assert(!above_root(s, longer));
        assert(none + none =~= none);
    }
}

/// Where successor `k` of the last vertex of `path` is on `path`, or comes
/// before the root, or has no way back to the root, no cycle goes through it.
pub proof fn lemma_step_skip(
    adj: Seq<Seq<usize>>,
    scc: Seq<usize>,
    s: usize,
    path: Seq<usize>,
    k: int,
)
    requires
        0 < path.len() <= scc.len(),
        forall|t: int| 0 <= t < path.len() ==> (#[trigger] path[t]) < scc.len(),
        0 <= k < local_successors(adj, scc, path.last() as int).len(),
        local_successors(adj, scc, path.last() as int)[k] != s,
        local_successors(adj, scc, path.last() as int)[k] < scc.len(),
        s < local_successors(adj, scc, path.last() as int)[k] && !path.contains(
            local_successors(adj, scc, path.last() as int)[k],
        ) ==> forall|q: Seq<usize>|
            !#[trigger] continues(
                adj,
                scc,
                s,
                path.push(local_successors(adj, scc, path.last() as int)[k]),
                q,
            ),
    ensures
        branches_beyond(adj, scc, s, path, k + 1) == branches_beyond(adj, scc, s, path, k),
{
    let w = local_successors(adj, scc, path.last() as int)[k];
    let longer = path.push(w);
    let none = Seq::<Seq<usize>>::empty();
    if above_root(s, path) {
        if s < w && !path.contains(w) {
            assert(longer.last() == w);
            assert forall|t: int| 0 <= t < longer.len() implies (#[trigger] longer[t]) < scc.len() by {
                if t < path.len() {
                    assert(longer[t] == path[t]);
                }
            }
            lemma_no_way_no_cycle(adj, scc, s, longer);
        }
        assert(branches(adj, scc, s, path, k) + none =~= branches(adj, scc, s, path, k));
    }
}

/// The cycles from the roots up to `s` are those from the roots before it
/// followed by those that a search from `s` finds.
pub proof fn lemma_step_root(adj: Seq<Seq<usize>>, scc: Seq<usize>, s: usize)
    requires
        s < usize::MAX,
    ensures
        roots_upto(adj, scc, s + 1) == roots_upto(adj, scc, s as int) + cycles_beyond(
            adj,
            scc,
            s,
            Seq::<usize>::empty().push(s),
        ),
{
    assert(Seq::<usize>::empty().push(s) =~= seq![s]);
    assert(above_root(s, seq![s]));
}

/// `entry` is not empty and all its nodes are nodes of `part`.
pub open spec fn within(part: Seq<usize>, entry: Seq<usize>) -> bool {
    &&& entry.len() > 0
    &&& forall|t: int| 0 <= t < entry.len() ==> part.contains(#[trigger] entry[t])
}

/// The cycles of a component are made of its nodes.
pub proof fn lemma_roots_within(adj: Seq<Seq<usize>>, scc: Seq<usize>, k: int, t: int)
    requires
        0 <= k <= scc.len(),
        0 <= t < roots_upto(adj, scc, k).len(),
    ensures
        within(scc, roots_upto(adj, scc, k)[t]),
    decreases k,
{
    let before = roots_upto(adj, scc, k - 1);
    if t < before.len() {
        lemma_roots_within(adj, scc, k - 1, t);
    } else {
        let s = (k - 1) as usize;
        let path = seq![s];
        let width = local_successors(adj, scc, path.last() as int).len() as int;
        lemma_branches_close(adj, scc, s, path, width, t - before.len());
        let entry = roots_upto(adj, scc, k)[t];
        let q = choose|q: Seq<usize>| #[trigger]
            continues(adj, scc, s, path, q) && entry == nodes_of(scc, path + q);
        let local = path + q;
        assert forall|i: int| 0 <= i < entry.len() implies scc.contains(#[trigger] entry[i]) by {
            if i > 0 {
                assert(local[i] == q[i - 1]);
                assert(q[i - 1] < scc.len());
            } else {
                assert(local[0] == s);
            }
            assert(scc[local[i] as int] == entry[i]);
        }
    }
}

/// The cycles come part after part: of two of them, the earlier one lies in
/// the same part as the later one or in a part before it.
pub proof fn lemma_parts_grouped(
    adj: Seq<Seq<usize>>,
    parts: Seq<Seq<usize>>,
    p: int,
    i: int,
    j: int,
) -> (at: (int, int))
    requires
        0 <= p <= parts.len(),
        0 <= i <= j < parts_upto(adj, parts, p).len(),
    ensures
        0 <= at.0 <= at.1 < p,
        within(parts[at.0], parts_upto(adj, parts, p)[i]),
        within(parts[at.1], parts_upto(adj, parts, p)[j]),
    decreases p,
{
    let before = parts_upto(adj, parts, p - 1);
    if j < before.len() {
        lemma_parts_grouped(adj, parts, p - 1, i, j)
    } else {
        let scc = parts[p - 1];
        lemma_roots_within(adj, scc, scc.len() as int, j - before.len());
        if i < before.len() {
            let at = lemma_parts_grouped(adj, parts, p - 1, i, i);
            (at.0, p - 1)
        } else {
            lemma_roots_within(adj, scc, scc.len() as int, i - before.len());
            (p - 1, p - 1)
        }
    }
}

} // verus!
