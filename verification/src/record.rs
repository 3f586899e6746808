//! What can be said of the cycles that a search has handed over so far.

use crate::local::{
    avoiding,
    continues,
    first_step,
    lemma_continues_step,
    local_successors,
    nodes_of,
};
use vstd::prelude::*;

verus! {

/// `cycle` is one of the entries of `seen` from position `from` on.
pub open spec fn found_since(seen: Seq<Seq<usize>>, from: int, cycle: Seq<usize>) -> bool {
    exists|i: int| from <= i < seen.len() && #[trigger] seen[i] == cycle
}

/// `entry` is not empty, its nodes lie in `scc`, and none of them comes
/// before the first in `scc`.
pub open spec fn rooted(scc: Seq<usize>, entry: Seq<usize>) -> bool {
    &&& entry.len() > 0
    &&& forall|t: int|
        0 <= t < entry.len() ==> scc.contains(#[trigger] entry[t]) && scc.index_of(entry[0])
            <= scc.index_of(entry[t])
}

/// `entry` starts at one of the first `s` nodes of `scc`.
pub open spec fn rooted_before(scc: Seq<usize>, s: int, entry: Seq<usize>) -> bool {
    exists|r: int| 0 <= r < s && r < scc.len() && #[trigger] scc[r] == entry[0]
}

/// The entries of `seen` from position `from` on differ from each other.
pub open spec fn distinct_since(seen: Seq<Seq<usize>>, from: int) -> bool {
    forall|i: int, j: int| from <= i < j < seen.len() ==> #[trigger] seen[i] != #[trigger] seen[j]
}

/// `entry`, which starts with a path of `len` vertices, closes right after
/// it where the root is among `taken`, or else goes on with one of `taken`.
pub open spec fn branch_taken(
    scc: Seq<usize>,
    s: usize,
    taken: Seq<usize>,
    len: int,
    entry: Seq<usize>,
) -> bool {
    if entry.len() == len {
        taken.contains(s)
    } else {
        entry.len() > len && exists|j: int|
            0 <= j < taken.len() && scc[(#[trigger] taken[j]) as int] == entry[len]
    }
}

/// Each entry of `seen` from position `from` on starts with `prefix` and is
/// rooted; and in a graph without parallel edges they all differ.
pub open spec fn logged(
    seen: Seq<Seq<usize>>,
    from: int,
    scc: Seq<usize>,
    prefix: Seq<usize>,
    simple: bool,
) -> bool {
    &&& forall|i: int|
        from <= i < seen.len() ==> prefix.is_prefix_of(#[trigger] seen[i]) && rooted(scc, seen[i])
    &&& simple ==> distinct_since(seen, from)
}

/// What holds of the entries added since a vertex was entered, when the
/// successors `taken` have been dealt with: they are logged, and each has
/// taken one of these branches.
pub open spec fn log_inv(
    seen: Seq<Seq<usize>>,
    from: int,
    scc: Seq<usize>,
    s: usize,
    taken: Seq<usize>,
    prefix: Seq<usize>,
    simple: bool,
) -> bool {
    &&& forall|i: int|
        from <= i < seen.len() ==> prefix.is_prefix_of(#[trigger] seen[i]) && rooted(scc, seen[i])
            && (simple ==> branch_taken(scc, s, taken, prefix.len() as int, seen[i]))
    &&& simple ==> distinct_since(seen, from)
}

/// A branch that was taken among some successors was taken among more.
pub proof fn lemma_branch_more(
    scc: Seq<usize>,
    s: usize,
    adjacent: Seq<usize>,
    k: int,
    len: int,
    entry: Seq<usize>,
)
    requires
        0 <= k < adjacent.len(),
        branch_taken(scc, s, adjacent.take(k), len, entry),
    ensures
        branch_taken(scc, s, adjacent.take(k + 1), len, entry),
{
    let fewer = adjacent.take(k);
    let more = adjacent.take(k + 1);
    if entry.len() == len {
        let at = choose|at: int| 0 <= at < fewer.len() && fewer[at] == s;
        assert(more[at] == s);
    } else {
        let j = choose|j: int| 0 <= j < fewer.len() && scc[(#[trigger] fewer[j]) as int] == entry[len];
        assert(scc[more[j] as int] == entry[len]);
    }
}

/// A successor that the search passes over adds nothing to the log.
pub proof fn lemma_log_skip(
    seen: Seq<Seq<usize>>,
    from: int,
    scc: Seq<usize>,
    s: usize,
    adjacent: Seq<usize>,
    k: int,
    prefix: Seq<usize>,
    simple: bool,
)
    requires
        0 <= k < adjacent.len(),
        log_inv(seen, from, scc, s, adjacent.take(k), prefix, simple),
    ensures
        log_inv(seen, from, scc, s, adjacent.take(k + 1), prefix, simple),
{
    if simple {
        assert forall|i: int| from <= i < seen.len() implies branch_taken(
            scc,
            s,
            adjacent.take(k + 1),
            prefix.len() as int,
            #[trigger] seen[i],
        ) by {
            lemma_branch_more(scc, s, adjacent, k, prefix.len() as int, seen[i]);
        }
    }
}

/// Where successor `k` is the root, the path itself joins the log.
pub proof fn lemma_log_emit(
    seen: Seq<Seq<usize>>,
    from: int,
    scc: Seq<usize>,
    s: usize,
    adjacent: Seq<usize>,
    k: int,
    prefix: Seq<usize>,
    simple: bool,
)
    requires
        0 <= from <= seen.len(),
        0 <= k < adjacent.len(),
        adjacent[k] == s,
        simple ==> adjacent.no_duplicates(),
        rooted(scc, prefix),
        log_inv(seen, from, scc, s, adjacent.take(k), prefix, simple),
    ensures
        log_inv(seen.push(prefix), from, scc, s, adjacent.take(k + 1), prefix, simple),
{
    let more = seen.push(prefix);
    lemma_log_skip(seen, from, scc, s, adjacent, k, prefix, simple);
    assert(adjacent.take(k + 1)[k] == s);
    assert(prefix =~= prefix.subrange(0, prefix.len() as int));
    assert forall|i: int| from <= i < more.len() implies prefix.is_prefix_of(#[trigger] more[i])
        && rooted(scc, more[i]) && (simple ==> branch_taken(
        scc,
        s,
        adjacent.take(k + 1),
        prefix.len() as int,
        more[i],
    )) by {
        if i < seen.len() {
            assert(more[i] == seen[i]);
        }
    }
    if simple {
        assert forall|i: int, j: int| from <= i < j < more.len() implies #[trigger] more[i]
            != #[trigger] more[j] by {
            assert(more[i] == seen[i]);
            if j < seen.len() {
                assert(more[j] == seen[j]);
            } else if seen[i] == prefix {
                assert(branch_taken(scc, s, adjacent.take(k), prefix.len() as int, seen[i]));
                let at = choose|at: int| 0 <= at < k && adjacent.take(k)[at] == s;
                assert(adjacent[at] == adjacent[k]);
            }
        }
    }
}

/// Where the search went on through successor `k`, what it logged from
/// there joins the log.
pub proof fn lemma_log_descend(
    seen: Seq<Seq<usize>>,
    after: Seq<Seq<usize>>,
    from: int,
    scc: Seq<usize>,
    s: usize,
    adjacent: Seq<usize>,
    k: int,
    prefix: Seq<usize>,
    simple: bool,
)
    requires
        0 <= from <= seen.len() <= after.len(),
        after.take(seen.len() as int) =~= seen,
        0 <= k < adjacent.len(),
        simple ==> adjacent.no_duplicates(),
        scc.no_duplicates(),
        forall|j: int| 0 <= j < adjacent.len() ==> (#[trigger] adjacent[j]) < scc.len(),
        log_inv(seen, from, scc, s, adjacent.take(k), prefix, simple),
        logged(after, seen.len() as int, scc, prefix.push(scc[adjacent[k] as int]), simple),
    ensures
        log_inv(after, from, scc, s, adjacent.take(k + 1), prefix, simple),
{
    let len = prefix.len() as int;
    let longer = prefix.push(scc[adjacent[k] as int]);
    lemma_log_skip(seen, from, scc, s, adjacent, k, prefix, simple);
    assert(adjacent.take(k + 1)[k] == adjacent[k]);
    assert forall|i: int| seen.len() <= i < after.len() implies prefix.is_prefix_of(
        #[trigger] after[i],
    ) && after[i].len() > len && after[i][len] == scc[adjacent[k] as int] by {
        assert(longer.is_prefix_of(after[i]));
        assert(after[i].subrange(0, len + 1)[len] == longer[len]);
        assert(prefix =~= longer.subrange(0, len));
        assert(prefix =~= after[i].subrange(0, len));
    }
    assert forall|i: int| from <= i < after.len() implies prefix.is_prefix_of(#[trigger] after[i])
        && rooted(scc, after[i]) && (simple ==> branch_taken(
        scc,
        s,
        adjacent.take(k + 1),
        len,
        after[i],
    )) by {
        if i < seen.len() {
            assert(after.take(seen.len() as int)[i] == seen[i]);
        }
    }
    if simple {
        assert forall|i: int, j: int| from <= i < j < after.len() implies #[trigger] after[i]
            != #[trigger] after[j] by {
            if j < seen.len() {
                assert(after.take(seen.len() as int)[i] == seen[i]);
                assert(after.take(seen.len() as int)[j] == seen[j]);
            } else if i < seen.len() {
                assert(after.take(seen.len() as int)[i] == seen[i]);
                if after[i] == after[j] {
                    assert(branch_taken(scc, s, adjacent.take(k), len, seen[i]));
                    let at = choose|at: int|
                        0 <= at < k && scc[(#[trigger] adjacent.take(k)[at]) as int] == seen[i][len];
                    assert(adjacent.take(k)[at] == adjacent[at]);
                    assert(scc[adjacent[at] as int] == scc[adjacent[k] as int]);
                    assert(adjacent[at] == adjacent[k]);
                }
            }
        }
    }
}

/// The entries of `seen` from position `from` on start at nodes that come
/// in `scc` in the order of the entries: an entry never starts before the
/// one that it follows.
pub open spec fn roots_in_order(seen: Seq<Seq<usize>>, from: int, scc: Seq<usize>) -> bool {
    forall|i: int, j: int|
        from <= i <= j < seen.len() ==> scc.index_of((#[trigger] seen[i])[0]) <= scc.index_of(
            (#[trigger] seen[j])[0],
        )
}

/// What a search from the root `s` logged joins what the searches from the
/// roots before it logged.
pub proof fn lemma_log_root(
    seen: Seq<Seq<usize>>,
    after: Seq<Seq<usize>>,
    from: int,
    scc: Seq<usize>,
    s: usize,
    simple: bool,
)
    requires
        0 <= from <= seen.len() <= after.len(),
        after.take(seen.len() as int) =~= seen,
        s < scc.len(),
        scc.no_duplicates(),
        logged(seen, from, scc, Seq::empty(), simple),
        forall|i: int| from <= i < seen.len() ==> rooted_before(scc, s as int, #[trigger] seen[i]),
        logged(after, seen.len() as int, scc, seq![scc[s as int]], simple),
        roots_in_order(seen, from, scc),
    ensures
        logged(after, from, scc, Seq::empty(), simple),
        forall|i: int| from <= i < after.len() ==> rooted_before(scc, s + 1, #[trigger] after[i]),
        roots_in_order(after, from, scc),
{
    assert forall|i: int| seen.len() <= i < after.len() implies (#[trigger] after[i])[0]
        == scc[s as int] by {
        assert(seq![scc[s as int]].is_prefix_of(after[i]));
        assert(after[i].subrange(0, 1)[0] == seq![scc[s as int]][0]);
    }
    assert forall|i: int| from <= i < after.len() implies Seq::<usize>::empty().is_prefix_of(
        #[trigger] after[i],
    ) && rooted(scc, after[i]) && rooted_before(scc, s + 1, after[i]) by {
        assert(Seq::<usize>::empty() =~= after[i].subrange(0, 0));
        if i < seen.len() {
            assert(after.take(seen.len() as int)[i] == seen[i]);
            let r = choose|r: int| 0 <= r < s && r < scc.len() && #[trigger] scc[r] == seen[i][0];
            assert(scc[r] == after[i][0]);
        } else {
            assert(scc[s as int] == after[i][0]);
        }
    }
    if simple {
        assert forall|i: int, j: int| from <= i < j < after.len() implies #[trigger] after[i]
            != #[trigger] after[j] by {
            if j < seen.len() {
                assert(after.take(seen.len() as int)[i] == seen[i]);
                assert(after.take(seen.len() as int)[j] == seen[j]);
            } else if i < seen.len() {
                assert(after.take(seen.len() as int)[i] == seen[i]);
                let r = choose|r: int| 0 <= r < s && r < scc.len() && #[trigger] scc[r] == seen[i][0];
                assert(scc[r] != scc[s as int]);
            }
        }
    }
    assert forall|i: int, j: int| from <= i <= j < after.len() implies scc.index_of(
        (#[trigger] after[i])[0],
    ) <= scc.index_of((#[trigger] after[j])[0]) by {
        if j < seen.len() {
            assert(after.take(seen.len() as int)[i] == seen[i]);
            assert(after.take(seen.len() as int)[j] == seen[j]);
        } else {
            assert(after[j][0] == scc[s as int]);
            assert(scc.index_of(scc[s as int]) == s);
            if i < seen.len() {
                assert(after.take(seen.len() as int)[i] == seen[i]);
                let r = choose|r: int| 0 <= r < s && r < scc.len() && #[trigger] scc[r] == seen[i][0];
                assert(scc.index_of(scc[r]) == r);
            } else {
                assert(after[i][0] == scc[s as int]);
            }
        }
    }
}

/// Every continuation of `path` back to the root `s` is one of the entries of
/// `seen` from position `from` on.
pub open spec fn covered_all(
    seen: Seq<Seq<usize>>,
    from: int,
    adj: Seq<Seq<usize>>,
    scc: Seq<usize>,
    s: usize,
    path: Seq<usize>,
) -> bool {
    forall|q: Seq<usize>| #[trigger]
        continues(adj, scc, s, path, q) ==> found_since(seen, from, nodes_of(scc, path + q))
}

/// Every continuation of `path` back to the root `s` whose first step is
/// among `taken` is one of the entries of `seen` from position `from` on.
pub open spec fn covered(
    seen: Seq<Seq<usize>>,
    from: int,
    adj: Seq<Seq<usize>>,
    scc: Seq<usize>,
    s: usize,
    path: Seq<usize>,
    taken: Seq<usize>,
) -> bool {
    forall|q: Seq<usize>| #[trigger]
        continues(adj, scc, s, path, q) && taken.contains(first_step(s, q)) ==> found_since(
            seen,
            from,
            nodes_of(scc, path + q),
        )
}

/// Where successor `k` is the root, the path itself is the one continuation
/// through it, and it is found as soon as the path joins the log.
pub proof fn lemma_cover_emit(
    seen: Seq<Seq<usize>>,
    from: int,
    adj: Seq<Seq<usize>>,
    scc: Seq<usize>,
    s: usize,
    path: Seq<usize>,
    adjacent: Seq<usize>,
    k: int,
)
    requires
        0 <= from <= seen.len(),
        0 <= k < adjacent.len(),
        adjacent[k] == s,
        covered(seen, from, adj, scc, s, path, adjacent.take(k)),
    ensures
        covered(seen.push(nodes_of(scc, path)), from, adj, scc, s, path, adjacent.take(k + 1)),
{
    let more = seen.push(nodes_of(scc, path));
    assert(adjacent.take(k + 1).drop_last() == adjacent.take(k));
    assert forall|q: Seq<usize>| #[trigger]
        continues(adj, scc, s, path, q) && adjacent.take(k + 1).contains(
            first_step(s, q),
        ) implies found_since(more, from, nodes_of(scc, path + q)) by {
        if adjacent.take(k).contains(first_step(s, q)) {
            let i = choose|i: int|
                from <= i < seen.len() && #[trigger] seen[i] == nodes_of(scc, path + q);
            assert(more[i] == nodes_of(scc, path + q));
        } else {
            assert(first_step(s, q) == adjacent[k]);
            assert(path + q =~= path);
            assert(more[seen.len() as int] == nodes_of(scc, path));
        }
    }
}

/// Where the search went on through successor `k` and found every
/// continuation from there, every continuation through it is found.
pub proof fn lemma_cover_descend(
    seen: Seq<Seq<usize>>,
    after: Seq<Seq<usize>>,
    from: int,
    adj: Seq<Seq<usize>>,
    scc: Seq<usize>,
    s: usize,
    path: Seq<usize>,
    adjacent: Seq<usize>,
    k: int,
)
    requires
        0 <= from <= seen.len() <= after.len(),
        after.take(seen.len() as int) =~= seen,
        0 <= k < adjacent.len(),
        adjacent[k] != s,
        covered(seen, from, adj, scc, s, path, adjacent.take(k)),
        covered_all(after, seen.len() as int, adj, scc, s, path.push(adjacent[k])),
    ensures
        covered(after, from, adj, scc, s, path, adjacent.take(k + 1)),
{
    assert(adjacent.take(k + 1).drop_last() == adjacent.take(k));
    assert forall|q: Seq<usize>| #[trigger]
        continues(adj, scc, s, path, q) && adjacent.take(k + 1).contains(
            first_step(s, q),
        ) implies found_since(after, from, nodes_of(scc, path + q)) by {
        if adjacent.take(k).contains(first_step(s, q)) {
            let i = choose|i: int|
                from <= i < seen.len() && #[trigger] seen[i] == nodes_of(scc, path + q);
            assert(after.take(seen.len() as int)[i] == seen[i]);
            assert(after[i] == nodes_of(scc, path + q));
        } else {
            assert(first_step(s, q) == adjacent[k]);
            lemma_continues_step(adj, scc, s, path, q);
            assert(continues(adj, scc, s, path.push(adjacent[k]), q.skip(1)));
            let i = choose|i: int|
                seen.len() <= i < after.len() && #[trigger] after[i] == nodes_of(scc, path + q);
            assert(after[i] == nodes_of(scc, path + q));
        }
    }
}

/// Where no sequence that leads back to the root beside the path starts at
/// successor `k`, there is no continuation through it.
pub proof fn lemma_cover_skip(
    seen: Seq<Seq<usize>>,
    from: int,
    adj: Seq<Seq<usize>>,
    scc: Seq<usize>,
    s: usize,
    path: Seq<usize>,
    adjacent: Seq<usize>,
    k: int,
)
    requires
        0 <= k < adjacent.len(),
        adjacent[k] != s,
        forall|q: Seq<usize>| #[trigger] avoiding(adj, scc, s, path, q) ==> q[0] != adjacent[k],
        covered(seen, from, adj, scc, s, path, adjacent.take(k)),
    ensures
        covered(seen, from, adj, scc, s, path, adjacent.take(k + 1)),
{
    assert(adjacent.take(k + 1).drop_last() == adjacent.take(k));
    assert forall|q: Seq<usize>| #[trigger]
        continues(adj, scc, s, path, q) && adjacent.take(k + 1).contains(
            first_step(s, q),
        ) implies found_since(seen, from, nodes_of(scc, path + q)) by {
        if !adjacent.take(k).contains(first_step(s, q)) {
            assert(first_step(s, q) == adjacent[k]);
            assert(avoiding(adj, scc, s, path, q));
        }
    }
}

/// When all successors of the last vertex of the path have been dealt with,
/// every continuation of the path is found.
pub proof fn lemma_cover_done(
    seen: Seq<Seq<usize>>,
    from: int,
    adj: Seq<Seq<usize>>,
    scc: Seq<usize>,
    s: usize,
    path: Seq<usize>,
)
    requires
        path.len() > 0,
        covered(seen, from, adj, scc, s, path, local_successors(adj, scc, path.last() as int)),
    ensures
        covered_all(seen, from, adj, scc, s, path),
{
    assert forall|q: Seq<usize>| #[trigger] continues(adj, scc, s, path, q) implies found_since(
        seen,
        from,
        nodes_of(scc, path + q),
    ) by {
        assert(local_successors(adj, scc, path.last() as int).contains(first_step(s, q)));
    }
}

/// What was found stays found when the log grows.
pub proof fn lemma_cover_stays(
    seen: Seq<Seq<usize>>,
    after: Seq<Seq<usize>>,
    from: int,
    adj: Seq<Seq<usize>>,
    scc: Seq<usize>,
    s: usize,
    path: Seq<usize>,
)
    requires
        0 <= from <= seen.len() <= after.len(),
        after.take(seen.len() as int) =~= seen,
        covered_all(seen, from, adj, scc, s, path),
    ensures
        covered_all(after, from, adj, scc, s, path),
{
    assert forall|q: Seq<usize>| #[trigger] continues(adj, scc, s, path, q) implies found_since(
        after,
        from,
        nodes_of(scc, path + q),
    ) by {
        let i = choose|i: int| from <= i < seen.len() && #[trigger] seen[i] == nodes_of(scc, path + q);
        assert(after.take(seen.len() as int)[i] == seen[i]);
        assert(after[i] == nodes_of(scc, path + q));
    }
}

/// What was found since a later position was found since an earlier one.
pub proof fn lemma_cover_since(
    seen: Seq<Seq<usize>>,
    since: int,
    from: int,
    adj: Seq<Seq<usize>>,
    scc: Seq<usize>,
    s: usize,
    path: Seq<usize>,
)
    requires
        from <= since,
        covered_all(seen, since, adj, scc, s, path),
    ensures
        covered_all(seen, from, adj, scc, s, path),
{
    assert forall|q: Seq<usize>| #[trigger] continues(adj, scc, s, path, q) implies found_since(
        seen,
        from,
        nodes_of(scc, path + q),
    ) by {
        let i = choose|i: int| since <= i < seen.len() && #[trigger] seen[i] == nodes_of(scc, path + q);
        assert(seen[i] == nodes_of(scc, path + q));
    }
}

} // verus!
