//! Blocked marks and waiting sets, and what a release does to them.

use vstd::prelude::*;

verus! {

/// The positions that are blocked.
pub open spec fn blocked_set(blocked: Seq<bool>) -> Set<int> {
    Set::new(|x: int| 0 <= x < blocked.len() && blocked[x])
}

/// Where nothing gets blocked and one blocked position is released, fewer
/// positions are blocked afterwards.
pub proof fn lemma_fewer_blocked(before: Seq<bool>, after: Seq<bool>, v: int)
    requires
        before.len() == after.len(),
        forall|x: int| 0 <= x < after.len() && #[trigger] after[x] ==> before[x],
        0 <= v < before.len(),
        before[v],
        !after[v],
    ensures
        blocked_set(after).len() < blocked_set(before).len(),
{
    let range = vstd::set_lib::set_int_range(0, before.len() as int);
    vstd::set_lib::lemma_int_range(0, before.len() as int);
    vstd::set_lib::lemma_len_subset(blocked_set(before), range);
    let rest = blocked_set(before).remove(v);
    assert(blocked_set(before).contains(v));
    assert(blocked_set(after).subset_of(rest));
    vstd::set_lib::lemma_len_subset(blocked_set(after), rest);
}

/// Whoever waits on a member of `region` is a member too.
pub open spec fn closed_under(region: Set<usize>, waiting: Seq<Set<usize>>) -> bool {
    forall|y: int, u: usize|
        0 <= y < waiting.len() && region.contains(y as usize) && #[trigger] waiting[y].contains(u)
            ==> region.contains(u)
}

/// What a release does to the blocked marks and the waiting sets. Nothing
/// gets blocked and nothing outside `region` changes; the set of every
/// released position is emptied and no other set changes; and whoever waited
/// on a released position is no longer blocked.
pub open spec fn released(
    blocked: Seq<bool>,
    waiting: Seq<Set<usize>>,
    blocked_after: Seq<bool>,
    waiting_after: Seq<Set<usize>>,
    region: Set<usize>,
) -> bool {
    &&& blocked_after.len() == blocked.len()
    &&& waiting_after.len() == waiting.len()
    &&& forall|x: int| 0 <= x < blocked.len() && #[trigger] blocked_after[x] ==> blocked[x]
    &&& forall|x: int|
        0 <= x < blocked.len() && !region.contains(x as usize) ==> #[trigger] blocked_after[x]
            == blocked[x]
    &&& forall|x: int|
        0 <= x < blocked.len() ==> #[trigger] waiting_after[x] == if blocked[x]
            && !blocked_after[x] {
            Set::<usize>::empty()
        } else {
            waiting[x]
        }
    &&& forall|y: int, u: usize|
        0 <= y < blocked.len() && blocked[y] && !blocked_after[y] && #[trigger] waiting[y].contains(
            u,
        ) ==> !blocked_after[u as int]
}

/// `chain` is a sequence of blocked vertices, each waiting for the one
/// before it.
pub open spec fn is_chain(blocked: Seq<bool>, waiting: Seq<Set<usize>>, chain: Seq<usize>) -> bool {
    &&& chain.len() > 0
    &&& forall|i: int|
        0 <= i < chain.len() ==> (#[trigger] chain[i]) < blocked.len() && blocked[chain[i] as int]
    &&& forall|i: int|
        0 < i < chain.len() ==> waiting[chain[i - 1] as int].contains(#[trigger] chain[i])
}

/// A chain of blocked vertices, each waiting for the one before it, leads
/// from `v` to `x`.
pub open spec fn joined(blocked: Seq<bool>, waiting: Seq<Set<usize>>, v: usize, x: usize) -> bool {
    exists|chain: Seq<usize>| #[trigger]
        is_chain(blocked, waiting, chain) && chain[0] == v && chain.last() == x
}

/// What the release of `v` does, exactly. The vertices that a chain joins to
/// `v` are unblocked and their sets emptied; every other vertex keeps its
/// mark and its set.
pub open spec fn released_exactly(
    blocked: Seq<bool>,
    waiting: Seq<Set<usize>>,
    blocked_after: Seq<bool>,
    waiting_after: Seq<Set<usize>>,
    v: usize,
) -> bool {
    &&& blocked_after.len() == blocked.len()
    &&& waiting_after.len() == waiting.len()
    &&& forall|x: int|
        0 <= x < blocked.len() ==> #[trigger] blocked_after[x] == (blocked[x] && !joined(
            blocked,
            waiting,
            v,
            x as usize,
        ))
    &&& forall|x: int|
        0 <= x < blocked.len() ==> #[trigger] waiting_after[x] == if joined(
            blocked,
            waiting,
            v,
            x as usize,
        ) {
            Set::<usize>::empty()
        } else {
            waiting[x]
        }
}

/// A chain from `w`, in a state where `v` and more are released already, is
/// the tail of a chain from `v` in the state before, if `w` waited for `v`.
pub proof fn lemma_joined_through(
    blocked: Seq<bool>,
    waiting: Seq<Set<usize>>,
    now_blocked: Seq<bool>,
    now_waiting: Seq<Set<usize>>,
    v: usize,
    w: usize,
    x: usize,
)
    requires
        now_blocked.len() == blocked.len(),
        now_waiting.len() == waiting.len(),
        waiting.len() == blocked.len(),
        v < blocked.len(),
        blocked[v as int],
        waiting[v as int].contains(w),
        forall|y: int| 0 <= y < blocked.len() && #[trigger] now_blocked[y] ==> blocked[y],
        forall|y: int|
            0 <= y < blocked.len() && now_blocked[y] ==> #[trigger] now_waiting[y] == waiting[y],
        joined(now_blocked, now_waiting, w, x),
    ensures
        joined(blocked, waiting, v, x),
{
    let tail = choose|chain: Seq<usize>| #[trigger]
        is_chain(now_blocked, now_waiting, chain) && chain[0] == w && chain.last() == x;
    let chain = seq![v] + tail;
    assert forall|i: int| 0 <= i < chain.len() implies (#[trigger] chain[i]) < blocked.len()
        && blocked[chain[i] as int] by {
        if i > 0 {
            assert(chain[i] == tail[i - 1]);
            assert(now_blocked[tail[i - 1] as int]);
        }
    }
    assert forall|i: int| 0 < i < chain.len() implies waiting[chain[i - 1] as int].contains(
        #[trigger] chain[i],
    ) by {
        assert(chain[i] == tail[i - 1]);
        if i > 1 {
            assert(chain[i - 1] == tail[i - 2]);
            assert(now_waiting[tail[(i - 1) - 1] as int].contains(tail[i - 1]));
            assert(now_blocked[tail[i - 2] as int]);
            assert(now_waiting[tail[i - 2] as int] == waiting[tail[i - 2] as int]);
        }
    }
    assert(is_chain(blocked, waiting, chain) && chain[0] == v && chain.last() == x);
}

/// A release that frees whoever waits for a freed vertex frees every vertex
/// of a chain from `v`.
pub proof fn lemma_chain_released(
    blocked: Seq<bool>,
    waiting: Seq<Set<usize>>,
    blocked_after: Seq<bool>,
    waiting_after: Seq<Set<usize>>,
    region: Set<usize>,
    chain: Seq<usize>,
    upto: int,
)
    requires
        released(blocked, waiting, blocked_after, waiting_after, region),
        is_chain(blocked, waiting, chain),
        !blocked_after[chain[0] as int],
        0 <= upto < chain.len(),
    ensures
        !blocked_after[chain[upto] as int],
    decreases upto,
{
    if upto > 0 {
        lemma_chain_released(blocked, waiting, blocked_after, waiting_after, region, chain, upto - 1);
        assert(waiting[chain[upto - 1] as int].contains(chain[upto]));
    }
}

/// A release within a region that frees only what a chain joins to `v` is
/// exact.
pub proof fn lemma_released_exactly(
    blocked: Seq<bool>,
    waiting: Seq<Set<usize>>,
    blocked_after: Seq<bool>,
    waiting_after: Seq<Set<usize>>,
    region: Set<usize>,
    v: usize,
)
    requires
        released(blocked, waiting, blocked_after, waiting_after, region),
        blocked.len() <= usize::MAX,
        waiting.len() == blocked.len(),
        v < blocked.len(),
        !blocked_after[v as int],
        forall|x: int|
            0 <= x < blocked.len() && blocked[x] && !(#[trigger] blocked_after[x]) ==> joined(
                blocked,
                waiting,
                v,
                x as usize,
            ),
    ensures
        released_exactly(blocked, waiting, blocked_after, waiting_after, v),
{
    assert forall|x: int| 0 <= x < blocked.len() implies #[trigger] blocked_after[x] == (blocked[x]
        && !joined(blocked, waiting, v, x as usize)) by {
        if joined(blocked, waiting, v, x as usize) {
            let chain = choose|chain: Seq<usize>| #[trigger]
                is_chain(blocked, waiting, chain) && chain[0] == v && chain.last() == x as usize;
            lemma_chain_released(
                blocked,
                waiting,
                blocked_after,
                waiting_after,
                region,
                chain,
                chain.len() - 1,
            );
        }
    }
    assert forall|x: int| 0 <= x < blocked.len() implies #[trigger] waiting_after[x] == if joined(
        blocked,
        waiting,
        v,
        x as usize,
    ) {
        Set::<usize>::empty()
    } else {
        waiting[x]
    } by {
        if joined(blocked, waiting, v, x as usize) {
            let chain = choose|chain: Seq<usize>| #[trigger]
                is_chain(blocked, waiting, chain) && chain[0] == v && chain.last() == x as usize;
            assert(blocked[chain[chain.len() - 1] as int]);
            assert(!blocked_after[x]);
        }
    }
}

} // verus!
