//! The search for the elementary cycles of one strongly connected component.

use ahash::AHashSet;
use crate::blocking::{
    blocked_set,
    closed_under,
    is_chain,
    joined,
    lemma_fewer_blocked,
    lemma_joined_through,
    lemma_released_exactly,
    released,
    released_exactly,
};
use crate::graph::{
    has_edge,
    is_elementary_cycle,
    next_position,
    no_parallel_edges,
    rotated,
    well_formed,
    DiGraph,
};
use crate::local::{
    avoiding,
    barren,
    continues,
    is_local_cycle,
    least_position,
    lemma_avoiding_tail,
    lemma_cycle_continues,
    lemma_distinct_below,
    lemma_least_position,
    lemma_rotated_local_cycle,
    lemma_to_local_distinct,
    lemma_to_local_sound,
    local_successors,
    nodes_of,
    position,
    to_local,
};
use crate::order::{
    branches_beyond,
    component_cycles,
    cycles_beyond,
    emitted,
    lemma_beyond_prefix,
    lemma_continues_join,
    lemma_emitted_chain,
    lemma_emitted_within,
    lemma_roots_prefix,
    lemma_step_descend,
    lemma_step_emit,
    lemma_step_root,
    lemma_step_skip,
    roots_upto,
    went_on,
};
use crate::record::{
    covered,
    covered_all,
    found_since,
    lemma_cover_descend,
    lemma_cover_done,
    lemma_cover_emit,
    lemma_cover_since,
    lemma_cover_skip,
    lemma_cover_stays,
    lemma_log_descend,
    lemma_log_emit,
    lemma_log_root,
    lemma_log_skip,
    log_inv,
    logged,
    rooted,
    rooted_before,
    roots_in_order,
};
use crate::visitor::{lemma_reports_chain, reports, takes_cycles, CycleVisitor};
use crate::waiting::{all_members, clear, empty_set, insert, members, to_vec};
use std::ops::ControlFlow;
use vstd::prelude::*;

verus! {

/// The state of the search within one strongly connected component. Its
/// vertices are known by their positions in `scc`.
pub struct CycleFinder<'a> {
    graph: &'a DiGraph,
    scc: Vec<usize>,
    blocked: Vec<bool>,
    b: Vec<AHashSet<usize>>,
    stack: Vec<usize>,
    s: usize,
    /// The positions in `scc` of the nodes on `stack`.
    path: Ghost<Seq<usize>>,
    /// For each entry of `stack`, the vertices that were taken off the stack
    /// again since it was put there.
    explored: Ghost<Seq<Set<usize>>>,
    /// The vertices that the search from the current root may touch: those
    /// from the root on, and earlier ones through which no cycle was found
    /// when they were roots.
    play: Ghost<Set<usize>>,
    /// The vertices that were taken off the stack since the current root was
    /// put there.
    popped: Ghost<Set<usize>>,
}

impl<'a> CycleFinder<'a> {
    /// For each vertex, the vertices that wait for it to be unblocked.
    pub closed spec fn waiting(&self) -> Seq<Set<usize>> {
        all_members(self.b@)
    }

    /// The parts of the state fit the component and each other.
    pub closed spec fn frame(&self) -> bool {
        &&& well_formed(self.graph@)
        &&& self.scc@.no_duplicates()
        &&& forall|i: int| 0 <= i < self.scc.len() ==> (#[trigger] self.scc@[i]) < self.graph@.len()
        &&& self.blocked.len() == self.scc.len()
        &&& self.b.len() == self.scc.len()
        &&& forall|y: int, u: usize|
            0 <= y < self.scc.len() && (#[trigger] self.waiting()[y].contains(u)) ==> u
                < self.scc.len()
    }

    /// Nothing but the blocked marks and the waiting sets differs.
    pub closed spec fn same_search(&self, other: &Self) -> bool {
        &&& self.graph == other.graph
        &&& self.scc@ == other.scc@
        &&& self.stack@ == other.stack@
        &&& self.s == other.s
        &&& self.path@ == other.path@
        &&& self.explored@ == other.explored@
        &&& self.play@ == other.play@
        &&& self.popped@ == other.popped@
    }

    /// Nothing but the blocked marks, the waiting sets and the record of
    /// what was explored differs.
    pub closed spec fn same_root(&self, other: &Self) -> bool {
        &&& self.graph == other.graph
        &&& self.scc@ == other.scc@
        &&& self.stack@ == other.stack@
        &&& self.s == other.s
        &&& self.path@ == other.path@
    }

    /// The blocked marks, one for each vertex.
    pub closed spec fn marks(&self) -> Seq<bool> {
        self.blocked@
    }

    /// The nodes on the stack, from the root up.
    pub closed spec fn on_stack(&self) -> Seq<usize> {
        self.stack@
    }

    /// The position of the current root.
    pub closed spec fn root(&self) -> usize {
        self.s
    }

    /// Nothing has been searched yet: no vertex has been on the stack.
    pub closed spec fn untouched(&self) -> bool {
        &&& self.path@.len() == 0
        &&& self.explored@.len() == 0
        &&& self.popped@ == Set::<usize>::empty()
    }

    /// The component that is searched, as nodes of the graph.
    pub closed spec fn component(&self) -> Seq<usize> {
        self.scc@
    }

    /// The graph that is searched.
    pub closed spec fn searched(&self) -> &DiGraph {
        self.graph
    }

    /// What holds of the search whenever a vertex is about to be entered or
    /// has just been left.
    pub closed spec fn inv(&self) -> bool {
        let n = self.scc.len();
        let path = self.path@;
        let explored = self.explored@;
        let waiting = self.waiting();
        &&& self.frame()
        &&& self.s < n
        &&& path.len() == self.stack.len()
        &&& explored.len() == path.len()
        &&& forall|i: int|
            0 <= i < path.len() ==> (#[trigger] path[i]) < n && self.stack@[i]
                == self.scc@[path[i] as int] && self.blocked@[path[i] as int]
        &&& path.len() > 0 ==> path[0] == self.s
        &&& forall|i: int|
            0 < i < path.len() ==> local_successors(
                self.graph@,
                self.scc@,
                path[i - 1] as int,
            ).contains(#[trigger] path[i])
        &&& path.no_duplicates()
        &&& forall|x: int|
            0 <= x < n && x != self.s && !(#[trigger] self.blocked@[x]) ==> waiting[x]
                == Set::<usize>::empty()
        &&& forall|i: int, k: int|
            0 <= k <= i < path.len() ==> !(#[trigger] explored[i].contains(path[k]))
        &&& forall|i: int, j: int|
            0 <= i <= j < path.len() ==> (#[trigger] explored[j]).subset_of(#[trigger] explored[i])
        &&& forall|i: int|
            1 <= i < path.len() ==> waiting[(#[trigger] path[i]) as int].subset_of(explored[i])
        &&& forall|i: int, x: usize|
            0 <= i < path.len() && (#[trigger] explored[i].contains(x)) ==> x < n
                && waiting[x as int].subset_of(explored[i])
    }

    /// The blocked marks hide no cycle. A vertex after the root that is
    /// blocked and not on the stack has only blocked successors and waits for
    /// each of them; and no sequence that leads back to the root beside the
    /// stack starts at a blocked vertex.
    pub closed spec fn thorough(&self) -> bool {
        &&& forall|x: int, j: int|
            self.s < x < self.scc.len() && self.blocked@[x] && !self.path@.contains(x as usize) && 0
                <= j < local_successors(self.graph@, self.scc@, x).len() ==> {
                let w = #[trigger] local_successors(self.graph@, self.scc@, x)[j];
                self.blocked@[w as int] && self.waiting()[w as int].contains(x as usize)
            }
        &&& forall|q: Seq<usize>| #[trigger]
            avoiding(self.graph@, self.scc@, self.s, self.path@, q) ==> !self.blocked@[q[0] as int]
    }

    /// The search touches no vertex before the root through which a cycle
    /// was found when it was the root. The vertices in play include all from
    /// the root on and whoever waits for one in play; the earlier ones among
    /// them are barren; and an earlier vertex out of play is blocked.
    pub closed spec fn sealed(&self) -> bool {
        let play = self.play@;
        &&& forall|x: usize| self.s <= x < self.scc.len() ==> #[trigger] play.contains(x)
        &&& closed_under(play, self.waiting())
        &&& forall|x: usize| #[trigger]
            play.contains(x) && x < self.s ==> barren(self.graph@, self.scc@, x)
        &&& forall|x: int|
            0 <= x < self.s && !play.contains(x as usize) ==> #[trigger] self.blocked@[x]
        &&& forall|i: int, x: usize|
            0 <= i < self.explored@.len() && #[trigger] self.explored@[i].contains(x)
                ==> play.contains(x)
        &&& forall|i: int| 0 <= i < self.path@.len() ==> play.contains(#[trigger] self.path@[i])
    }

    /// Whoever waits for a vertex after the root, or for one that was taken
    /// off the stack, was itself taken off the stack since the root was put
    /// there.
    pub closed spec fn tidy(&self) -> bool {
        let popped = self.popped@;
        &&& forall|y: int, u: usize|
            0 <= y < self.scc.len() && (self.s < y || popped.contains(y as usize))
                && #[trigger] self.waiting()[y].contains(u) ==> popped.contains(u)
        &&& forall|x: usize| #[trigger]
            popped.contains(x) ==> self.play@.contains(x) && x != self.s && x < self.scc.len()
        &&& self.path@.len() > 0 ==> popped == self.explored@[0]
    }

    /// The vertices that a release of the vertex on top of the stack may reach.
    pub closed spec fn region(&self) -> Set<usize> {
        if self.path@.len() == 1 {
            self.play@
        } else {
            self.explored@.last().insert(self.path@.last())
        }
    }

    /// The search stands between two roots: the stack is empty, and no
    /// vertex waits for an unblocked one.
    pub closed spec fn at_rest(&self) -> bool {
        &&& self.frame()
        &&& self.stack.len() == 0
        &&& self.path@.len() == 0
        &&& self.explored@.len() == 0
        &&& forall|x: int|
            0 <= x < self.scc.len() && !(#[trigger] self.blocked@[x]) ==> self.waiting()[x]
                == Set::<usize>::empty()
    }

    /// The search stands between two roots, and `next` is the root to come.
    pub closed spec fn at_rest_before(&self, next: usize) -> bool {
        let play = self.play@;
        &&& self.at_rest()
        &&& forall|x: usize| next <= x < self.scc.len() ==> #[trigger] play.contains(x)
        &&& closed_under(play, self.waiting())
        &&& forall|x: usize| #[trigger]
            play.contains(x) && x < next ==> barren(self.graph@, self.scc@, x)
        &&& forall|x: int|
            0 <= x < next && x < self.scc.len() && !play.contains(x as usize)
                ==> #[trigger] self.blocked@[x]
    }

    /// A search of the component `scc` of `graph` that has not begun.
    pub fn new(graph: &'a DiGraph, scc: Vec<usize>) -> (finder: Self)
        requires
            well_formed(graph@),
            scc@.no_duplicates(),
            forall|i: int| 0 <= i < scc.len() ==> (#[trigger] scc@[i]) < graph@.len(),
        ensures
            finder.at_rest_before(0),
            finder.searched() == graph,
            finder.component() == scc@,
            finder.marks() == Seq::new(scc.len() as nat, |x: int| false),
            finder.waiting() == Seq::new(scc.len() as nat, |x: int| Set::<usize>::empty()),
            finder.on_stack() == Seq::<usize>::empty(),
            finder.root() == 0,
            finder.untouched(),
            scc.len() > 0 ==> finder.inv() && finder.thorough() && finder.sealed() && finder.tidy(),
    {
        let num_vertices: usize = scc.len();
        let mut blocked: Vec<bool> = Vec::new();
        let mut b: Vec<AHashSet<usize>> = Vec::new();
        let mut x: usize = 0;
        while x < num_vertices
            invariant
                x <= num_vertices,
                blocked.len() == x,
                b.len() == x,
                forall|y: int| 0 <= y < x ==> !(#[trigger] blocked@[y]),
                forall|y: int| 0 <= y < x ==> members(#[trigger] b@[y]) == Set::<usize>::empty(),
            decreases num_vertices - x,
        {
            blocked.push(false);
            b.push(empty_set());
            x += 1;
        }
        let finder = CycleFinder {
            graph,
            scc,
            blocked,
            b,
            stack: Vec::new(),
            s: 0,
            path: Ghost(Seq::empty()),
            explored: Ghost(Seq::empty()),
            play: Ghost(Set::new(|x: usize| x < num_vertices)),
            popped: Ghost(Set::empty()),
        };
        proof {
            assert(finder.marks() =~= Seq::new(num_vertices as nat, |x: int| false));
            assert(finder.waiting() =~= Seq::new(
                num_vertices as nat,
                |x: int| Set::<usize>::empty(),
            ));
            assert(finder.at_rest_before(0));
            if num_vertices > 0 {
                assert(finder.inv());
                assert(finder.thorough());
                assert(finder.sealed());
                assert(finder.tidy());
            }
        }
        finder
    }

    /// Hands the visitor every cycle that the search finds in the component,
    /// root by root, until the visitor breaks off.
    #[verifier::spinoff_prover]
    pub fn visit<B, V: CycleVisitor<B>>(&mut self, visitor: &mut V) -> (flow: ControlFlow<B>)
        requires
            old(self).at_rest_before(0),
            takes_cycles::<B, V>(old(visitor).rule(), old(self).searched()),
        ensures
            logged(
                final(visitor).seen(),
                old(visitor).seen().len() as int,
                old(self).component(),
                Seq::empty(),
                no_parallel_edges(old(self).searched()@),
            ),
            emitted(
                old(visitor).seen(),
                final(visitor).seen(),
                component_cycles(old(self).searched()@, old(self).component()),
                went_on(flow),
            ),
            roots_in_order(
                final(visitor).seen(),
                old(visitor).seen().len() as int,
                old(self).component(),
            ),
            match flow {
                ControlFlow::Continue(_) => {
                    &&& final(self).at_rest_before(old(self).component().len() as usize)
                    &&& final(self).on_stack() == Seq::<usize>::empty()
                    &&& old(self).component().len() > 0 ==> final(self).root() + 1 == old(
                        self,
                    ).component().len() && final(self).marks()[final(self).root() as int]
                    &&& final(self).searched() == old(self).searched()
                    &&& final(self).component() == old(self).component()
                    &&& reports(*old(visitor), *final(visitor), old(self).searched(), None::<B>)
                    &&& forall|m: usize|
                        m < old(self).component().len() ==> #[trigger] covered_all(
                            final(visitor).seen(),
                            old(visitor).seen().len() as int,
                            old(self).searched()@,
                            old(self).component(),
                            m,
                            seq![m],
                        )
                },
                ControlFlow::Break(value) => {
                    &&& reports(*old(visitor), *final(visitor), old(self).searched(), Some(value))
                    &&& final(self).on_stack() == final(visitor).seen().last()
                },
            },
    {
        proof {
            assert(visitor.seen().take(visitor.seen().len() as int) =~= visitor.seen());
            assert(visitor.seen() =~= visitor.seen() + Seq::<Seq<usize>>::empty().take(0));
        }
        let n: usize = self.scc.len();
        let ghost simple = no_parallel_edges(self.graph@);
        let ghost from = visitor.seen().len() as int;
        let mut s: usize = 0;
        while s < n
            invariant
                s <= n,
                n == self.scc.len(),
                self.at_rest_before(s),
                s > 0 ==> self.s + 1 == s && self.blocked@[self.s as int],
                simple == no_parallel_edges(self.graph@),
                from == old(visitor).seen().len(),
                logged(visitor.seen(), from, self.scc@, Seq::empty(), simple),
                roots_in_order(visitor.seen(), from, self.scc@),
                emitted(
                    old(visitor).seen(),
                    visitor.seen(),
                    roots_upto(self.graph@, self.scc@, s as int),
                    true,
                ),
                forall|i: int|
                    from <= i < visitor.seen().len() ==> rooted_before(
                        self.scc@,
                        s as int,
                        #[trigger] visitor.seen()[i],
                    ),
                self.graph == old(self).graph,
                self.scc@ == old(self).scc@,
                takes_cycles::<B, V>(visitor.rule(), self.graph),
                reports(*old(visitor), *visitor, self.graph, None::<B>),
                forall|m: usize|
                    m < s ==> #[trigger] covered_all(
                        visitor.seen(),
                        from,
                        self.graph@,
                        self.scc@,
                        m,
                        seq![m],
                    ),
            decreases n - s,
        {
            let ghost resting = *self;
            self.s = s;
            proof {
                self.popped@ = Set::<usize>::empty();
            }
            let ghost rested = *self;
            proof {
                assert(self.waiting() == resting.waiting());
                assert(resting.frame());
                assert(self.frame());
            }
            let mut x: usize = s;
            while x < n
                invariant
                    s <= x <= n,
                    n == self.scc.len(),
                    self.frame(),
                    rested.frame(),
                    self.same_search(&rested),
                    self.b@ == rested.b@,
                    forall|y: int| 0 <= y < s ==> #[trigger] self.blocked@[y] == rested.blocked@[y],
                    forall|y: int| s <= y < x ==> !(#[trigger] self.blocked@[y]),
                decreases n - x,
            {
                let ghost before = self.waiting();
                self.blocked[x] = false;
                proof {
                    assert(self.waiting() == before);
                }
                x += 1;
            }
            proof {
                assert(self.waiting() == rested.waiting());
            }
            let mut x: usize = s + 1;
            while x < n
                invariant
                    s < x <= n || (x == s + 1 && s < n),
                    n == self.scc.len(),
                    self.frame(),
                    rested.frame(),
                    self.same_search(&rested),
                    forall|y: int| 0 <= y < s ==> #[trigger] self.blocked@[y] == rested.blocked@[y],
                    forall|y: int| s <= y < n ==> !(#[trigger] self.blocked@[y]),
                    forall|y: int| 0 <= y <= s ==> #[trigger] self.waiting()[y] == rested.waiting()[y],
                    forall|y: int| s < y < x ==> #[trigger] self.waiting()[y] == Set::<usize>::empty(),
                    forall|y: int| x <= y < n ==> #[trigger] self.waiting()[y] == rested.waiting()[y],
                decreases n - x,
            {
                let ghost before = self.waiting();
                clear(&mut self.b[x]);
                proof {
                    assert forall|y: int| 0 <= y < n && y != x implies #[trigger] self.waiting()[y]
                        == before[y] by {}
                    assert(self.waiting()[x as int] == Set::<usize>::empty());
                    assert forall|y: int, u: usize|
                        0 <= y < self.scc.len() && (#[trigger] self.waiting()[y].contains(u)) implies u
                        < self.scc.len() by {
                        if y != x {
                            assert(before[y].contains(u));
                        }
                    }
                }
                x += 1;
            }
            let ghost before = *visitor;
            let ghost entered = *self;
            proof {
                assert(rested.waiting() == resting.waiting());
                assert(rested.blocked@ == resting.blocked@);
                resting.lemma_root_ready(*self, s);
            }
            let ghost mut was_found = false;
            let flow = self.circuit(s, visitor);
            proof {
                assert(entered.path@ =~= Seq::<usize>::empty());
                lemma_step_root(entered.graph@, entered.scc@, s);
                lemma_emitted_chain(
                    old(visitor).seen(),
                    before.seen(),
                    visitor.seen(),
                    roots_upto(entered.graph@, entered.scc@, s as int),
                    cycles_beyond(
                        entered.graph@,
                        entered.scc@,
                        s,
                        Seq::<usize>::empty().push(s),
                    ),
                    went_on(flow),
                );
                lemma_roots_prefix(entered.graph@, entered.scc@, s + 1, n as int);
                lemma_emitted_within(
                    old(visitor).seen(),
                    visitor.seen(),
                    roots_upto(entered.graph@, entered.scc@, s + 1),
                    component_cycles(entered.graph@, entered.scc@),
                    went_on(flow),
                );
                assert(entered.path@.push(s) =~= seq![s]);
                assert(nodes_of(entered.scc@, seq![s]) =~= seq![entered.scc@[s as int]]);
                lemma_log_root(before.seen(), visitor.seen(), from, entered.scc@, s, simple);
            }
            match flow {
                ControlFlow::Break(value) => {
                    proof {
                        lemma_reports_chain(
                            *old(visitor),
                            before,
                            *visitor,
                            old(self).graph,
                            Some(value),
                        );
                    }
                    return ControlFlow::Break(value);
                },
                ControlFlow::Continue(found) => {
                    proof {
                        was_found = found;
                        if !found {
                            assert forall|q: Seq<usize>|
                                !#[trigger] continues(self.graph@, self.scc@, s, seq![s], q) by {
                                if continues(self.graph@, self.scc@, s, seq![s], q) {
                                    assert(found_since(
                                        visitor.seen(),
                                        before.seen().len() as int,
                                        nodes_of(self.scc@, seq![s] + q),
                                    ));
                                }
                            }
                        }
                        lemma_reports_chain(
                            *old(visitor),
                            before,
                            *visitor,
                            old(self).graph,
                            None::<B>,
                        );
                        assert forall|m: usize| m < s + 1 implies #[trigger] covered_all(
                            visitor.seen(),
                            from,
                            self.graph@,
                            self.scc@,
                            m,
                            seq![m],
                        ) by {
                            if m < s {
                                lemma_cover_stays(
                                    before.seen(),
                                    visitor.seen(),
                                    from,
                                    self.graph@,
                                    self.scc@,
                                    m,
                                    seq![m],
                                );
                            } else {
                                lemma_cover_since(
                                    visitor.seen(),
                                    before.seen().len() as int,
                                    from,
                                    self.graph@,
                                    self.scc@,
                                    s,
                                    seq![s],
                                );
                            }
                        }
                    }
                },
            }
            let ghost left = *self;
            self.blocked[s] = true;
            proof {
                self.play@ = left.next_play(was_found);
                assert(left.same_root(&entered));
                left.lemma_root_done(*self, was_found);
            }
            s += 1;
        }
        ControlFlow::Continue(())
    }

    /// Searches on from `v`: hands the visitor every cycle that closes at
    /// the root, and tells whether one was found.
    #[verifier::spinoff_prover]
    fn circuit<B, V: CycleVisitor<B>>(&mut self, v: usize, visitor: &mut V) -> (flow: ControlFlow<
        B,
        bool,
    >)
        requires
            old(self).inv(),
            old(self).thorough(),
            old(self).sealed(),
            old(self).tidy(),
            old(self).path@.len() == 0 ==> old(self).popped@ == Set::<usize>::empty(),
            v < old(self).scc.len(),
            !old(self).blocked@[v as int],
            old(self).path@.len() == 0 ==> v == old(self).s,
            old(self).path@.len() > 0 ==> v != old(self).s && local_successors(
                old(self).graph@,
                old(self).scc@,
                old(self).path@.last() as int,
            ).contains(v),
            takes_cycles::<B, V>(old(visitor).rule(), old(self).graph),
        ensures
            emitted(
                old(visitor).seen(),
                final(visitor).seen(),
                cycles_beyond(
                    old(self).graph@,
                    old(self).scc@,
                    old(self).s,
                    old(self).path@.push(v),
                ),
                went_on(flow),
            ),
            logged(
                final(visitor).seen(),
                old(visitor).seen().len() as int,
                old(self).scc@,
                nodes_of(old(self).scc@, old(self).path@.push(v)),
                no_parallel_edges(old(self).graph@),
            ),
            match flow {
                ControlFlow::Continue(found) => {
                    &&& final(self).inv()
                    &&& final(self).thorough()
                    &&& final(self).sealed()
                    &&& final(self).path@.len() > 0 || found ==> final(self).tidy()
                    &&& final(self).same_root(old(self))
                    &&& covered_all(
                        final(visitor).seen(),
                        old(visitor).seen().len() as int,
                        old(self).graph@,
                        old(self).scc@,
                        old(self).s,
                        old(self).path@.push(v),
                    )
                    &&& reports(*old(visitor), *final(visitor), old(self).graph, None::<B>)
                    &&& found <==> final(visitor).seen().len() > old(visitor).seen().len()
                    &&& !found ==> final(visitor).seen() == old(visitor).seen()
                    &&& found ==> !final(self).blocked@[v as int] && final(self).waiting()[v as int]
                        == Set::<usize>::empty()
                    &&& !found ==> forall|j: int|
                        0 <= j < local_successors(old(self).graph@, old(self).scc@, v as int).len()
                            ==> {
                            let w = #[trigger] local_successors(
                                old(self).graph@,
                                old(self).scc@,
                                v as int,
                            )[j];
                            final(self).blocked@[w as int] && final(self).waiting()[w as int].contains(
                                v,
                            )
                        }
                    &&& !found ==> final(self).blocked@[v as int]
                    &&& !found ==> forall|x: int|
                        0 <= x < old(self).scc.len() && old(self).blocked@[x]
                            ==> #[trigger] final(self).blocked@[x]
                },
                ControlFlow::Break(value) => {
                    &&& reports(*old(visitor), *final(visitor), old(self).graph, Some(value))
                    &&& final(self).stack@ == final(visitor).seen().last()
                },
            },
        decreases old(self).scc.len() - old(self).path@.len(),
    {
        let mut f = false;
        self.stack.push(self.scc[v]);
        self.blocked[v] = true;
        proof {
            self.path@ = self.path@.push(v);
            self.explored@ = self.explored@.push(Set::<usize>::empty());
            old(self).lemma_enter(*self, v);
            old(self).lemma_enter_thorough(*self, v);
            old(self).lemma_enter_sealed(*self, v);
            assert(visitor.seen().take(visitor.seen().len() as int) =~= visitor.seen());
        }
        let adjacent = self.adjacent_vertices(v);
        let ghost simple = no_parallel_edges(self.graph@);
        let ghost from = visitor.seen().len() as int;
        proof {
            if simple {
                lemma_to_local_distinct(self.scc@, self.graph@[self.scc@[v as int] as int]);
            }
            assert(adjacent@.take(0).len() == 0);
            assert(visitor.seen() =~= visitor.seen() + Seq::<Seq<usize>>::empty().take(0));
        }
        let mut k: usize = 0;
        while k < adjacent.len()
            invariant
                k <= adjacent.len(),
                self.inv(),
                self.thorough(),
                self.sealed(),
                self.tidy(),
                simple == no_parallel_edges(self.graph@),
                from == old(visitor).seen().len(),
                simple ==> adjacent@.no_duplicates(),
                emitted(
                    old(visitor).seen(),
                    visitor.seen(),
                    branches_beyond(self.graph@, self.scc@, self.s, self.path@, k as int),
                    true,
                ),
                log_inv(
                    visitor.seen(),
                    from,
                    self.scc@,
                    self.s,
                    adjacent@.take(k as int),
                    nodes_of(self.scc@, self.path@),
                    simple,
                ),
                old(self).inv(),
                !f ==> forall|j: int| 0 <= j < k ==> (#[trigger] adjacent@[j]) != self.s,
                covered(
                    visitor.seen(),
                    from,
                    self.graph@,
                    self.scc@,
                    self.s,
                    self.path@,
                    adjacent@.take(k as int),
                ),
                v < self.scc.len(),
                self.graph == old(self).graph,
                self.scc@ == old(self).scc@,
                self.s == old(self).s,
                self.stack@ == old(self).stack@.push(self.scc@[v as int]),
                self.path@ == old(self).path@.push(v),
                self.path@.len() <= self.scc.len(),
                adjacent@ == local_successors(self.graph@, self.scc@, v as int),
                forall|j: int| 0 <= j < adjacent.len() ==> (#[trigger] adjacent@[j]) < self.scc.len(),
                takes_cycles::<B, V>(visitor.rule(), self.graph),
                reports(*old(visitor), *visitor, self.graph, None::<B>),
                !f ==> visitor.seen() == old(visitor).seen(),
                f ==> visitor.seen().len() > old(visitor).seen().len(),
                !f ==> forall|x: int|
                    0 <= x < self.scc.len() && old(self).blocked@[x] ==> #[trigger] self.blocked@[x],
                !f ==> forall|j: int| 0 <= j < k ==> self.blocked@[(#[trigger] adjacent@[j]) as int],
            decreases adjacent.len() - k,
        {
            let w: usize = adjacent[k];
            let ghost seen_before = *visitor;
            let ghost here = *self;
            proof {
                assert(adjacent@.take(k + 1).drop_last() == adjacent@.take(k as int));
                assert(adjacent@.take(k + 1).last() == w);
            }
            if w == self.s {
                proof {
                    assert(adjacent@.contains(w));
                    self.lemma_cycle_on_stack();
                    self.lemma_root_is_least();
                }
                let answer = visitor.visit(self.graph, self.stack.as_slice());
                proof {
                    assert(visitor.seen().take(seen_before.seen().len() as int) =~= seen_before.seen());
                    let cycle = nodes_of(self.scc@, self.path@);
                    lemma_step_emit(self.graph@, self.scc@, self.s, self.path@, k as int);
                    assert(seq![cycle].take(1) =~= seq![cycle]);
                    assert(emitted(seen_before.seen(), visitor.seen(), seq![cycle], true));
                    lemma_emitted_chain(
                        old(visitor).seen(),
                        seen_before.seen(),
                        visitor.seen(),
                        branches_beyond(self.graph@, self.scc@, self.s, self.path@, k as int),
                        seq![cycle],
                        true,
                    );
                    lemma_beyond_prefix(self.graph@, self.scc@, self.s, self.path@, k + 1);
                    lemma_emitted_within(
                        old(visitor).seen(),
                        visitor.seen(),
                        branches_beyond(self.graph@, self.scc@, self.s, self.path@, k + 1),
                        cycles_beyond(self.graph@, self.scc@, self.s, self.path@),
                        true,
                    );
                    lemma_log_emit(
                        seen_before.seen(),
                        from,
                        self.scc@,
                        self.s,
                        adjacent@,
                        k as int,
                        nodes_of(self.scc@, self.path@),
                        simple,
                    );
                }
                match answer {
                    ControlFlow::Break(value) => {
                        proof {
                            assert(reports(seen_before, *visitor, self.graph, Some(value)));
                            lemma_reports_chain(
                                *old(visitor),
                                seen_before,
                                *visitor,
                                old(self).graph,
                                Some(value),
                            );
                        }
                        return ControlFlow::Break(value);
                    },
                    ControlFlow::Continue(unit) => {
                        proof {
                            assert(unit == ());
                            assert(answer == ControlFlow::<B, ()>::Continue(unit));
                            assert(answer == ControlFlow::<B, ()>::Continue(()));
                            assert(reports(seen_before, *visitor, self.graph, None::<B>));
                            lemma_reports_chain(
                                *old(visitor),
                                seen_before,
                                *visitor,
                                old(self).graph,
                                None::<B>,
                            );
                            lemma_cover_emit(
                                seen_before.seen(),
                                from,
                                self.graph@,
                                self.scc@,
                                self.s,
                                self.path@,
                                adjacent@,
                                k as int,
                            );
                        }
                    },
                }
                f = true;
            } else if !self.blocked[w] {
                proof {
                    assert(adjacent@.contains(w));
                }
                proof {
                    assert(!self.path@.contains(w)) by {
                        if self.path@.contains(w) {
                            let at = choose|at: int| 0 <= at < self.path@.len() && self.path@[at] == w;
                            assert(self.blocked@[self.path@[at] as int]);
                        }
                    }
                }
                let flow = self.circuit(w, visitor);
                proof {
                    lemma_step_descend(here.graph@, here.scc@, here.s, here.path@, k as int);
                    lemma_emitted_chain(
                        old(visitor).seen(),
                        seen_before.seen(),
                        visitor.seen(),
                        branches_beyond(here.graph@, here.scc@, here.s, here.path@, k as int),
                        cycles_beyond(here.graph@, here.scc@, here.s, here.path@.push(w)),
                        went_on(flow),
                    );
                    lemma_beyond_prefix(here.graph@, here.scc@, here.s, here.path@, k + 1);
                    lemma_emitted_within(
                        old(visitor).seen(),
                        visitor.seen(),
                        branches_beyond(here.graph@, here.scc@, here.s, here.path@, k + 1),
                        cycles_beyond(here.graph@, here.scc@, here.s, here.path@),
                        went_on(flow),
                    );
                    assert(nodes_of(here.scc@, here.path@.push(w)) =~= nodes_of(
                        here.scc@,
                        here.path@,
                    ).push(here.scc@[w as int]));
                    lemma_log_descend(
                        seen_before.seen(),
                        visitor.seen(),
                        from,
                        here.scc@,
                        here.s,
                        adjacent@,
                        k as int,
                        nodes_of(here.scc@, here.path@),
                        simple,
                    );
                }
                match flow {
                    ControlFlow::Break(value) => {
                        proof {
                            lemma_reports_chain(
                                *old(visitor),
                                seen_before,
                                *visitor,
                                old(self).graph,
                                Some(value),
                            );
                        }
                        return ControlFlow::Break(value);
                    },
                    ControlFlow::Continue(found) => {
                        proof {
                            lemma_reports_chain(
                                *old(visitor),
                                seen_before,
                                *visitor,
                                old(self).graph,
                                None::<B>,
                            );
                            lemma_cover_descend(
                                seen_before.seen(),
                                visitor.seen(),
                                from,
                                here.graph@,
                                here.scc@,
                                here.s,
                                here.path@,
                                adjacent@,
                                k as int,
                            );
                        }
                        if found {
                            f = true;
                        }
                    },
                }
            } else {
                proof {
                    if self.s < w && !self.path@.contains(w) {
                        self.lemma_blocked_dead_end(w);
                    }
                    lemma_step_skip(self.graph@, self.scc@, self.s, self.path@, k as int);
                    lemma_log_skip(
                        visitor.seen(),
                        from,
                        self.scc@,
                        self.s,
                        adjacent@,
                        k as int,
                        nodes_of(self.scc@, self.path@),
                        simple,
                    );
                    lemma_cover_skip(
                        visitor.seen(),
                        from,
                        self.graph@,
                        self.scc@,
                        self.s,
                        self.path@,
                        adjacent@,
                        k as int,
                    );
                }
            }
            k += 1;
        }
        let ghost left = *self;
        proof {
            assert(adjacent@.take(k as int) == adjacent@);
        }
        if f {
            proof {
                self.lemma_region();
            }
            self.unblock(v, Ghost(left.region()));
        } else {
            self.wait_on(v, &adjacent);
        }
        let ghost mid = *self;
        self.stack.pop();
        proof {
            self.path@ = old(self).path@;
            self.explored@ = Seq::new(
                (left.path@.len() - 1) as nat,
                |i: int| left.explored@[i].insert(v),
            );
            self.popped@ = if left.path@.len() > 1 {
                left.popped@.insert(v)
            } else {
                left.popped@
            };
            assert(left.path@.drop_last() =~= old(self).path@);
            assert(mid.stack@.drop_last() =~= old(self).stack@);
            left.lemma_leave(mid, *self, f, adjacent@);
            left.lemma_leave_thorough(mid, *self, f, adjacent@);
            left.lemma_leave_sealed(mid, *self, f, adjacent@);
            assert(left.path@.last() == v);
            lemma_cover_done(visitor.seen(), from, left.graph@, left.scc@, left.s, left.path@);
            assert(self.same_root(old(self)));
            assert(reports(*old(visitor), *visitor, old(self).graph, None::<B>));
            if f {
                assert(left.blocked@[left.path@[left.path@.len() - 1] as int]);
                assert(!mid.blocked@[v as int]);
                assert(mid.waiting()[v as int] == Set::<usize>::empty());
            } else {
                assert forall|j: int| 0 <= j < adjacent@.len() implies {
                    let w = #[trigger] adjacent@[j];
                    self.blocked@[w as int] && self.waiting()[w as int].contains(v)
                } by {
                    let w = adjacent@[j];
                    assert(adjacent@.contains(w));
                    assert(left.blocked@[adjacent@[j] as int]);
                    assert(mid.waiting()[w as int] == left.waiting()[w as int].insert(v));
                }
            }
            if !f {
                assert(mid.blocked@ == left.blocked@);
                assert(self.blocked@ == left.blocked@);
                assert(left.blocked@[left.path@[left.path@.len() - 1] as int]);
                assert forall|x: int|
                    0 <= x < old(self).scc.len() && old(self).blocked@[x] implies #[trigger] self.blocked@[x] by {
                    assert(left.blocked@[x]);
                }
            }
            assert(logged(
                visitor.seen(),
                old(visitor).seen().len() as int,
                old(self).scc@,
                nodes_of(old(self).scc@, old(self).path@.push(v)),
                no_parallel_edges(old(self).graph@),
            ));
        }
        ControlFlow::Continue(f)
    }

    /// Unblocks `v` and, in turn, every blocked vertex that waits for an
    /// unblocked one.
    #[verifier::spinoff_prover]
    fn unblock(&mut self, v: usize, Ghost(region): Ghost<Set<usize>>)
        requires
            old(self).frame(),
            v < old(self).scc.len(),
            old(self).blocked@[v as int],
            region.contains(v),
            closed_under(region, old(self).waiting()),
        ensures
            final(self).frame(),
            final(self).same_search(old(self)),
            !final(self).blocked@[v as int],
            released(
                old(self).blocked@,
                old(self).waiting(),
                final(self).blocked@,
                final(self).waiting(),
                region,
            ),
            released_exactly(
                old(self).blocked@,
                old(self).waiting(),
                final(self).blocked@,
                final(self).waiting(),
                v,
            ),
        decreases blocked_set(old(self).blocked@).len(),
    {
        self.blocked[v] = false;
        let tmp = to_vec(&self.b[v]);
        proof {
            assert(is_chain(old(self).blocked@, old(self).waiting(), seq![v]));
            assert(joined(old(self).blocked@, old(self).waiting(), v, v));
            assert forall|k: int| 0 <= k < tmp.len() implies (#[trigger] tmp@[k]) < self.scc.len() by {
                assert(tmp@.to_set().contains(tmp@[k]));
                assert(old(self).waiting()[v as int].contains(tmp@[k]));
            }
        }
        let mut i: usize = 0;
        while i < tmp.len()
            invariant
                i <= tmp.len(),
                self.frame(),
                self.same_search(old(self)),
                v < self.scc.len(),
                !self.blocked@[v as int],
                old(self).blocked@[v as int],
                old(self).frame(),
                region.contains(v),
                closed_under(region, old(self).waiting()),
                tmp@.to_set() == old(self).waiting()[v as int],
                self.waiting()[v as int] == old(self).waiting()[v as int],
                self.blocked.len() == old(self).blocked.len(),
                forall|x: int|
                    0 <= x < self.blocked.len() && #[trigger] self.blocked@[x] ==> old(
                        self,
                    ).blocked@[x],
                forall|x: int|
                    0 <= x < self.blocked.len() && !region.contains(x as usize)
                        ==> #[trigger] self.blocked@[x] == old(self).blocked@[x],
                forall|x: int|
                    0 <= x < self.blocked.len() && x != v ==> #[trigger] self.waiting()[x] == if old(
                        self,
                    ).blocked@[x] && !self.blocked@[x] {
                        Set::<usize>::empty()
                    } else {
                        old(self).waiting()[x]
                    },
                forall|y: int, u: usize|
                    0 <= y < self.blocked.len() && y != v && old(self).blocked@[y]
                        && !self.blocked@[y] && #[trigger] old(self).waiting()[y].contains(u)
                        ==> !self.blocked@[u as int],
                forall|k: int| 0 <= k < tmp.len() ==> (#[trigger] tmp@[k]) < self.scc.len(),
                forall|k: int| 0 <= k < i ==> !self.blocked@[(#[trigger] tmp@[k]) as int],
                forall|x: int|
                    0 <= x < self.blocked.len() && old(self).blocked@[x] && !(#[trigger] self.blocked@[x])
                        ==> joined(old(self).blocked@, old(self).waiting(), v, x as usize),
            decreases tmp.len() - i,
        {
            let w: usize = tmp[i];
            proof {
                assert(tmp@.to_set().contains(w));
            }
            if self.blocked[w] {
                let ghost now_blocked = self.blocked@;
                let ghost now_waiting = self.waiting();
                proof {
                    lemma_fewer_blocked(old(self).blocked@, self.blocked@, v as int);
                    assert forall|y: int, u: usize|
                        0 <= y < now_waiting.len() && region.contains(y as usize)
                            && #[trigger] now_waiting[y].contains(u) implies region.contains(u) by {
                        assert(old(self).waiting()[y].contains(u));
                    }
                }
                self.unblock(w, Ghost(region));
                proof {
                    assert forall|x: int|
                        0 <= x < self.blocked.len() && old(self).blocked@[x] && !(#[trigger] self.blocked@[x]) implies joined(
                        old(self).blocked@,
                        old(self).waiting(),
                        v,
                        x as usize,
                    ) by {
                        if now_blocked[x] {
                            assert(joined(now_blocked, now_waiting, w, x as usize));
                            lemma_joined_through(
                                old(self).blocked@,
                                old(self).waiting(),
                                now_blocked,
                                now_waiting,
                                v,
                                w,
                                x as usize,
                            );
                        }
                    }
                    assert forall|y: int, u: usize|
                        0 <= y < self.blocked.len() && y != v && old(self).blocked@[y]
                            && !self.blocked@[y] && #[trigger] old(self).waiting()[y].contains(
                            u,
                        ) implies !self.blocked@[u as int] by {
                        if now_blocked[y] {
                            assert(now_waiting[y] == old(self).waiting()[y]);
                            assert(now_waiting[y].contains(u));
                        } else {
                            assert(!now_blocked[u as int]);
                        }
                    }
                    assert forall|k: int| 0 <= k < i implies !self.blocked@[(#[trigger] tmp@[k]) as int] by {
                        assert(!now_blocked[tmp@[k] as int]);
                    }
                }
            }
            i += 1;
        }
        let ghost now_waiting = self.waiting();
        clear(&mut self.b[v]);
        proof {
            assert forall|x: int| 0 <= x < self.blocked.len() implies #[trigger] self.waiting()[x]
                == if old(self).blocked@[x] && !self.blocked@[x] {
                Set::<usize>::empty()
            } else {
                old(self).waiting()[x]
            } by {
                if x != v {
                    assert(self.waiting()[x] == now_waiting[x]);
                }
            }
            assert forall|y: int, u: usize|
                0 <= y < self.blocked.len() && old(self).blocked@[y] && !self.blocked@[y]
                    && #[trigger] old(self).waiting()[y].contains(u) implies !self.blocked@[u as int] by {
                if y == v {
                    assert(tmp@.to_set().contains(u));
                    let k = choose|k: int| 0 <= k < tmp@.len() && tmp@[k] == u;
                    assert(!self.blocked@[tmp@[k] as int]);
                }
            }
            assert forall|y: int, u: usize|
                0 <= y < self.scc.len() && (#[trigger] self.waiting()[y].contains(u)) implies u
                < self.scc.len() by {
                assert(old(self).waiting()[y].contains(u));
            }
            assert(released(
                old(self).blocked@,
                old(self).waiting(),
                self.blocked@,
                self.waiting(),
                region,
            ));
            lemma_released_exactly(
                old(self).blocked@,
                old(self).waiting(),
                self.blocked@,
                self.waiting(),
                region,
                v,
            );
        }
    }

    /// Makes `v` wait for each of `adjacent` to be unblocked.
    fn wait_on(&mut self, v: usize, adjacent: &Vec<usize>)
        requires
            old(self).frame(),
            v < old(self).scc.len(),
            forall|k: int| 0 <= k < adjacent.len() ==> (#[trigger] adjacent@[k]) < old(self).scc.len(),
        ensures
            final(self).frame(),
            final(self).same_search(old(self)),
            final(self).blocked@ == old(self).blocked@,
            forall|x: int|
                0 <= x < old(self).scc.len() ==> #[trigger] final(self).waiting()[x]
                    == if adjacent@.contains(x as usize) {
                    old(self).waiting()[x].insert(v)
                } else {
                    old(self).waiting()[x]
                },
    {
        let mut k: usize = 0;
        while k < adjacent.len()
            invariant
                k <= adjacent.len(),
                self.frame(),
                old(self).frame(),
                self.same_search(old(self)),
                self.blocked@ == old(self).blocked@,
                v < self.scc.len(),
                forall|j: int| 0 <= j < adjacent.len() ==> (#[trigger] adjacent@[j]) < self.scc.len(),
                forall|x: int|
                    0 <= x < self.scc.len() ==> #[trigger] self.waiting()[x] == if adjacent@.take(
                        k as int,
                    ).contains(x as usize) {
                        old(self).waiting()[x].insert(v)
                    } else {
                        old(self).waiting()[x]
                    },
            decreases adjacent.len() - k,
        {
            let w: usize = adjacent[k];
            let ghost before = self.waiting();
            insert(&mut self.b[w], v);
            proof {
                let seen = adjacent@.take(k as int);
                let more = adjacent@.take(k + 1);
                assert(more.drop_last() == seen);
                assert(more[k as int] == w);
                assert forall|x: int| 0 <= x < self.scc.len() implies #[trigger] self.waiting()[x]
                    == if more.contains(x as usize) {
                    old(self).waiting()[x].insert(v)
                } else {
                    old(self).waiting()[x]
                } by {
                    if x == w {
                        assert(self.waiting()[x] == before[x].insert(v));
                        assert(before[x].insert(v) =~= old(self).waiting()[x].insert(v));
                    } else {
                        assert(self.waiting()[x] == before[x]);
                        if more.contains(x as usize) {
                            let at = choose|at: int| 0 <= at < more.len() && more[at] == x as usize;
                            assert(seen[at] == x as usize);
                        }
                        if seen.contains(x as usize) {
                            let at = choose|at: int| 0 <= at < seen.len() && seen[at] == x as usize;
                            assert(more[at] == x as usize);
                        }
                    }
                }
                assert forall|y: int, u: usize|
                    0 <= y < self.scc.len() && (#[trigger] self.waiting()[y].contains(u)) implies u
                    < self.scc.len() by {
                    if u != v {
                        assert(before[y].contains(u));
                    }
                }
            }
            k += 1;
        }
        proof {
            assert(adjacent@.take(k as int) == adjacent@);
        }
    }

    /// The successors of `v` within the component.
    fn adjacent_vertices(&self, v: usize) -> (adjacent: Vec<usize>)
        requires
            self.frame(),
            v < self.scc.len(),
        ensures
            adjacent@ == local_successors(self.graph@, self.scc@, v as int),
            forall|k: int| 0 <= k < adjacent.len() ==> (#[trigger] adjacent@[k]) < self.scc.len(),
    {
        let mut adjacent: Vec<usize> = Vec::new();
        match self.graph.neighbors(self.scc[v]) {
            Some(nodes) => {
                let mut k: usize = 0;
                while k < nodes.len()
                    invariant
                        k <= nodes.len(),
                        self.scc.len() <= usize::MAX,
                        adjacent@ == to_local(self.scc@, nodes@.take(k as int)),
                    decreases nodes.len() - k,
                {
                    proof {
                        assert(nodes@.take(k + 1).drop_last() == nodes@.take(k as int));
                        self.scc@.index_of_first_ensures(nodes@[k as int]);
                    }
                    match position(&self.scc, nodes[k]) {
                        Some(w) => adjacent.push(w),
                        None => {},
                    }
                    k += 1;
                }
                proof {
                    assert(nodes@.take(k as int) == nodes@);
                    lemma_to_local_sound(self.scc@, nodes@);
                }
            },
            None => {},
        }
        adjacent
    }

    /// The vertices in play for the root after the current one, once the
    /// search from the current one has ended and has `found` a cycle or not.
    pub closed spec fn next_play(&self, found: bool) -> Set<usize> {
        if found {
            Set::new(
                |x: usize|
                    x < self.scc.len() && (self.s < x || self.popped@.contains(x) || (x < self.s
                        && !self.blocked@[x as int])),
            )
        } else {
            self.play@
        }
    }

    /// Once the marks from the root `s` on and the waiting sets after it are
    /// cleared, the search from `s` can begin.
    proof fn lemma_root_ready(self, ready: Self, s: usize)
        requires
            self.at_rest_before(s),
            s < self.scc.len(),
            ready.frame(),
            ready.graph == self.graph,
            ready.scc@ == self.scc@,
            ready.stack@ == self.stack@,
            ready.path@ == self.path@,
            ready.explored@ == self.explored@,
            ready.play@ == self.play@,
            ready.s == s,
            ready.popped@ == Set::<usize>::empty(),
            forall|y: int| 0 <= y < s ==> #[trigger] ready.blocked@[y] == self.blocked@[y],
            forall|y: int| s <= y < self.scc.len() ==> !(#[trigger] ready.blocked@[y]),
            forall|y: int| 0 <= y <= s ==> #[trigger] ready.waiting()[y] == self.waiting()[y],
            forall|y: int|
                s < y < self.scc.len() ==> #[trigger] ready.waiting()[y] == Set::<usize>::empty(),
        ensures
            ready.inv(),
            ready.thorough(),
            ready.sealed(),
            ready.tidy(),
    {
        assert forall|y: int|
            0 <= y < ready.scc.len() && y != ready.s && !(#[trigger] ready.blocked@[y]) implies ready.waiting()[y]
            == Set::<usize>::empty() by {
            if y < s {
                assert(!self.blocked@[y]);
            }
        }
        assert(ready.inv());
        assert(ready.thorough());
        assert forall|y: int, u: usize|
            0 <= y < ready.waiting().len() && ready.play@.contains(y as usize)
                && #[trigger] ready.waiting()[y].contains(u) implies ready.play@.contains(u) by {
            assert(self.waiting()[y].contains(u));
        }
        assert forall|x: int|
            0 <= x < ready.s && !ready.play@.contains(x as usize) implies #[trigger] ready.blocked@[x] by {
            assert(self.blocked@[x]);
        }
    }

    /// Once the search from the root has ended and the root is blocked for
    /// good, the search can go on to the next root.
    proof fn lemma_root_done(self, after: Self, found: bool)
        requires
            self.inv(),
            self.sealed(),
            found ==> self.tidy(),
            !found ==> barren(self.graph@, self.scc@, self.s),
            self.path@.len() == 0,
            self.s + 1 <= usize::MAX,
            after.graph == self.graph,
            after.scc@ == self.scc@,
            after.stack@ == self.stack@,
            after.path@ == self.path@,
            after.explored@ == self.explored@,
            after.b@ == self.b@,
            after.blocked@ == self.blocked@.update(self.s as int, true),
            after.play@ == self.next_play(found),
        ensures
            after.at_rest_before((self.s + 1) as usize),
    {
        let s = self.s;
        let play = after.play@;
        assert(after.waiting() == self.waiting());
        assert(after.frame());
        assert(after.at_rest());
        if found {
            let popped = self.popped@;
            assert forall|y: int, u: usize|
                0 <= y < after.waiting().len() && play.contains(y as usize)
                    && #[trigger] after.waiting()[y].contains(u) implies play.contains(u) by {
                assert(self.waiting()[y].contains(u));
                if s < y || popped.contains(y as usize) {
                    assert(popped.contains(u));
                } else {
                    assert(!self.blocked@[y]);
                }
            }
            assert forall|x: usize| #[trigger] play.contains(x) && x < s + 1 implies barren(
                after.graph@,
                after.scc@,
                x,
            ) by {
                if popped.contains(x) {
                    assert(self.play@.contains(x));
                } else {
                    assert(!self.blocked@[x as int]);
                    assert(self.play@.contains(x));
                }
            }
        } else {
            assert forall|y: int, u: usize|
                0 <= y < after.waiting().len() && play.contains(y as usize)
                    && #[trigger] after.waiting()[y].contains(u) implies play.contains(u) by {
                assert(self.waiting()[y].contains(u));
            }
            assert forall|x: int|
                0 <= x < s + 1 && x < after.scc.len() && !play.contains(x as usize) implies #[trigger] after.blocked@[x] by {
                if x < s {
                    assert(self.blocked@[x]);
                }
            }
        }
    }

    /// From a blocked vertex after the root that is not on the stack there is
    /// no way back to the root beside the stack.
    proof fn lemma_blocked_dead_end(self, w: usize)
        requires
            self.inv(),
            self.thorough(),
            self.path@.len() > 0,
            w < self.scc.len(),
            self.blocked@[w as int],
            self.s < w,
            !self.path@.contains(w),
        ensures
            forall|q: Seq<usize>|
                !#[trigger] continues(self.graph@, self.scc@, self.s, self.path@.push(w), q),
    {
        assert forall|q: Seq<usize>|
            !#[trigger] continues(self.graph@, self.scc@, self.s, self.path@.push(w), q) by {
            if continues(self.graph@, self.scc@, self.s, self.path@.push(w), q) {
                lemma_continues_join(self.graph@, self.scc@, self.s, self.path@, w, q);
                assert((seq![w] + q)[0] == w);
                assert(avoiding(self.graph@, self.scc@, self.s, self.path@, seq![w] + q));
            }
        }
    }

    /// The region of a release holds the vertex on top of the stack and
    /// whoever waits for one of its members, and nothing else of the stack.
    proof fn lemma_region(self)
        requires
            self.inv(),
            self.sealed(),
            self.path@.len() >= 1,
        ensures
            self.region().contains(self.path@.last()),
            closed_under(self.region(), self.waiting()),
            forall|i: int| 0 <= i < self.path@.len() - 1 ==> !self.region().contains(#[trigger] self.path@[i]),
            forall|x: usize| self.region().contains(x) ==> self.play@.contains(x),
    {
        let top = self.path@.len() - 1;
        assert(self.path@[top] < self.scc.len());
        assert(self.play@.contains(self.path@[top]));
        assert forall|x: usize| self.region().contains(x) implies self.play@.contains(x) by {
            if self.path@.len() > 1 && x != self.path@[top] {
                assert(self.explored@[top].contains(x));
            }
        }
        if self.path@.len() > 1 {
            assert forall|y: int, u: usize|
                0 <= y < self.waiting().len() && self.region().contains(y as usize)
                    && #[trigger] self.waiting()[y].contains(u) implies self.region().contains(u) by {
                if y == self.path@[top] {
                    assert(self.waiting()[self.path@[top] as int].subset_of(self.explored@[top]));
                } else {
                    assert(self.explored@[top].contains(y as usize));
                }
            }
            assert forall|i: int| 0 <= i < top implies !self.region().contains(#[trigger] self.path@[i]) by {
                assert(!self.explored@[top].contains(self.path@[i]));
            }
        }
    }

    /// The nodes on the stack form an elementary cycle as soon as the last
    /// of them has an edge to the first.
    proof fn lemma_cycle_on_stack(self)
        requires
            self.inv(),
            self.path@.len() >= 1,
            local_successors(self.graph@, self.scc@, self.path@.last() as int).contains(self.s),
        ensures
            is_elementary_cycle(self.graph@, self.stack@),
    {
        let path = self.path@;
        let stack = self.stack@;
        let len = stack.len() as int;
        assert forall|i: int, j: int| 0 <= i < len && 0 <= j < len && i != j implies stack[i]
            != stack[j] by {
            assert(path[i] != path[j]);
        }
        assert forall|i: int| 0 <= i < len implies #[trigger] has_edge(
            self.graph@,
            stack[i],
            stack[next_position(len, i)],
        ) by {
            let nodes = self.graph@[self.scc@[path[i] as int] as int];
            lemma_to_local_sound(self.scc@, nodes);
            let next = if i + 1 == len { self.s } else { path[i + 1] };
            assert(to_local(self.scc@, nodes).contains(next));
            let k = choose|k: int| 0 <= k < to_local(self.scc@, nodes).len() && to_local(self.scc@, nodes)[k] == next;
            assert(nodes.contains(self.scc@[to_local(self.scc@, nodes)[k] as int]));
            assert(path[0] == self.s);
        }
    }

    /// Where the stack closes a cycle, no vertex on it comes before the root.
    proof fn lemma_root_is_least(self)
        requires
            self.inv(),
            self.sealed(),
            self.path@.len() >= 1,
            local_successors(self.graph@, self.scc@, self.path@.last() as int).contains(self.s),
        ensures
            forall|i: int| 0 <= i < self.path@.len() ==> self.s <= #[trigger] self.path@[i],
            rooted(self.scc@, self.stack@),
            self.stack@ == nodes_of(self.scc@, self.path@),
    {
        let path = self.path@;
        let len = path.len() as int;
        assert(path[0] == self.s);
        assert forall|i: int| 0 <= i < len implies #[trigger] local_successors(
            self.graph@,
            self.scc@,
            path[i] as int,
        ).contains(path[next_position(len, i)]) by {
            if i + 1 < len {
                assert(local_successors(self.graph@, self.scc@, path[(i + 1) - 1] as int).contains(
                    path[i + 1],
                ));
            }
        }
        assert(is_local_cycle(self.graph@, self.scc@, path));
        lemma_least_position(path);
        let shift = least_position(path);
        let m = path[shift];
        if m < self.s {
            lemma_rotated_local_cycle(self.graph@, self.scc@, path, shift);
            let turned = rotated(path, shift);
            assert(turned[0] == m);
            assert forall|i: int| 0 <= i < turned.len() implies turned[0] <= #[trigger] turned[i] by {
                let at = if i < len - shift { i + shift } else { i - (len - shift) };
                assert(turned[i] == path[at]);
            }
            lemma_cycle_continues(self.graph@, self.scc@, turned);
            assert(self.play@.contains(path[shift]));
            assert(barren(self.graph@, self.scc@, m));
            assert(continues(self.graph@, self.scc@, m, seq![m], turned.skip(1)));
        }
        assert(self.stack@ =~= nodes_of(self.scc@, path));
        assert forall|t: int| 0 <= t < self.stack@.len() implies self.scc@.contains(
            #[trigger] self.stack@[t],
        ) && self.scc@.index_of(self.stack@[0]) <= self.scc@.index_of(self.stack@[t]) by {
            assert(self.stack@[t] == self.scc@[path[t] as int]);
            assert(self.stack@[0] == self.scc@[path[0] as int]);
            assert(self.scc@.index_of(self.stack@[t]) == path[t]);
            assert(self.scc@.index_of(self.stack@[0]) == path[0]);
        }
    }

    /// Entering an unblocked vertex keeps the search in order.
    proof fn lemma_enter(self, after: Self, v: usize)
        requires
            self.inv(),
            v < self.scc.len(),
            !self.blocked@[v as int],
            self.path@.len() == 0 ==> v == self.s,
            self.path@.len() > 0 ==> v != self.s && local_successors(
                self.graph@,
                self.scc@,
                self.path@.last() as int,
            ).contains(v),
            after.graph == self.graph,
            after.scc@ == self.scc@,
            after.s == self.s,
            after.b@ == self.b@,
            after.blocked@ == self.blocked@.update(v as int, true),
            after.stack@ == self.stack@.push(self.scc@[v as int]),
            after.path@ == self.path@.push(v),
            after.explored@ == self.explored@.push(Set::<usize>::empty()),
        ensures
            after.inv(),
            after.path@.len() <= self.scc.len(),
    {
        let path = after.path@;
        assert forall|i: int, j: int| 0 <= i < path.len() && 0 <= j < path.len() && i != j implies path[i]
            != path[j] by {
            if i < self.path@.len() {
                assert(self.blocked@[self.path@[i] as int]);
            }
            if j < self.path@.len() {
                assert(self.blocked@[self.path@[j] as int]);
            }
        }
        assert forall|i: int| 0 <= i < path.len() implies (#[trigger] path[i]) < self.scc.len() by {
            if i < self.path@.len() {
                assert(self.path@[i] < self.scc.len());
            }
        }
        lemma_distinct_below(path, self.scc.len() as nat);
        assert(after.waiting() == self.waiting());
        assert(after.frame());
        assert forall|i: int|
            0 <= i < path.len() implies (#[trigger] path[i]) < after.scc.len() && after.stack@[i]
            == after.scc@[path[i] as int] && after.blocked@[path[i] as int] by {
            if i < self.path@.len() {
                assert(self.path@[i] == path[i]);
            }
        }
        assert forall|i: int| 0 < i < path.len() implies local_successors(
            after.graph@,
            after.scc@,
            path[i - 1] as int,
        ).contains(#[trigger] path[i]) by {
            if i < self.path@.len() {
                assert(self.path@[i] == path[i]);
            }
        }
        assert forall|i: int, k: int| 0 <= k <= i < path.len() implies !(#[trigger] after.explored@[i].contains(
            path[k],
        )) by {
            if i < self.path@.len() {
                assert(!self.explored@[i].contains(self.path@[k]));
            }
        }
        assert forall|i: int, j: int| 0 <= i <= j < path.len() implies (#[trigger] after.explored@[j]).subset_of(
            #[trigger] after.explored@[i],
        ) by {
            if j < self.path@.len() {
                assert(self.explored@[j].subset_of(self.explored@[i]));
            }
        }
        assert forall|i: int| 1 <= i < path.len() implies after.waiting()[(#[trigger] path[i]) as int].subset_of(
            after.explored@[i],
        ) by {
            if i < self.path@.len() {
                assert(self.waiting()[self.path@[i] as int].subset_of(self.explored@[i]));
            } else {
                assert(self.waiting()[v as int] == Set::<usize>::empty());
            }
        }
        assert forall|i: int, x: usize|
            0 <= i < path.len() && (#[trigger] after.explored@[i].contains(x)) implies x
            < after.scc.len() && after.waiting()[x as int].subset_of(after.explored@[i]) by {
            assert(self.explored@[i].contains(x));
        }
    }

    /// Entering an unblocked vertex touches nothing out of play.
    proof fn lemma_enter_sealed(self, after: Self, v: usize)
        requires
            self.inv(),
            self.sealed(),
            self.tidy(),
            v < self.scc.len(),
            !self.blocked@[v as int],
            self.path@.len() == 0 ==> self.popped@ == Set::<usize>::empty(),
            after.graph == self.graph,
            after.scc@ == self.scc@,
            after.s == self.s,
            after.b@ == self.b@,
            after.blocked@ == self.blocked@.update(v as int, true),
            after.path@ == self.path@.push(v),
            after.explored@ == self.explored@.push(Set::<usize>::empty()),
            after.play@ == self.play@,
            after.popped@ == self.popped@,
        ensures
            after.sealed(),
            after.tidy(),
    {
        assert(after.waiting() == self.waiting());
        assert(self.play@.contains(v));
        assert forall|i: int, x: usize|
            0 <= i < after.explored@.len() && #[trigger] after.explored@[i].contains(x) implies after.play@.contains(
            x,
        ) by {
            assert(self.explored@[i].contains(x));
        }
        assert forall|i: int| 0 <= i < after.path@.len() implies after.play@.contains(
            #[trigger] after.path@[i],
        ) by {
            if i < self.path@.len() {
                assert(self.play@.contains(self.path@[i]));
            }
        }
        if self.path@.len() > 0 {
            assert(after.explored@[0] == self.explored@[0]);
        } else {
            assert(after.explored@[0] == Set::<usize>::empty());
        }
    }

    /// Leaving the vertex on top of the stack touches nothing out of play.
    #[verifier::spinoff_prover]
    proof fn lemma_leave_sealed(self, mid: Self, after: Self, found: bool, adjacent: Seq<usize>)
        requires
            self.inv(),
            self.sealed(),
            self.tidy(),
            self.path@.len() >= 1,
            mid.frame(),
            mid.same_search(&self),
            found ==> released(
                self.blocked@,
                self.waiting(),
                mid.blocked@,
                mid.waiting(),
                self.region(),
            ) && !mid.blocked@[self.path@.last() as int],
            !found ==> mid.blocked@ == self.blocked@,
            !found ==> forall|x: int|
                0 <= x < self.scc.len() ==> #[trigger] mid.waiting()[x] == if adjacent.contains(
                    x as usize,
                ) {
                    self.waiting()[x].insert(self.path@.last())
                } else {
                    self.waiting()[x]
                },
            after.graph == mid.graph,
            after.scc@ == mid.scc@,
            after.s == mid.s,
            after.blocked@ == mid.blocked@,
            after.b@ == mid.b@,
            after.path@ == mid.path@.drop_last(),
            after.explored@ == Seq::new(
                (self.path@.len() - 1) as nat,
                |i: int| self.explored@[i].insert(self.path@.last()),
            ),
            after.play@ == self.play@,
            after.popped@ == if self.path@.len() > 1 {
                self.popped@.insert(self.path@.last())
            } else {
                self.popped@
            },
        ensures
            after.sealed(),
            after.path@.len() > 0 || found ==> after.tidy(),
    {
        let n = self.scc.len();
        let v = self.path@.last();
        let top = self.path@.len() - 1;
        let play = self.play@;
        self.lemma_region();
        assert(self.path@[top] == v);
        assert(play.contains(v));
        assert(after.waiting() == mid.waiting());
        assert forall|y: int, u: usize|
            0 <= y < after.waiting().len() && play.contains(y as usize)
                && #[trigger] after.waiting()[y].contains(u) implies play.contains(u) by {
            if u != v {
                assert(self.waiting()[y].contains(u));
            }
        }
        assert forall|x: int| 0 <= x < after.s && !play.contains(x as usize) implies #[trigger] after.blocked@[x] by {
            assert(self.blocked@[x]);
            assert(!self.region().contains(x as usize));
        }
        assert forall|i: int, x: usize|
            0 <= i < after.explored@.len() && #[trigger] after.explored@[i].contains(x) implies play.contains(
            x,
        ) by {
            if x != v {
                assert(self.explored@[i].contains(x));
            }
        }
        assert forall|i: int| 0 <= i < after.path@.len() implies play.contains(
            #[trigger] after.path@[i],
        ) by {
            assert(after.path@[i] == self.path@[i]);
        }
        assert(after.sealed());
        if after.path@.len() > 0 || found {
            let popped = after.popped@;
            assert forall|y: int, u: usize|
                0 <= y < n && (after.s < y || popped.contains(y as usize))
                    && #[trigger] after.waiting()[y].contains(u) implies popped.contains(u) by {
                if u != v || found {
                    assert(self.waiting()[y].contains(u));
                    if y == v && !(self.s < y) && !self.popped@.contains(y as usize) {
                        assert(top >= 1);
                        assert(self.waiting()[self.path@[top] as int].subset_of(
                            self.explored@[top],
                        ));
                        assert(self.explored@[top].subset_of(self.explored@[0]));
                    }
                }
            }
            assert forall|x: usize| #[trigger] popped.contains(x) implies after.play@.contains(x)
                && x != after.s && x < n by {
                if x == v && top >= 1 {
                    assert(self.path@[0] == self.s);
                    assert(self.path@[0] != self.path@[top]);
                }
            }
            if after.path@.len() > 0 {
                assert(after.explored@[0] =~= self.explored@[0].insert(v));
            }
        }
    }

    /// Entering an unblocked vertex hides no cycle.
    proof fn lemma_enter_thorough(self, after: Self, v: usize)
        requires
            self.inv(),
            self.thorough(),
            v < self.scc.len(),
            !self.blocked@[v as int],
            after.graph == self.graph,
            after.scc@ == self.scc@,
            after.s == self.s,
            after.b@ == self.b@,
            after.blocked@ == self.blocked@.update(v as int, true),
            after.path@ == self.path@.push(v),
        ensures
            after.thorough(),
    {
        assert(after.waiting() == self.waiting());
        assert(after.path@[self.path@.len() as int] == v);
        assert forall|x: int, j: int|
            after.s < x < after.scc.len() && after.blocked@[x] && !after.path@.contains(x as usize)
                && 0 <= j < local_successors(after.graph@, after.scc@, x).len() implies {
            let w = #[trigger] local_successors(after.graph@, after.scc@, x)[j];
            after.blocked@[w as int] && after.waiting()[w as int].contains(x as usize)
        } by {
            assert(x != v);
            if self.path@.contains(x as usize) {
                let at = choose|at: int| 0 <= at < self.path@.len() && self.path@[at] == x as usize;
                assert(after.path@[at] == x as usize);
            }
            lemma_to_local_sound(self.scc@, self.graph@[self.scc@[x] as int]);
        }
        assert forall|q: Seq<usize>| #[trigger]
            avoiding(after.graph@, after.scc@, after.s, after.path@, q) implies !after.blocked@[q[0] as int] by {
            assert forall|i: int| 0 <= i < q.len() implies !self.path@.contains(#[trigger] q[i]) by {
                if self.path@.contains(q[i]) {
                    let at = choose|at: int| 0 <= at < self.path@.len() && self.path@[at] == q[i];
                    assert(after.path@[at] == q[i]);
                }
            }
            assert(avoiding(self.graph@, self.scc@, self.s, self.path@, q));
            assert(q[0] != v);
        }
    }

    /// Along an avoiding sequence that starts at a vertex which stays blocked,
    /// every vertex stays blocked over a release.
    proof fn lemma_stays_blocked(self, mid: Self, q: Seq<usize>, upto: int)
        requires
            self.inv(),
            self.thorough(),
            self.path@.len() >= 1,
            mid.scc@ == self.scc@,
            released(
                self.blocked@,
                self.waiting(),
                mid.blocked@,
                mid.waiting(),
                self.region(),
            ),
            avoiding(self.graph@, self.scc@, self.s, self.path@.drop_last(), q),
            0 <= upto < q.len(),
            forall|i: int| 0 <= i <= upto ==> q[i] != self.path@.last(),
            mid.blocked@[q[0] as int],
        ensures
            mid.blocked@[q[upto] as int],
            upto + 1 < q.len() ==> self.blocked@[q[upto + 1] as int] && self.waiting()[q[upto
                + 1] as int].contains(q[upto]),
        decreases upto,
    {
        if upto > 0 {
            self.lemma_stays_blocked(mid, q, upto - 1);
            assert(self.blocked@[q[upto] as int] && self.waiting()[q[upto] as int].contains(
                q[upto - 1],
            ));
        }
        let x = q[upto];
        assert(mid.blocked@[x as int]);
        assert(self.blocked@[x as int]);
        if upto + 1 < q.len() {
            let next = q[upto + 1];
            let succ = local_successors(self.graph@, self.scc@, x as int);
            assert(succ.contains(next));
            let j = choose|j: int| 0 <= j < succ.len() && succ[j] == next;
            assert(!self.path@.contains(x)) by {
                if self.path@.contains(x) {
                    let at = choose|at: int| 0 <= at < self.path@.len() && self.path@[at] == x;
                    if at < self.path@.len() - 1 {
                        assert(self.path@.drop_last()[at] == x);
                    }
                }
            }
            assert(self.blocked@[succ[j] as int] && self.waiting()[succ[j] as int].contains(x));
        }
    }

    /// Leaving the vertex on top of the stack hides no cycle.
    #[verifier::spinoff_prover]
    proof fn lemma_leave_thorough(self, mid: Self, after: Self, found: bool, adjacent: Seq<usize>)
        requires
            self.inv(),
            self.thorough(),
            self.path@.len() >= 1,
            mid.frame(),
            mid.same_search(&self),
            adjacent == local_successors(self.graph@, self.scc@, self.path@.last() as int),
            found ==> released(
                self.blocked@,
                self.waiting(),
                mid.blocked@,
                mid.waiting(),
                self.region(),
            ) && !mid.blocked@[self.path@.last() as int],
            !found ==> mid.blocked@ == self.blocked@,
            !found ==> forall|x: int|
                0 <= x < self.scc.len() ==> #[trigger] mid.waiting()[x] == if adjacent.contains(
                    x as usize,
                ) {
                    self.waiting()[x].insert(self.path@.last())
                } else {
                    self.waiting()[x]
                },
            !found ==> forall|k: int|
                0 <= k < adjacent.len() ==> (#[trigger] adjacent[k]) < self.scc.len()
                    && adjacent[k] != self.s && self.blocked@[adjacent[k] as int],
            after.graph == mid.graph,
            after.scc@ == mid.scc@,
            after.s == mid.s,
            after.blocked@ == mid.blocked@,
            after.b@ == mid.b@,
            after.path@ == mid.path@.drop_last(),
        ensures
            after.thorough(),
    {
        let v = self.path@.last();
        let top = self.path@.len() - 1;
        assert(self.path@[top] == v);
        assert(after.waiting() == mid.waiting());
        assert(self.path@ =~= after.path@.push(v));
        assert forall|x: usize| !after.path@.contains(x) && x != v implies !self.path@.contains(x) by {
            if self.path@.contains(x) {
                let at = choose|at: int| 0 <= at < self.path@.len() && self.path@[at] == x;
                assert(after.path@[at] == x);
            }
        }
        assert forall|x: int, j: int|
            after.s < x < after.scc.len() && after.blocked@[x] && !after.path@.contains(x as usize)
                && 0 <= j < local_successors(after.graph@, after.scc@, x).len() implies {
            let w = #[trigger] local_successors(after.graph@, after.scc@, x)[j];
            after.blocked@[w as int] && after.waiting()[w as int].contains(x as usize)
        } by {
            let succ = local_successors(self.graph@, self.scc@, x);
            let w = succ[j];
            lemma_to_local_sound(self.scc@, self.graph@[self.scc@[x] as int]);
            if x == v {
                assert(adjacent.contains(w));
            } else {
                assert(self.blocked@[x]);
                assert(!self.path@.contains(x as usize));
                assert(self.blocked@[succ[j] as int] && self.waiting()[succ[j] as int].contains(
                    x as usize,
                ));
            }
        }
        assert forall|q: Seq<usize>| #[trigger]
            avoiding(after.graph@, after.scc@, after.s, after.path@, q) implies !after.blocked@[q[0] as int] by {
            if after.blocked@[q[0] as int] {
                if q.contains(v) {
                    let at = q.index_of(v);
                    if found {
                        assert(at != 0);
                        self.lemma_stays_blocked(mid, q, at - 1);
                        assert(self.waiting()[q[at] as int].contains(q[at - 1]));
                    } else {
                        lemma_avoiding_tail(self.graph@, self.scc@, self.s, after.path@, q, at);
                        let tail = q.skip(at);
                        assert(tail[0] == v);
                        if tail.len() == 1 {
                            let k = choose|k: int| 0 <= k < adjacent.len() && adjacent[k] == self.s;
                            assert(adjacent[k] != self.s);
                        } else {
                            lemma_avoiding_tail(
                                self.graph@,
                                self.scc@,
                                self.s,
                                after.path@,
                                tail,
                                1,
                            );
                            let rest = tail.skip(1);
                            assert(rest[0] == tail[1]);
                            assert(adjacent.contains(tail[1]));
                            let k = choose|k: int| 0 <= k < adjacent.len() && adjacent[k] == tail[1];
                            assert(self.blocked@[adjacent[k] as int]);
                            assert(!rest.contains(tail[0]));
                            assert forall|i: int| 0 <= i < rest.len() implies !self.path@.contains(
                                #[trigger] rest[i],
                            ) by {
                                assert(rest.contains(rest[i]));
                            }
                            assert(avoiding(self.graph@, self.scc@, self.s, self.path@, rest));
                        }
                    }
                } else {
                    assert forall|i: int| 0 <= i < q.len() implies !self.path@.contains(#[trigger] q[i]) by {
                        assert(q.contains(q[i]));
                    }
                    assert(avoiding(self.graph@, self.scc@, self.s, self.path@, q));
                }
            }
        }
    }

    /// Leaving the vertex on top of the stack keeps the search in order,
    /// whether it was released or made to wait for its successors.
    #[verifier::spinoff_prover]
    proof fn lemma_leave(self, mid: Self, after: Self, found: bool, adjacent: Seq<usize>)
        requires
            self.inv(),
            self.sealed(),
            self.path@.len() >= 1,
            mid.frame(),
            mid.same_search(&self),
            found ==> released(
                self.blocked@,
                self.waiting(),
                mid.blocked@,
                mid.waiting(),
                self.region(),
            ) && !mid.blocked@[self.path@.last() as int],
            !found ==> mid.blocked@ == self.blocked@,
            !found ==> forall|x: int|
                0 <= x < self.scc.len() ==> #[trigger] mid.waiting()[x] == if adjacent.contains(
                    x as usize,
                ) {
                    self.waiting()[x].insert(self.path@.last())
                } else {
                    self.waiting()[x]
                },
            !found ==> forall|k: int|
                0 <= k < adjacent.len() ==> (#[trigger] adjacent[k]) < self.scc.len()
                    && self.blocked@[adjacent[k] as int],
            after.graph == mid.graph,
            after.scc@ == mid.scc@,
            after.s == mid.s,
            after.blocked@ == mid.blocked@,
            after.b@ == mid.b@,
            after.stack@ == mid.stack@.drop_last(),
            after.path@ == mid.path@.drop_last(),
            after.explored@ == Seq::new(
                (self.path@.len() - 1) as nat,
                |i: int| self.explored@[i].insert(self.path@.last()),
            ),
        ensures
            after.inv(),
    {
        let n = self.scc.len();
        let v = self.path@.last();
        let top = self.path@.len() - 1;
        let path = after.path@;
        self.lemma_region();
        assert(self.path@[top] == v);
        assert(after.waiting() == mid.waiting());
        assert(after.frame());
        assert forall|i: int| 0 <= i < path.len() implies (#[trigger] path[i]) < n && after.stack@[i]
            == after.scc@[path[i] as int] && after.blocked@[path[i] as int] by {
            assert(path[i] == self.path@[i]);
            assert(!self.region().contains(self.path@[i]));
        }
        assert forall|i: int| 0 < i < path.len() implies local_successors(
            after.graph@,
            after.scc@,
            path[i - 1] as int,
        ).contains(#[trigger] path[i]) by {
            assert(path[i] == self.path@[i]);
        }
        assert forall|i: int, j: int| 0 <= i < path.len() && 0 <= j < path.len() && i != j implies path[i]
            != path[j] by {
            assert(self.path@[i] != self.path@[j]);
        }
        assert forall|x: int|
            0 <= x < n && x != after.s && !(#[trigger] after.blocked@[x]) implies after.waiting()[x]
            == Set::<usize>::empty() by {
            if !found {
                if adjacent.contains(x as usize) {
                    let k = choose|k: int| 0 <= k < adjacent.len() && adjacent[k] == x as usize;
                    assert(self.blocked@[adjacent[k] as int]);
                }
                assert(mid.waiting()[x] == self.waiting()[x]);
            }
        }
        assert forall|i: int, k: int| 0 <= k <= i < path.len() implies !(#[trigger] after.explored@[i].contains(
            path[k],
        )) by {
            assert(!self.explored@[i].contains(self.path@[k]));
            assert(self.path@[k] != self.path@[top]);
        }
        assert forall|i: int, j: int| 0 <= i <= j < path.len() implies (#[trigger] after.explored@[j]).subset_of(
            #[trigger] after.explored@[i],
        ) by {
            assert(self.explored@[j].subset_of(self.explored@[i]));
        }
        assert forall|i: int| 1 <= i < path.len() implies after.waiting()[(#[trigger] path[i]) as int].subset_of(
            after.explored@[i],
        ) by {
            assert(path[i] == self.path@[i]);
            assert(self.waiting()[self.path@[i] as int].subset_of(self.explored@[i]));
            assert(!self.region().contains(self.path@[i]));
        }
        assert forall|i: int, x: usize|
            0 <= i < path.len() && (#[trigger] after.explored@[i].contains(x)) implies x < n
            && after.waiting()[x as int].subset_of(after.explored@[i]) by {
            if x == v {
                assert(self.waiting()[self.path@[top] as int].subset_of(self.explored@[top]));
                assert(self.explored@[top].subset_of(self.explored@[i]));
            } else {
                assert(self.explored@[i].contains(x));
                assert(self.waiting()[x as int].subset_of(self.explored@[i]));
            }
        }
    }
}

} // verus!
