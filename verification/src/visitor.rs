//! What the search hands its cycles to: a caller's function, or a list.

use crate::cycles::applied;
use crate::graph::{is_elementary_cycle, lists, DiGraph};
use std::ops::ControlFlow;
use vstd::prelude::*;
use vstd::slice::slice_to_vec;

verus! {

/// A receiver of cycles that may ask for the search to end with a value.
/// `rule` is the part of the receiver that decides what it takes and how it
/// may answer; no call changes it. `seen` lists the cycles taken so far.
pub trait CycleVisitor<B> {
    type Rule;

    spec fn rule(&self) -> Self::Rule;

    spec fn seen(&self) -> Seq<Seq<usize>>;

    /// The receiver may be handed `cycle`, found in `graph`.
    spec fn takes(rule: Self::Rule, graph: &DiGraph, cycle: Seq<usize>) -> bool;

    /// `answer` is a thing the receiver may say when handed `cycle`.
    spec fn may_answer(
        rule: Self::Rule,
        graph: &DiGraph,
        cycle: Seq<usize>,
        answer: ControlFlow<B>,
    ) -> bool;

    fn visit(&mut self, graph: &DiGraph, cycle: &[usize]) -> (answer: ControlFlow<B>)
        requires
            Self::takes(old(self).rule(), graph, cycle@),
        ensures
            final(self).rule() == old(self).rule(),
            final(self).seen() == old(self).seen().push(cycle@),
            Self::may_answer(old(self).rule(), graph, cycle@, answer),
    ;
}

/// `visitor` may be called on `graph` and any slice that holds `cycle`.
pub open spec fn callable<F, R>(visitor: F, graph: &DiGraph, cycle: Seq<usize>) -> bool where
    F: FnMut(&DiGraph, &[usize]) -> R,
 {
    forall|nodes: &[usize]| nodes@ == cycle ==> call_requires(visitor, (graph, nodes))
}

/// Hands each cycle to a function that answers whether to go on.
pub struct Asking<F> {
    pub visitor: F,
    pub seen: Ghost<Seq<Seq<usize>>>,
}

impl<B, F> CycleVisitor<B> for Asking<F> where F: FnMut(&DiGraph, &[usize]) -> ControlFlow<B> {
    type Rule = F;

    open spec fn rule(&self) -> F {
        self.visitor
    }

    open spec fn seen(&self) -> Seq<Seq<usize>> {
        self.seen@
    }

    open spec fn takes(rule: F, graph: &DiGraph, cycle: Seq<usize>) -> bool {
        callable(rule, graph, cycle)
    }

    open spec fn may_answer(
        rule: F,
        graph: &DiGraph,
        cycle: Seq<usize>,
        answer: ControlFlow<B>,
    ) -> bool {
        applied(graph, rule, cycle, answer)
    }

    fn visit(&mut self, graph: &DiGraph, cycle: &[usize]) -> (answer: ControlFlow<B>) {
        let answer = (self.visitor)(graph, cycle);
        self.seen = Ghost(self.seen@.push(cycle@));
        answer
    }
}

/// Hands each cycle to a function and always goes on.
pub struct Telling<F> {
    pub visitor: F,
    pub seen: Ghost<Seq<Seq<usize>>>,
}

impl<F> CycleVisitor<()> for Telling<F> where F: FnMut(&DiGraph, &[usize]) {
    type Rule = F;

    open spec fn rule(&self) -> F {
        self.visitor
    }

    open spec fn seen(&self) -> Seq<Seq<usize>> {
        self.seen@
    }

    open spec fn takes(rule: F, graph: &DiGraph, cycle: Seq<usize>) -> bool {
        callable(rule, graph, cycle)
    }

    open spec fn may_answer(
        rule: F,
        graph: &DiGraph,
        cycle: Seq<usize>,
        answer: ControlFlow<()>,
    ) -> bool {
        answer == ControlFlow::<(), ()>::Continue(()) && applied(graph, rule, cycle, ())
    }

    fn visit(&mut self, graph: &DiGraph, cycle: &[usize]) -> (answer: ControlFlow<()>) {
        (self.visitor)(graph, cycle);
        self.seen = Ghost(self.seen@.push(cycle@));
        ControlFlow::Continue(())
    }
}

/// Keeps a copy of each cycle and always goes on.
pub struct Collecting {
    pub cycles: Vec<Vec<usize>>,
}

impl CycleVisitor<()> for Collecting {
    type Rule = ();

    open spec fn rule(&self) -> () {
        ()
    }

    open spec fn seen(&self) -> Seq<Seq<usize>> {
        lists(self.cycles)
    }

    open spec fn takes(rule: (), graph: &DiGraph, cycle: Seq<usize>) -> bool {
        true
    }

    open spec fn may_answer(
        rule: (),
        graph: &DiGraph,
        cycle: Seq<usize>,
        answer: ControlFlow<()>,
    ) -> bool {
        answer == ControlFlow::<(), ()>::Continue(())
    }

    fn visit(&mut self, graph: &DiGraph, cycle: &[usize]) -> (answer: ControlFlow<()>) {
        self.cycles.push(slice_to_vec(cycle));
        assert(lists(self.cycles) =~= lists(old(self).cycles).push(cycle@));
        ControlFlow::Continue(())
    }
}

/// The receiver may be handed every elementary cycle of `graph`.
pub open spec fn takes_cycles<B, V: CycleVisitor<B>>(rule: V::Rule, graph: &DiGraph) -> bool {
    forall|cycle: Seq<usize>|
        is_elementary_cycle(graph@, cycle) ==> #[trigger] V::takes(rule, graph, cycle)
}

/// Between `before` and `after` the receiver was handed elementary cycles of
/// `graph`, one after the other, and nothing else. To each it answered that
/// the search should go on; but where `broke` holds a value, it was to the
/// last of them that it answered with that value instead.
pub open spec fn reports<B, V: CycleVisitor<B>>(
    before: V,
    after: V,
    graph: &DiGraph,
    broke: Option<B>,
) -> bool {
    let asked = if broke.is_some() {
        after.seen().len() - 1
    } else {
        after.seen().len() as int
    };
    &&& after.rule() == before.rule()
    &&& before.seen().len() <= after.seen().len()
    &&& after.seen().take(before.seen().len() as int) =~= before.seen()
    &&& forall|i: int|
        before.seen().len() <= i < after.seen().len() ==> is_elementary_cycle(
            graph@,
            #[trigger] after.seen()[i],
        )
    &&& forall|i: int|
        before.seen().len() <= i < asked ==> V::may_answer(
            before.rule(),
            graph,
            #[trigger] after.seen()[i],
            ControlFlow::Continue(()),
        )
    &&& broke matches Some(value) ==> before.seen().len() < after.seen().len() && V::may_answer(
        before.rule(),
        graph,
        after.seen().last(),
        ControlFlow::Break(value),
    )
}

/// Reports that follow each other add up to one.
pub proof fn lemma_reports_chain<B, V: CycleVisitor<B>>(
    first: V,
    second: V,
    third: V,
    graph: &DiGraph,
    broke: Option<B>,
)
    requires
        reports(first, second, graph, None::<B>),
        reports(second, third, graph, broke),
    ensures
        reports(first, third, graph, broke),
{
    assert(third.seen().take(first.seen().len() as int) =~= third.seen().take(
        second.seen().len() as int,
    ).take(first.seen().len() as int));
    assert forall|i: int| first.seen().len() <= i < third.seen().len() implies is_elementary_cycle(
        graph@,
        #[trigger] third.seen()[i],
    ) by {
        if i < second.seen().len() {
            assert(third.seen().take(second.seen().len() as int)[i] == second.seen()[i]);
        }
    }
    let asked = if broke.is_some() {
        third.seen().len() - 1
    } else {
        third.seen().len() as int
    };
    assert forall|i: int| first.seen().len() <= i < asked implies V::may_answer(
        first.rule(),
        graph,
        #[trigger] third.seen()[i],
        ControlFlow::Continue(()),
    ) by {
        if i < second.seen().len() {
            assert(third.seen().take(second.seen().len() as int)[i] == second.seen()[i]);
        }
    }
}

} // verus!
