//! What the sequential and the parallel visits have in common.
//!
//! The type of the filter is a parameter of the traits, so that their
//! contracts can say with the filter what a visit has done.
use crate::algo::visits::breadth_first;
use crate::algo::visits::breadth_first::SingleThreadedBreadthFirstVisit;
use crate::algo::visits::depth_first;
use crate::algo::visits::depth_first::SingleThreadedDepthFirstVisit;
use crate::algo::visits::parallel_fast_cb::{
    kept, levels_done, ParallelBreadthFirstVisitFastCB,
};
use vstd::prelude::*;

verus! {

/// A sequential visit: it tells a callback of events of type `A`, asks a
/// filter of type `F` before it enters a node, and stops where the callback
/// says so.
pub trait SeqVisit<A, F: Fn(A) -> bool> {
    /// The invariant of the visit.
    spec fn inv(&self) -> bool;

    /// No visit was stopped on its way.
    spec fn at_rest(&self) -> bool;

    /// The number of nodes of the graph.
    spec fn node_count(&self) -> nat;

    /// The event names nodes of a graph with `n` nodes.
    spec fn names_nodes(e: A, n: nat) -> bool;

    /// No node was discovered.
    spec fn fresh(&self) -> bool;

    /// `self` holds of the nodes that were discovered in `before` what
    /// `before` held of them, and is a visit of the same graph with the same
    /// choices.
    spec fn keeps(&self, before: &Self) -> bool;

    /// `self` is `before` after a whole visit from `root` with the filter
    /// `filter`.
    spec fn visited_from(&self, before: &Self, root: int, filter: &F) -> bool;

    /// `self` is `before` after a whole visit from every node in turn with
    /// the filter `filter`.
    spec fn visited_all(&self, before: &Self, filter: &F) -> bool;

    /// Visits from `root` and says whether the visit came to its end:
    /// `false` says that the callback asked for a stop.
    fn visit_from_node<C: Fn(A) -> bool>(
        &mut self,
        root: usize,
        callback: &C,
        filter: &F,
    ) -> (completed: bool)
        requires
            old(self).inv(),
            old(self).at_rest(),
            root < old(self).node_count(),
            forall|e: A|
                Self::names_nodes(e, old(self).node_count()) ==> #[trigger] call_requires(
                    *callback,
                    (e,),
                ),
            forall|e: A|
                Self::names_nodes(e, old(self).node_count()) ==> #[trigger] call_requires(
                    *filter,
                    (e,),
                ),
        ensures
            final(self).node_count() == old(self).node_count(),
            final(self).inv(),
            final(self).keeps(old(self)),
            completed ==> final(self).at_rest(),
            completed ==> final(self).visited_from(old(self), root as int, filter),
            !completed ==> exists|e: A| #[trigger] call_ensures(*callback, (e,), false),
    ;

    /// Visits the whole graph and says whether the visits came to their
    /// end.
    fn visit<C: Fn(A) -> bool>(&mut self, callback: &C, filter: &F) -> (completed: bool)
        requires
            old(self).inv(),
            old(self).at_rest(),
            forall|e: A|
                Self::names_nodes(e, old(self).node_count()) ==> #[trigger] call_requires(
                    *callback,
                    (e,),
                ),
            forall|e: A|
                Self::names_nodes(e, old(self).node_count()) ==> #[trigger] call_requires(
                    *filter,
                    (e,),
                ),
        ensures
            final(self).node_count() == old(self).node_count(),
            final(self).inv(),
            final(self).keeps(old(self)),
            completed ==> final(self).at_rest(),
            completed ==> final(self).visited_all(old(self), filter),
            !completed ==> exists|e: A| #[trigger] call_ensures(*callback, (e,), false),
    ;

    /// Forgets every discovery; the graph and the choices stay.
    fn reset(&mut self)
        requires
            old(self).inv(),
        ensures
            final(self).inv(),
            final(self).at_rest(),
            final(self).fresh(),
            final(self).node_count() == old(self).node_count(),
    ;
}

impl<'a, F: Fn(breadth_first::Event) -> bool> SeqVisit<breadth_first::Event, F>
    for SingleThreadedBreadthFirstVisit<'a> {
    open spec fn inv(&self) -> bool {
        self.wf()
    }

    open spec fn at_rest(&self) -> bool {
        true
    }

    open spec fn node_count(&self) -> nat {
        self.spec_num_nodes()
    }

    open spec fn names_nodes(e: breadth_first::Event, n: nat) -> bool {
        breadth_first::event_in_range(e, n)
    }

    open spec fn fresh(&self) -> bool {
        &&& self.order().len() == 0
        &&& forall|v: int| 0 <= v < self.spec_num_nodes() ==> !#[trigger] self.visited(v)
    }

    open spec fn keeps(&self, before: &Self) -> bool {
        self.extends(before)
    }

    open spec fn visited_from(
        &self,
        before: &Self,
        root: int,
        filter: &F,
    ) -> bool {
        self.visit_done(before, root, filter)
    }

    open spec fn visited_all(
        &self,
        before: &Self,
        filter: &F,
    ) -> bool {
        forall|v: int| 0 <= v < self.spec_num_nodes() ==> #[trigger] self.root_tried(filter, v)
    }

    fn visit_from_node<C: Fn(breadth_first::Event) -> bool>(
        &mut self,
        root: usize,
        callback: &C,
        filter: &F,
    ) -> (completed: bool) {
        SingleThreadedBreadthFirstVisit::visit_from_node(self, root, callback, filter)
    }

    fn visit<C: Fn(breadth_first::Event) -> bool>(
        &mut self,
        callback: &C,
        filter: &F,
    ) -> (completed: bool) {
        SingleThreadedBreadthFirstVisit::visit(self, callback, filter)
    }

    fn reset(&mut self) {
        SingleThreadedBreadthFirstVisit::reset(self)
    }
}

impl<'a, F: Fn(depth_first::Event) -> bool> SeqVisit<depth_first::Event, F>
    for SingleThreadedDepthFirstVisit<'a> {
    open spec fn inv(&self) -> bool {
        self.wf()
    }

    open spec fn at_rest(&self) -> bool {
        self.idle()
    }

    open spec fn node_count(&self) -> nat {
        self.adjacency().len()
    }

    open spec fn names_nodes(e: depth_first::Event, n: nat) -> bool {
        depth_first::event_in_range(e, n)
    }

    open spec fn fresh(&self) -> bool {
        self.tables() == depth_first::fresh(self.adjacency().len())
    }

    open spec fn keeps(&self, before: &Self) -> bool {
        &&& self.adjacency() == before.adjacency()
        &&& self.spec_three_states() == before.spec_three_states()
        &&& depth_first::grown(before.tables(), self.tables())
    }

    open spec fn visited_from(
        &self,
        before: &Self,
        root: int,
        filter: &F,
    ) -> bool {
        depth_first::visit_done(before.adjacency(), before.tables(), self.tables(), root, filter)
    }

    open spec fn visited_all(
        &self,
        before: &Self,
        filter: &F,
    ) -> bool {
        depth_first::roots_done(
            before.adjacency(),
            before.tables(),
            self.tables(),
            filter,
            before.adjacency().len() as int,
        )
    }

    fn visit_from_node<C: Fn(depth_first::Event) -> bool>(
        &mut self,
        root: usize,
        callback: &C,
        filter: &F,
    ) -> (completed: bool) {
        let completed = SingleThreadedDepthFirstVisit::visit_from_node(self, root, callback, filter);
        proof {
            if !completed {
                assert(depth_first::stopped_at(callback, self.tables(), self.adjacency().len()));
            }
        }
        completed
    }

    fn visit<C: Fn(depth_first::Event) -> bool>(
        &mut self,
        callback: &C,
        filter: &F,
    ) -> (completed: bool) {
        let completed = SingleThreadedDepthFirstVisit::visit(self, callback, filter);
        proof {
            if !completed {
                assert(depth_first::stopped_at(callback, self.tables(), self.adjacency().len()));
            }
        }
        completed
    }

    fn reset(&mut self) {
        SingleThreadedDepthFirstVisit::reset(self)
    }
}

/// A visit whose levels can be spread over threads: it tells a callback
/// of events of type `A`, asks a filter of type `F` before it enters a
/// node, and stops where the callback says so.
pub trait ParVisit<A, F: Fn(A) -> bool> {
    /// The invariant of the visit.
    spec fn inv(&self) -> bool;

    /// No visit was stopped on its way.
    spec fn at_rest(&self) -> bool;

    /// The number of nodes of the graph.
    spec fn node_count(&self) -> nat;

    /// The event names nodes of a graph with `n` nodes.
    spec fn names_nodes(e: A, n: nat) -> bool;

    /// No node was discovered.
    spec fn fresh(&self) -> bool;

    /// `self` holds of the nodes that were discovered in `before` what
    /// `before` held of them, and is a visit of the same graph with the same
    /// choices.
    spec fn keeps(&self, before: &Self) -> bool;

    /// `self` is `before` after a whole visit from `root` with the filter
    /// `filter`.
    spec fn visited_from(&self, before: &Self, root: int, filter: &F) -> bool;

    /// `self` is `before` after a whole visit from every node in turn with
    /// the filter `filter`.
    spec fn visited_all(&self, before: &Self, filter: &F) -> bool;

    /// Visits from `root` and says whether the visit came to its end:
    /// `false` says that the callback asked for a stop.
    fn visit_from_node<C: Fn(A) -> bool>(
        &mut self,
        root: usize,
        callback: &C,
        filter: &F,
    ) -> (completed: bool)
        requires
            old(self).inv(),
            old(self).at_rest(),
            root < old(self).node_count(),
            forall|e: A|
                Self::names_nodes(e, old(self).node_count()) ==> #[trigger] call_requires(
                    *callback,
                    (e,),
                ),
            forall|e: A|
                Self::names_nodes(e, old(self).node_count()) ==> #[trigger] call_requires(
                    *filter,
                    (e,),
                ),
        ensures
            final(self).node_count() == old(self).node_count(),
            final(self).inv(),
            final(self).keeps(old(self)),
            completed ==> final(self).at_rest(),
            completed ==> final(self).visited_from(old(self), root as int, filter),
            !completed ==> exists|e: A| #[trigger] call_ensures(*callback, (e,), false),
    ;

    /// Visits the whole graph and says whether the visits came to their
    /// end.
    fn visit<C: Fn(A) -> bool>(&mut self, callback: &C, filter: &F) -> (completed: bool)
        requires
            old(self).inv(),
            old(self).at_rest(),
            forall|e: A|
                Self::names_nodes(e, old(self).node_count()) ==> #[trigger] call_requires(
                    *callback,
                    (e,),
                ),
            forall|e: A|
                Self::names_nodes(e, old(self).node_count()) ==> #[trigger] call_requires(
                    *filter,
                    (e,),
                ),
        ensures
            final(self).node_count() == old(self).node_count(),
            final(self).inv(),
            final(self).keeps(old(self)),
            completed ==> final(self).at_rest(),
            completed ==> final(self).visited_all(old(self), filter),
            !completed ==> exists|e: A| #[trigger] call_ensures(*callback, (e,), false),
    ;

    /// Forgets every discovery; the graph and the choices stay.
    fn reset(&mut self)
        requires
            old(self).inv(),
        ensures
            final(self).inv(),
            final(self).at_rest(),
            final(self).fresh(),
            final(self).node_count() == old(self).node_count(),
    ;
}

impl<'a, F: Fn(breadth_first::Event) -> bool> ParVisit<breadth_first::Event, F>
    for ParallelBreadthFirstVisitFastCB<'a> {
    open spec fn inv(&self) -> bool {
        self.wf()
    }

    open spec fn at_rest(&self) -> bool {
        true
    }

    open spec fn node_count(&self) -> nat {
        self.spec_num_nodes()
    }

    open spec fn names_nodes(e: breadth_first::Event, n: nat) -> bool {
        breadth_first::event_in_range(e, n)
    }

    open spec fn fresh(&self) -> bool {
        self.is_fresh()
    }

    open spec fn keeps(&self, before: &Self) -> bool {
        &&& self.same_choices(before)
        &&& kept(before.distances(), before.parents(), self.distances(), self.parents())
    }

    open spec fn visited_from(
        &self,
        before: &Self,
        root: int,
        filter: &F,
    ) -> bool {
        levels_done(
            before.adjacency(),
            before.distances(),
            before.parents(),
            self.distances(),
            self.parents(),
            root,
            filter,
        )
    }

    open spec fn visited_all(
        &self,
        before: &Self,
        filter: &F,
    ) -> bool {
        forall|v: int| 0 <= v < self.spec_num_nodes() ==> #[trigger] self.root_tried(filter, v)
    }

    fn visit_from_node<C: Fn(breadth_first::Event) -> bool>(
        &mut self,
        root: usize,
        callback: &C,
        filter: &F,
    ) -> (completed: bool) {
        ParallelBreadthFirstVisitFastCB::visit_from_node(self, root, callback, filter)
    }

    fn visit<C: Fn(breadth_first::Event) -> bool>(
        &mut self,
        callback: &C,
        filter: &F,
    ) -> (completed: bool) {
        ParallelBreadthFirstVisitFastCB::visit(self, callback, filter)
    }

    fn reset(&mut self) {
        ParallelBreadthFirstVisitFastCB::reset(self)
    }
}

} // verus!
