//! The breadth-first visit with fast callbacks.
//!
//! The visit goes level by level: the nodes discovered at one level stand
//! in a frontier, and the next level starts from them. The visit keeps for
//! every node no more than whether it was discovered. Before it follows an
//! arc it asks the filter; the callback is told of the start of a visit and
//! of every discovery, and it is not told of the arcs that lead to nodes
//! discovered before. The frontier is one to which many threads can push;
//! the number of nodes of a level that one task takes and the number of
//! threads are kept for the caller that spreads the levels over threads,
//! and the visit itself takes the nodes of a level one after the other.
use crate::algo::visits::breadth_first::{
    discovery, event_in_range, is_distance_table, lemma_distinct_below, reached_through_arc,
    stopped_by, turn_of, Event, UNREACHED,
};
use crate::algo::visits::frontier::{
    empty_frontier, frontier_nodes, holds_nothing, nodes_of, push_node,
};
use crate::utils::marks::Marks;
use crate::graph::{has_arc, successors_in_range, Graph};
use parallel_frontier::Frontier;
use vstd::multiset::Multiset;
use vstd::prelude::*;

verus! {

/// The choices for a breadth-first visit with fast callbacks.
pub struct ParallelBreadthFirstVisitFastCBBuilder<'a> {
    /// The graph to visit.
    pub graph: &'a Graph,
    /// The node at which a visit of the whole graph starts.
    pub start: usize,
    /// The number of nodes of a level that one task takes.
    pub granularity: usize,
    /// The number of threads, where the default is not wanted.
    pub threads: Option<usize>,
}

impl<'a> ParallelBreadthFirstVisitFastCBBuilder<'a> {
    /// The choices by default: the visit of the whole graph starts at node
    /// 0, a task takes one node, and the number of threads is left open.
    pub fn new(graph: &'a Graph) -> (builder: Self)
        ensures
            builder == (ParallelBreadthFirstVisitFastCBBuilder {
                graph,
                start: 0,
                granularity: 1,
                threads: None,
            }),
    {
        ParallelBreadthFirstVisitFastCBBuilder { graph, start: 0, granularity: 1, threads: None }
    }

    /// Sets the node at which a visit of the whole graph starts.
    pub fn start(self, start: usize) -> (builder: Self)
        ensures
            builder == (ParallelBreadthFirstVisitFastCBBuilder { start, ..self }),
    {
        ParallelBreadthFirstVisitFastCBBuilder { start, ..self }
    }

    /// Sets the number of nodes of a level that one task takes.
    pub fn granularity(self, granularity: usize) -> (builder: Self)
        ensures
            builder == (ParallelBreadthFirstVisitFastCBBuilder { granularity, ..self }),
    {
        ParallelBreadthFirstVisitFastCBBuilder { granularity, ..self }
    }

    /// Leaves the number of threads open.
    pub fn default_threadpool(self) -> (builder: Self)
        ensures
            builder == (ParallelBreadthFirstVisitFastCBBuilder { threads: None, ..self }),
    {
        ParallelBreadthFirstVisitFastCBBuilder { threads: None, ..self }
    }

    /// Sets the number of threads.
    pub fn num_threads(self, num_threads: usize) -> (builder: Self)
        ensures
            builder == (ParallelBreadthFirstVisitFastCBBuilder {
                threads: Some(num_threads),
                ..self
            }),
    {
        ParallelBreadthFirstVisitFastCBBuilder { threads: Some(num_threads), ..self }
    }

    /// The visit with these choices, which has discovered nothing.
    pub fn build(self) -> (visit: ParallelBreadthFirstVisitFastCB<'a>)
        requires
            self.graph.wf(),
        ensures
            visit.wf(),
            visit.adjacency() == self.graph@,
            visit.spec_start() == self.start,
            visit.spec_granularity() == self.granularity,
            visit.spec_threads() == self.threads,
            visit.is_fresh(),
    {
        ParallelBreadthFirstVisitFastCB::with_choices(
            self.graph,
            self.start,
            self.granularity,
            self.threads,
        )
    }
}

/// Node `v` has a distance in the table.
pub open spec fn reached(dist: Seq<usize>, v: int) -> bool {
    dist[v] != UNREACHED
}

/// The tables hold what the tables before held of the nodes that were
/// reached then.
pub open spec fn kept(
    before: Seq<usize>,
    before_parent: Seq<usize>,
    dist: Seq<usize>,
    parent: Seq<usize>,
) -> bool {
    &&& dist.len() == before.len()
    &&& parent.len() == before_parent.len()
    &&& forall|v: int|
        0 <= v < before.len() && reached(before, v) ==> #[trigger] dist[v] == before[v] && parent[v]
            == before_parent[v]
}

/// Node `v` was discovered through an arc from its parent, which was
/// discovered in the same visit and is one step closer to the root, and
/// the filter let the discovery pass.
pub open spec fn found_through<F: Fn(Event) -> bool>(
    adj: Seq<Seq<usize>>,
    before: Seq<usize>,
    dist: Seq<usize>,
    parent: Seq<usize>,
    root: int,
    filter: &F,
    v: int,
) -> bool {
    let p = parent[v] as int;
    &&& 0 <= p < adj.len()
    &&& reached(dist, p)
    &&& !reached(before, p)
    &&& has_arc(adj, p, v)
    &&& dist[v] == dist[p] + 1
    &&& call_ensures(*filter, (discovery(v, p, root, dist[v] as int),), true)
}

/// The visit is through with the arc number `k` of node `u`: its target
/// is discovered, no further from the root than one step more than `u`
/// where it was discovered in the same visit; or else the filter turned the
/// discovery through this arc down.
pub open spec fn arc_done<F: Fn(Event) -> bool>(
    adj: Seq<Seq<usize>>,
    before: Seq<usize>,
    dist: Seq<usize>,
    root: int,
    filter: &F,
    u: int,
    k: int,
) -> bool {
    let v = adj[u][k] as int;
    ||| reached(dist, v) && (!reached(before, v) ==> dist[v] <= dist[u] + 1)
    ||| call_ensures(*filter, (discovery(v, u, root, dist[u] + 1),), false)
}

/// The tables are the tables before after a whole visit from `root`:
/// nothing more where the root was discovered before or the filter turned
/// it down, and else the root at distance 0 with all that the visit
/// discovered from it.
pub open spec fn levels_done<F: Fn(Event) -> bool>(
    adj: Seq<Seq<usize>>,
    before: Seq<usize>,
    before_parent: Seq<usize>,
    dist: Seq<usize>,
    parent: Seq<usize>,
    root: int,
    filter: &F,
) -> bool {
    &&& kept(before, before_parent, dist, parent)
    &&& if reached(before, root) {
        dist == before
    } else if dist == before {
        call_ensures(*filter, (discovery(root, root, root, 0),), false)
    } else {
        &&& dist[root] == 0
        &&& parent[root] == root
        &&& call_ensures(*filter, (discovery(root, root, root, 0),), true)
        &&& forall|v: int|
            0 <= v < adj.len() && reached(dist, v) && !reached(before, v) && v != root
                ==> #[trigger] found_through(adj, before, dist, parent, root, filter, v)
        &&& forall|u: int, k: int|
            0 <= u < adj.len() && reached(dist, u) && !reached(before, u) && 0 <= k < adj[u].len()
                ==> #[trigger] arc_done(adj, before, dist, root, filter, u, k)
    }
}

/// A whole visit from a root, of a graph of which nothing was discovered
/// and with a filter that turns nothing down, leaves the table of the
/// distances from the root.
pub proof fn lemma_levels_are_distances<F: Fn(Event) -> bool>(
    adj: Seq<Seq<usize>>,
    before: Seq<usize>,
    before_parent: Seq<usize>,
    dist: Seq<usize>,
    parent: Seq<usize>,
    root: int,
    filter: &F,
)
    requires
        successors_in_range(adj),
        before.len() == adj.len(),
        0 <= root < adj.len(),
        forall|v: int| 0 <= v < adj.len() ==> !reached(before, v),
        forall|e: Event| !#[trigger] call_ensures(*filter, (e,), false),
        levels_done(adj, before, before_parent, dist, parent, root, filter),
    ensures
        is_distance_table(adj, root, dist),
{
    assert(dist != before) by {
        if dist == before {
            assert(call_ensures(*filter, (discovery(root, root, root, 0),), false));
        }
    }
    assert forall|v: int| 0 <= v < adj.len() && dist[v] != UNREACHED
        && v != root implies #[trigger] reached_through_arc(
        adj,
        dist,
        v,
    ) by {
        assert(found_through(adj, before, dist, parent, root, filter, v));
        let p = parent[v] as int;
        assert(dist[p] + 1 == dist[v]);
    }
    assert forall|u: int, k: int|
        0 <= u < adj.len() && dist[u] != UNREACHED && 0 <= k < adj[u].len() implies dist[(
    #[trigger] adj[u][k]) as int] != UNREACHED && dist[adj[u][k] as int] <= dist[u] + 1 by {
        assert(adj[u][k] < adj.len());
        assert(arc_done(adj, before, dist, root, filter, u, k));
    }
}

/// Two lists with the same entries, each as often in the one as in the
/// other, hold the same nodes.
pub proof fn lemma_same_nodes(a: Seq<usize>, b: Seq<usize>)
    requires
        a.to_multiset() == b.to_multiset(),
    ensures
        a.len() == b.len(),
        forall|x: usize| a.contains(x) <==> b.contains(x),
{
    a.to_multiset_ensures();
    b.to_multiset_ensures();
    assert forall|x: usize| a.contains(x) <==> b.contains(x) by {
        assert(a.contains(x) <==> a.to_multiset().count(x) > 0);
        assert(b.contains(x) <==> b.to_multiset().count(x) > 0);
    }
}

/// A breadth-first visit with fast callbacks.
pub struct ParallelBreadthFirstVisitFastCB<'a> {
    graph: &'a Graph,
    start: usize,
    granularity: usize,
    threads: Option<usize>,
    visited: Marks,
    distance: Ghost<Seq<usize>>,
    parent: Ghost<Seq<usize>>,
    order: Ghost<Seq<usize>>,
}

/// The event is the discovery of a node or the start of a visit.
pub open spec fn is_told(e: Event) -> bool {
    !(e is Known)
}

impl<'a> ParallelBreadthFirstVisitFastCB<'a> {
    /// The successors of every node of the graph.
    pub closed spec fn adjacency(&self) -> Seq<Seq<usize>> {
        self.graph@
    }

    /// The number of nodes.
    pub open spec fn spec_num_nodes(&self) -> nat {
        self.adjacency().len()
    }

    /// The node at which a visit of the whole graph starts.
    pub closed spec fn spec_start(&self) -> usize {
        self.start
    }

    /// The number of nodes of a level that one task takes.
    pub closed spec fn spec_granularity(&self) -> usize {
        self.granularity
    }

    /// The number of threads, where the default is not wanted.
    pub closed spec fn spec_threads(&self) -> Option<usize> {
        self.threads
    }

    /// For every node its distance from the root of the visit that
    /// discovered it, or [`UNREACHED`]. The visit does not keep the
    /// distances: they say what it has done.
    pub closed spec fn distances(&self) -> Seq<usize> {
        self.distance@
    }

    /// For every discovered node the node through which it was discovered.
    pub closed spec fn parents(&self) -> Seq<usize> {
        self.parent@
    }

    /// Whether node `v` was discovered.
    pub open spec fn visited(&self, v: int) -> bool {
        reached(self.distances(), v)
    }

    /// No node was discovered.
    pub open spec fn is_fresh(&self) -> bool {
        forall|v: int| 0 <= v < self.spec_num_nodes() ==> !#[trigger] self.visited(v)
    }

    /// The invariant of the visit: the marks of the discovered nodes agree
    /// with the distances, and the discovered nodes stand, each once, in the
    /// order of their discovery, none earlier than its distance says.
    pub closed spec fn wf(&self) -> bool {
        let n = self.graph@.len();
        &&& self.graph.wf()
        &&& self.visited@.len() == n
        &&& self.distance@.len() == n
        &&& self.parent@.len() == n
        &&& self.order@.no_duplicates()
        &&& forall|v: int|
            0 <= v < n ==> (#[trigger] self.visited@[v]) == (self.distance@[v] != UNREACHED)
        &&& forall|i: int|
            0 <= i < self.order@.len() ==> (#[trigger] self.order@[i]) < n
                && self.distance@[self.order@[i] as int] <= i
        &&& forall|v: int|
            0 <= v < n && self.distance@[v] != UNREACHED ==> #[trigger] self.order@.contains(v as usize)
    }

    /// What the invariant says of the tables.
    pub proof fn lemma_wf(&self)
        requires
            self.wf(),
        ensures
            self.distances().len() == self.spec_num_nodes(),
            self.parents().len() == self.spec_num_nodes(),
            self.spec_num_nodes() < usize::MAX,
            successors_in_range(self.adjacency()),
    {
        self.graph.lemma_wf();
    }

    fn with_choices(graph: &'a Graph, start: usize, granularity: usize, threads: Option<usize>) -> (visit:
        Self)
        requires
            graph.wf(),
        ensures
            visit.wf(),
            visit.adjacency() == graph@,
            visit.spec_start() == start,
            visit.spec_granularity() == granularity,
            visit.spec_threads() == threads,
            visit.is_fresh(),
    {
        let n: usize = graph.num_nodes();
        ParallelBreadthFirstVisitFastCB {
            graph,
            start,
            granularity,
            threads,
            visited: Marks::new(n),
            distance: Ghost(Seq::new(n as nat, |v: int| UNREACHED)),
            parent: Ghost(Seq::new(n as nat, |v: int| 0usize)),
            order: Ghost(Seq::empty()),
        }
    }

    /// A visit of `graph` that has discovered nothing, with tasks of
    /// `granularity` nodes and the number of threads left open.
    pub fn new(graph: &'a Graph, granularity: usize) -> (visit: Self)
        requires
            graph.wf(),
        ensures
            visit.wf(),
            visit.adjacency() == graph@,
            visit.spec_start() == 0,
            visit.spec_granularity() == granularity,
            visit.spec_threads() is None,
            visit.is_fresh(),
    {
        Self::with_choices(graph, 0, granularity, None)
    }

    /// A visit of `graph` that has discovered nothing, with tasks of
    /// `granularity` nodes and `num_threads` threads.
    pub fn with_num_threads(graph: &'a Graph, granularity: usize, num_threads: usize) -> (visit: Self)
        requires
            graph.wf(),
        ensures
            visit.wf(),
            visit.adjacency() == graph@,
            visit.spec_start() == 0,
            visit.spec_granularity() == granularity,
            visit.spec_threads() == Some(num_threads),
            visit.is_fresh(),
    {
        Self::with_choices(graph, 0, granularity, Some(num_threads))
    }

    /// The node at which a visit of the whole graph starts.
    pub fn start(&self) -> (start: usize)
        ensures
            start == self.spec_start(),
    {
        self.start
    }

    /// The number of nodes of a level that one task takes.
    pub fn granularity(&self) -> (granularity: usize)
        ensures
            granularity == self.spec_granularity(),
    {
        self.granularity
    }

    /// The number of threads, where the default is not wanted.
    pub fn num_threads(&self) -> (threads: Option<usize>)
        ensures
            threads == self.spec_threads(),
    {
        self.threads
    }

    /// Whether `node` was discovered.
    pub fn is_visited(&self, node: usize) -> (known: bool)
        requires
            self.wf(),
            node < self.spec_num_nodes(),
        ensures
            known == self.visited(node as int),
    {
        self.visited.get(node)
    }

    /// What a visit leaves as it was: the graph and the choices.
    pub open spec fn same_choices(&self, before: &Self) -> bool {
        &&& self.adjacency() == before.adjacency()
        &&& self.spec_start() == before.spec_start()
        &&& self.spec_granularity() == before.spec_granularity()
        &&& self.spec_threads() == before.spec_threads()
    }

    /// Forgets every discovery.
    pub fn reset(&mut self)
        requires
            old(self).wf(),
        ensures
            final(self).wf(),
            final(self).same_choices(old(self)),
            final(self).is_fresh(),
    {
        let fresh = Self::with_choices(self.graph, self.start, self.granularity, self.threads);
        *self = fresh;
    }
}

/// One of the positions from `lo` to before `hi` of the order holds the
/// node.
pub open spec fn in_level(order: Seq<usize>, lo: int, hi: int, node: int) -> bool {
    exists|x: int| lo <= x < hi && #[trigger] order[x] == node
}

impl<'a> ParallelBreadthFirstVisitFastCB<'a> {
    /// The discovered nodes in the order of their discovery. The visit
    /// does not keep the order: it says what the visit has done.
    pub closed spec fn order(&self) -> Seq<usize> {
        self.order@
    }

    /// `self` is `before` with a visit from `root` under way: the nodes of
    /// the order before position `lo` are closer to the root than `d` and
    /// the visit is through with their arcs; those from `lo` to before `hi`
    /// are at distance `d`; and those from `hi` on are at distance `d + 1`.
    pub open spec fn under_way<F: Fn(Event) -> bool>(
        &self,
        before: &Self,
        root: int,
        filter: &F,
        d: int,
        lo: int,
        hi: int,
    ) -> bool {
        let adj = self.adjacency();
        let dist = self.distances();
        let q = self.order();
        let first = before.order().len() as int;
        &&& self.same_choices(before)
        &&& kept(before.distances(), before.parents(), dist, self.parents())
        &&& first <= lo <= hi <= q.len()
        &&& first < q.len()
        &&& q.subrange(0, first) == before.order()
        &&& q[first] == root
        &&& dist[root] == 0
        &&& self.parents()[root] == root
        &&& call_ensures(*filter, (discovery(root, root, root, 0),), true)
        &&& forall|i: int| first <= i < q.len() ==> !before.visited(#[trigger] q[i] as int)
        &&& forall|i: int|
            first < i < q.len() ==> found_through(
                adj,
                before.distances(),
                dist,
                self.parents(),
                root,
                filter,
                #[trigger] q[i] as int,
            )
        &&& forall|i: int| first <= i < lo ==> dist[#[trigger] q[i] as int] < d
        &&& forall|i: int| lo <= i < hi ==> dist[#[trigger] q[i] as int] == d
        &&& forall|i: int| hi <= i < q.len() ==> dist[#[trigger] q[i] as int] == d + 1
        &&& forall|i: int, k: int|
            first <= i < lo && 0 <= k < adj[q[i] as int].len() ==> #[trigger] arc_done(
                adj,
                before.distances(),
                dist,
                root,
                filter,
                q[i] as int,
                k,
            )
    }

    /// What the invariant says of the order.
    proof fn lemma_order(&self)
        requires
            self.wf(),
        ensures
            self.order().no_duplicates(),
            self.order().len() <= self.spec_num_nodes(),
            self.spec_num_nodes() < usize::MAX,
            self.distances().len() == self.spec_num_nodes(),
            self.parents().len() == self.spec_num_nodes(),
            successors_in_range(self.adjacency()),
            forall|i: int|
                0 <= i < self.order().len() ==> (#[trigger] self.order()[i]) < self.spec_num_nodes()
                    && self.visited(self.order()[i] as int) && self.distances()[self.order()[i] as int]
                    <= i,
            forall|v: int|
                0 <= v < self.spec_num_nodes() && self.visited(v) ==> #[trigger] self.order().contains(
                    v as usize,
                ),
    {
        self.graph.lemma_wf();
        lemma_distinct_below(self.order@, self.graph@.len());
    }

    /// The event that tells of the discovery of `v` in a visit from `root`.
    pub open spec fn discovery_of(&self, v: int, root: int) -> Event {
        discovery(v, self.parents()[v] as int, root, self.distances()[v] as int)
    }

    /// The callback was told of the start of the visit from `root` and of
    /// every discovery that the visit made since `before`, and each time it
    /// let the visit go on.
    pub open spec fn discoveries_told<C: Fn(Event) -> bool>(
        &self,
        before: &Self,
        root: int,
        callback: &C,
    ) -> bool {
        forall|v: int|
            0 <= v < self.spec_num_nodes() && self.visited(v) && !before.visited(v) ==> call_ensures(
                *callback,
                (Event::Init { root: root as usize },),
                true,
            ) && call_ensures(*callback, (#[trigger] self.discovery_of(v, root),), true)
    }

    /// The callback was told of the discovery of `v` in a visit from some
    /// root, after it was told of the start of that visit, and let the
    /// visit go on.
    pub open spec fn told_of<C: Fn(Event) -> bool>(&self, v: int, callback: &C) -> bool {
        exists|root: int|
            0 <= root < self.spec_num_nodes() && call_ensures(
                *callback,
                (Event::Init { root: root as usize },),
                true,
            ) && call_ensures(*callback, (#[trigger] self.discovery_of(v, root),), true)
    }

    /// The callback was told of every discovery since `before`, and each
    /// time it let the visit go on.
    pub open spec fn all_discoveries_told<C: Fn(Event) -> bool>(
        &self,
        before: &Self,
        callback: &C,
    ) -> bool {
        forall|v: int|
            0 <= v < self.spec_num_nodes() && self.visited(v) && !before.visited(v)
                ==> #[trigger] self.told_of(v, callback)
    }

    /// Marks `v` as discovered, at distance `d` through the arc from `p`.
    fn discover(&mut self, v: usize, Ghost(p): Ghost<usize>, Ghost(d): Ghost<usize>)
        requires
            old(self).wf(),
            v < old(self).spec_num_nodes(),
            !old(self).visited(v as int),
            d <= old(self).order().len(),
        ensures
            final(self).wf(),
            final(self).same_choices(old(self)),
            final(self).distances() == old(self).distances().update(v as int, d),
            final(self).parents() == old(self).parents().update(v as int, p),
            final(self).order() == old(self).order().push(v),
    {
        proof {
            self.lemma_order();
        }
        let was: bool = self.visited.swap(v, true);
        assert(!was);
        proof {
            self.distance@ = self.distance@.update(v as int, d);
            self.parent@ = self.parent@.update(v as int, p);
            self.order@ = self.order@.push(v);
        }
        proof {
            let q = self.order@;
            let before = old(self).order@;
            assert forall|i: int, j: int| 0 <= i < q.len() && 0 <= j < q.len() && i != j implies q[i]
                != q[j] by {
                if i < before.len() {
                    assert(old(self).visited(before[i] as int));
                }
                if j < before.len() {
                    assert(old(self).visited(before[j] as int));
                }
            }
            assert forall|i: int| 0 <= i < q.len() implies (#[trigger] q[i]) < self.graph@.len()
                && self.distance@[q[i] as int] <= i by {
                if i < before.len() {
                    assert(old(self).visited(before[i] as int));
                }
            }
            assert forall|x: int|
                0 <= x < self.graph@.len() && self.distance@[x] != UNREACHED implies #[trigger] q.contains(
                x as usize,
            ) by {
                if x == v {
                    assert(q[q.len() - 1] == v);
                } else {
                    assert(before.contains(x as usize));
                    let i = choose|i: int| 0 <= i < before.len() && before[i] == x as usize;
                    assert(q[i] == x as usize);
                }
            }
        }
    }

    /// One more discovery at the next distance keeps the visit under way.
    proof fn lemma_discovered<F: Fn(Event) -> bool>(
        &self,
        now: &Self,
        before: &Self,
        root: int,
        filter: &F,
        d: int,
        lo: int,
        hi: int,
        u: int,
        v: int,
    )
        requires
            self.wf(),
            before.wf(),
            self.under_way(before, root, filter, d, lo, hi),
            now.same_choices(self),
            0 <= v < self.spec_num_nodes(),
            0 <= u < self.spec_num_nodes(),
            !self.visited(v),
            self.visited(u),
            !before.visited(u),
            self.distances()[u] == d,
            d + 1 < usize::MAX,
            has_arc(self.adjacency(), u, v),
            call_ensures(*filter, (discovery(v, u, root, d + 1),), true),
            now.distances() == self.distances().update(v, (d + 1) as usize),
            now.parents() == self.parents().update(v, u as usize),
            now.order() == self.order().push(v as usize),
        ensures
            now.under_way(before, root, filter, d, lo, hi),
    {
        self.lemma_order();
        before.lemma_order();
        let adj = self.adjacency();
        let q = self.order();
        let nq = now.order();
        let first = before.order().len() as int;
        let bd = before.distances();
        assert(!before.visited(v)) by {
            if before.visited(v) {
                assert(self.distances()[v] == bd[v]);
            }
        }
        assert(nq.subrange(0, first) =~= before.order()) by {
            assert(q.subrange(0, first) == before.order());
            assert forall|i: int| 0 <= i < first implies nq[i] == before.order()[i] by {
                assert(q.subrange(0, first)[i] == q[i]);
            }
        }
        assert forall|i: int| 0 <= i < q.len() implies nq[i] == q[i] && q[i] as int != v
            && now.distances()[q[i] as int] == self.distances()[q[i] as int] && now.parents()[q[i] as int]
            == self.parents()[q[i] as int] by {
            assert(self.visited(q[i] as int));
        }
        assert(root != v);
        assert forall|i: int| first < i < nq.len() implies found_through(
            adj,
            bd,
            now.distances(),
            now.parents(),
            root,
            filter,
            #[trigger] nq[i] as int,
        ) by {
            if i < q.len() {
                let w = q[i] as int;
                assert(found_through(adj, bd, self.distances(), self.parents(), root, filter, w));
                let p = self.parents()[w] as int;
                assert(p != v);
            }
        }
        assert forall|i: int, k: int|
            first <= i < lo && 0 <= k < adj[nq[i] as int].len() implies #[trigger] arc_done(
            adj,
            bd,
            now.distances(),
            root,
            filter,
            nq[i] as int,
            k,
        ) by {
            let w = q[i] as int;
            assert(arc_done(adj, bd, self.distances(), root, filter, w, k));
            let x = adj[w][k] as int;
            assert(adj[w][k] < adj.len());
            if x == v {
                assert(!reached(self.distances(), x));
            }
        }
    }

    /// The visit stays through with an arc when one more node is
    /// discovered.
    proof fn lemma_arc_stays<F: Fn(Event) -> bool>(
        &self,
        now: &Self,
        before: &Self,
        root: int,
        filter: &F,
        w: int,
        k: int,
        v: int,
        d: usize,
    )
        requires
            self.wf(),
            0 <= w < self.spec_num_nodes(),
            0 <= k < self.adjacency()[w].len(),
            0 <= v < self.spec_num_nodes(),
            w != v,
            !self.visited(v),
            now.adjacency() == self.adjacency(),
            now.distances() == self.distances().update(v, d),
            arc_done(self.adjacency(), before.distances(), self.distances(), root, filter, w, k),
        ensures
            arc_done(now.adjacency(), before.distances(), now.distances(), root, filter, w, k),
    {
        self.lemma_order();
        assert(self.adjacency()[w][k] < self.spec_num_nodes());
    }
}

impl<'a> ParallelBreadthFirstVisitFastCB<'a> {
    /// Visits from `root` what can be reached from it through nodes that
    /// were not discovered before, level by level, and says whether the
    /// visit came to its end: `false` says that the callback asked for a
    /// stop.
    ///
    /// Nothing happens where the root was discovered before or the filter
    /// turns it down. Otherwise the callback is told of the start and of the
    /// discovery of the root. Then, level after level, the filter is asked
    /// for every arc of every node of the level; where it agrees and the
    /// target was not discovered, the target is discovered, the callback is
    /// told, and the target joins the next level.
    pub fn visit_from_node<C: Fn(Event) -> bool, F: Fn(Event) -> bool>(
        &mut self,
        root: usize,
        callback: &C,
        filter: &F,
    ) -> (completed: bool)
        requires
            old(self).wf(),
            root < old(self).spec_num_nodes(),
            forall|e: Event|
                event_in_range(e, old(self).spec_num_nodes()) && is_told(e)
                    ==> #[trigger] call_requires(*callback, (e,)),
            forall|e: Event|
                event_in_range(e, old(self).spec_num_nodes()) ==> #[trigger] call_requires(
                    *filter,
                    (e,),
                ),
        ensures
            final(self).wf(),
            final(self).same_choices(old(self)),
            kept(
                old(self).distances(),
                old(self).parents(),
                final(self).distances(),
                final(self).parents(),
            ),
            completed ==> levels_done(
                old(self).adjacency(),
                old(self).distances(),
                old(self).parents(),
                final(self).distances(),
                final(self).parents(),
                root as int,
                filter,
            ),
            completed ==> final(self).discoveries_told(old(self), root as int, callback),
            !completed ==> stopped_by(callback),
    {
        let ghost before = *self;
        let ghost adj = self.graph@;
        let graph: &Graph = self.graph;
        let n: usize = graph.num_nodes();
        proof {
            self.lemma_order();
        }
        if self.visited.get(root) {
            return true;
        }
        let found = Event::Unknown { curr: root, parent: root, root, distance: 0 };
        if !filter(found) {
            return true;
        }
        if !callback(Event::Init { root }) {
            return false;
        }
        let ghost first = self.order@.len() as int;
        self.discover(root, Ghost(root), Ghost(0usize));
        proof {
            self.lemma_order();
            assert(self.order().subrange(0, first) =~= before.order());
            assert(self.under_way(&before, root as int, filter, 0, first, first + 1)) by {
                assert forall|i: int| first <= i < self.order().len() implies !before.visited(
                    #[trigger] self.order()[i] as int,
                ) by {}
            }
        }
        if !callback(found) {
            return false;
        }
        proof {
            assert forall|v: int|
                0 <= v < self.spec_num_nodes() && self.visited(v) && !before.visited(
                    v,
                ) implies call_ensures(*callback, (Event::Init { root },), true) && call_ensures(
                *callback,
                (#[trigger] self.discovery_of(v, root as int),),
                true,
            ) by {
                assert(v == root);
                assert(self.discovery_of(v, root as int) == found);
            }
        }
        let mut next: Frontier<'static, usize> = empty_frontier();
        push_node(&mut next, root);
        let mut d: usize = 0;
        let ghost mut done: int = first;
        proof {
            assert(self.order().subrange(done, self.order().len() as int) =~= Seq::<usize>::empty().push(
                root,
            ));
            Seq::<usize>::empty().to_multiset_ensures();
            assert(Seq::<usize>::empty().to_multiset() =~= Multiset::<usize>::empty()) by {
                assert(Seq::<usize>::empty().to_multiset().len() == 0);
            }
        }
        loop
            invariant
                graph.wf(),
                graph@ == adj,
                self.adjacency() == adj,
                n == adj.len(),
                root < n,
                before == *old(self),
                before.wf(),
                first == before.order().len(),
                self.wf(),
                self.discoveries_told(&before, root as int, callback),
                self.under_way(&before, root as int, filter, d as int, done, self.order().len() as int),
                frontier_nodes(next) == self.order().subrange(
                    done,
                    self.order().len() as int,
                ).to_multiset(),
                forall|e: Event|
                    event_in_range(e, n as nat) && is_told(e) ==> #[trigger] call_requires(
                        *callback,
                        (e,),
                    ),
                forall|e: Event| event_in_range(e, n as nat) ==> #[trigger] call_requires(*filter, (e,)),
            decreases n - done,
        {
            proof {
                self.lemma_order();
                self.order().subrange(done, self.order().len() as int).to_multiset_ensures();
            }
            if holds_nothing(&next) {
                proof {
                    assert(done == self.order().len());
                    self.lemma_levels_end(&before, root as int, filter, d as int);
                }
                return true;
            }
            let level: Vec<usize> = nodes_of(&next);
            next = empty_frontier();
            let ghost lo = done;
            let ghost hi = self.order().len() as int;
            proof {
                lemma_same_nodes(level@, self.order().subrange(lo, hi));
                assert forall|j: int| 0 <= j < level@.len() implies in_level(
                    self.order(),
                    lo,
                    hi,
                    #[trigger] level@[j] as int,
                ) by {
                    let part = self.order().subrange(lo, hi);
                    assert(level@.contains(level@[j]));
                    assert(part.contains(level@[j]));
                    let x = choose|x: int| 0 <= x < part.len() && part[x] == level@[j];
                    assert(self.order()[lo + x] == level@[j]);
                }
                assert forall|x: int| lo <= x < hi implies level@.contains(#[trigger] self.order()[x]) by {
                    let part = self.order().subrange(lo, hi);
                    assert(part[x - lo] == self.order()[x]);
                    assert(part.contains(self.order()[x]));
                }
                assert(self.order().subrange(hi, hi) =~= Seq::<usize>::empty());
                Seq::<usize>::empty().to_multiset_ensures();
                assert(Seq::<usize>::empty().to_multiset() =~= Multiset::<usize>::empty()) by {
                    assert(Seq::<usize>::empty().to_multiset().len() == 0);
                }
                assert(lo < hi);
                // the distance of the level is below the number of nodes
                assert(self.distances()[self.order()[lo] as int] == d);
                assert(self.distances()[self.order()[lo] as int] <= lo);
            }
            let mut i: usize = 0;
            while i < level.len()
                invariant
                    graph.wf(),
                    graph@ == adj,
                    self.adjacency() == adj,
                    n == adj.len(),
                    root < n,
                    before == *old(self),
                    before.wf(),
                    first == before.order().len(),
                    self.wf(),
                    first <= lo < hi <= self.order().len(),
                    hi <= n,
                    d < hi,
                    i <= level@.len(),
                    self.discoveries_told(&before, root as int, callback),
                    self.under_way(&before, root as int, filter, d as int, lo, hi),
                    frontier_nodes(next) == self.order().subrange(
                        hi,
                        self.order().len() as int,
                    ).to_multiset(),
                    forall|j: int|
                        0 <= j < level@.len() ==> in_level(self.order(), lo, hi, #[trigger] level@[j] as int),
                    forall|x: int| lo <= x < hi ==> level@.contains(#[trigger] self.order()[x]),
                    forall|j: int, k: int|
                        0 <= j < i && 0 <= k < adj[level@[j] as int].len() ==> #[trigger] arc_done(
                            adj,
                            before.distances(),
                            self.distances(),
                            root as int,
                            filter,
                            level@[j] as int,
                            k,
                        ),
                    forall|e: Event|
                        event_in_range(e, n as nat) && is_told(e) ==> #[trigger] call_requires(
                            *callback,
                            (e,),
                        ),
                    forall|e: Event|
                        event_in_range(e, n as nat) ==> #[trigger] call_requires(*filter, (e,)),
                decreases level@.len() - i,
            {
                let u: usize = level[i];
                proof {
                    self.lemma_order();
                    assert(in_level(self.order(), lo, hi, level@[i as int] as int));
                    let x = choose|x: int| lo <= x < hi && #[trigger] self.order()[x] == u as int;
                    assert(self.order()[x] < n);
                    assert(self.visited(self.order()[x] as int));
                    assert(self.distances()[self.order()[x] as int] == d);
                    assert(!before.visited(self.order()[x] as int));
                }
                let successors: &Vec<usize> = graph.successors(u);
                let mut k: usize = 0;
                while k < successors.len()
                    invariant
                        graph.wf(),
                        graph@ == adj,
                        self.adjacency() == adj,
                        n == adj.len(),
                        root < n,
                        u < n,
                        successors@ == adj[u as int],
                        before == *old(self),
                        before.wf(),
                        first == before.order().len(),
                        self.wf(),
                        first <= lo < hi <= self.order().len(),
                        hi <= n,
                        d < hi,
                        i < level@.len(),
                        u == level@[i as int],
                        self.visited(u as int),
                        !before.visited(u as int),
                        self.distances()[u as int] == d,
                        k <= successors@.len(),
                        self.discoveries_told(&before, root as int, callback),
                        self.under_way(&before, root as int, filter, d as int, lo, hi),
                        frontier_nodes(next) == self.order().subrange(
                            hi,
                            self.order().len() as int,
                        ).to_multiset(),
                        forall|j: int|
                            0 <= j < level@.len() ==> in_level(
                                self.order(),
                                lo,
                                hi,
                                #[trigger] level@[j] as int,
                            ),
                        forall|x: int| lo <= x < hi ==> level@.contains(#[trigger] self.order()[x]),
                        forall|j: int, kk: int|
                            0 <= j < i && 0 <= kk < adj[level@[j] as int].len() ==> #[trigger] arc_done(
                                adj,
                                before.distances(),
                                self.distances(),
                                root as int,
                                filter,
                                level@[j] as int,
                                kk,
                            ),
                        forall|kk: int|
                            0 <= kk < k ==> #[trigger] arc_done(
                                adj,
                                before.distances(),
                                self.distances(),
                                root as int,
                                filter,
                                u as int,
                                kk,
                            ),
                        forall|e: Event|
                            event_in_range(e, n as nat) && is_told(e) ==> #[trigger] call_requires(
                                *callback,
                                (e,),
                            ),
                        forall|e: Event|
                            event_in_range(e, n as nat) ==> #[trigger] call_requires(*filter, (e,)),
                    decreases successors@.len() - k,
                {
                    let v: usize = successors[k];
                    proof {
                        self.lemma_order();
                        assert(adj[u as int][k as int] < n);
                        assert(has_arc(adj, u as int, v as int));
                    }
                    let e = Event::Unknown { curr: v, parent: u, root, distance: d + 1 };
                    assert(e == discovery(v as int, u as int, root as int, d + 1));
                    let agreed: bool = filter(e);
                    let seen: bool = self.visited.get(v);
                    if agreed && !seen {
                        let ghost mid = *self;
                        self.discover(v, Ghost(u), Ghost((d + 1) as usize));
                        push_node(&mut next, v);
                        proof {
                            mid.lemma_discovered(
                                self,
                                &before,
                                root as int,
                                filter,
                                d as int,
                                lo,
                                hi,
                                u as int,
                                v as int,
                            );
                            let q = mid.order();
                            assert(self.order().subrange(hi, self.order().len() as int) =~= q.subrange(
                                hi,
                                q.len() as int,
                            ).push(v));
                            q.subrange(hi, q.len() as int).to_multiset_ensures();
                            assert forall|x: int| lo <= x < hi implies level@.contains(
                                #[trigger] self.order()[x],
                            ) by {
                                assert(self.order()[x] == q[x]);
                                assert(level@.contains(q[x]));
                            }
                            assert forall|j: int| 0 <= j < level@.len() implies in_level(
                                self.order(),
                                lo,
                                hi,
                                #[trigger] level@[j] as int,
                            ) by {
                                assert(in_level(q, lo, hi, level@[j] as int));
                                let x = choose|x: int| lo <= x < hi && #[trigger] q[x] == level@[j] as int;
                                assert(self.order()[x] == q[x]);
                            }
                            assert forall|j: int, kk: int|
                                0 <= j < i
                                    && 0 <= kk < adj[level@[j] as int].len() implies #[trigger] arc_done(
                                adj,
                                before.distances(),
                                self.distances(),
                                root as int,
                                filter,
                                level@[j] as int,
                                kk,
                            ) by {
                                assert(in_level(q, lo, hi, level@[j] as int));
                                let x = choose|x: int| lo <= x < hi && #[trigger] q[x] == level@[j] as int;
                                assert(mid.visited(q[x] as int));
                                mid.lemma_arc_stays(
                                    self,
                                    &before,
                                    root as int,
                                    filter,
                                    level@[j] as int,
                                    kk,
                                    v as int,
                                    (d + 1) as usize,
                                );
                            }
                            assert forall|kk: int| 0 <= kk < k + 1 implies #[trigger] arc_done(
                                adj,
                                before.distances(),
                                self.distances(),
                                root as int,
                                filter,
                                u as int,
                                kk,
                            ) by {
                                if kk < k {
                                    mid.lemma_arc_stays(
                                        self,
                                        &before,
                                        root as int,
                                        filter,
                                        u as int,
                                        kk,
                                        v as int,
                                        (d + 1) as usize,
                                    );
                                } else {
                                    assert(!before.visited(v as int)) by {
                                        if before.visited(v as int) {
                                            assert(mid.distances()[v as int] == before.distances()[v as int]);
                                        }
                                    }
                                }
                            }
                        }
                        if !callback(e) {
                            return false;
                        }
                        proof {
                            assert forall|w: int|
                                0 <= w < self.spec_num_nodes() && self.visited(w) && !before.visited(
                                    w,
                                ) implies call_ensures(
                                *callback,
                                (Event::Init { root },),
                                true,
                            ) && call_ensures(
                                *callback,
                                (#[trigger] self.discovery_of(w, root as int),),
                                true,
                            ) by {
                                // the node of the arc was discovered in this visit
                                assert(mid.visited(u as int) && !before.visited(u as int));
                                assert(call_ensures(
                                    *callback,
                                    (mid.discovery_of(u as int, root as int),),
                                    true,
                                ));
                                if w == v {
                                    assert(self.discovery_of(w, root as int) == e);
                                } else {
                                    assert(mid.visited(w));
                                    assert(self.discovery_of(w, root as int) == mid.discovery_of(
                                        w,
                                        root as int,
                                    ));
                                }
                            }
                        }
                    } else {
                        proof {
                            assert(arc_done(
                                adj,
                                before.distances(),
                                self.distances(),
                                root as int,
                                filter,
                                u as int,
                                k as int,
                            )) by {
                                if agreed {
                                    assert(self.visited(v as int));
                                    if !before.visited(v as int) {
                                        // a node of this visit is no further than the next level
                                        assert(self.order().contains(v));
                                        let x = choose|x: int|
                                            0 <= x < self.order().len() && self.order()[x] == v;
                                        if x < first {
                                            assert(self.order().subrange(0, first)[x] == self.order()[x]);
                                            assert(before.visited(before.order()[x] as int));
                                        }
                                        assert(self.distances()[self.order()[x] as int] <= d + 1);
                                    }
                                }
                            }
                        }
                    }
                    k = k + 1;
                }
                i = i + 1;
            }
            proof {
                // the visit is through with the level
                self.lemma_order();
                assert forall|x: int, kk: int|
                    lo <= x < hi && 0 <= kk < adj[self.order()[x] as int].len() implies #[trigger] arc_done(
                    adj,
                    before.distances(),
                    self.distances(),
                    root as int,
                    filter,
                    self.order()[x] as int,
                    kk,
                ) by {
                    let node = self.order()[x];
                    assert(level@.contains(self.order()[x]));
                    let j = choose|j: int| 0 <= j < level@.len() && level@[j] == node;
                    assert(arc_done(
                        adj,
                        before.distances(),
                        self.distances(),
                        root as int,
                        filter,
                        level@[j] as int,
                        kk,
                    ));
                }
                done = hi;
            }
            d = d + 1;
        }
    }

    /// A visit whose frontier is empty has come to its end.
    proof fn lemma_levels_end<F: Fn(Event) -> bool>(
        &self,
        before: &Self,
        root: int,
        filter: &F,
        d: int,
    )
        requires
            self.wf(),
            before.wf(),
            0 <= root < self.spec_num_nodes(),
            !before.visited(root),
            self.under_way(before, root, filter, d, self.order().len() as int, self.order().len() as int),
        ensures
            levels_done(
                before.adjacency(),
                before.distances(),
                before.parents(),
                self.distances(),
                self.parents(),
                root,
                filter,
            ),
    {
        self.lemma_order();
        before.lemma_order();
        let adj = self.adjacency();
        let q = self.order();
        let first = before.order().len() as int;
        assert(self.distances() != before.distances());
        // a node of this visit stands in the order after those before
        assert forall|v: int|
            0 <= v < adj.len() && reached(self.distances(), v) && !reached(
                before.distances(),
                v,
            ) implies in_level(q, first, q.len() as int, v) by {
            assert(q.contains(v as usize));
            let x = choose|x: int| 0 <= x < q.len() && q[x] == v as usize;
            if x < first {
                assert(q.subrange(0, first)[x] == q[x]);
                assert(before.visited(before.order()[x] as int));
            }
        }
        assert forall|v: int|
            0 <= v < adj.len() && reached(self.distances(), v) && !reached(before.distances(), v) && v
                != root implies #[trigger] found_through(
            adj,
            before.distances(),
            self.distances(),
            self.parents(),
            root,
            filter,
            v,
        ) by {
            assert(in_level(q, first, q.len() as int, v));
            let x = choose|x: int| first <= x < q.len() && #[trigger] q[x] == v;
        }
        assert forall|u: int, k: int|
            0 <= u < adj.len() && reached(self.distances(), u) && !reached(before.distances(), u) && 0
                <= k < adj[u].len() implies #[trigger] arc_done(
            adj,
            before.distances(),
            self.distances(),
            root,
            filter,
            u,
            k,
        ) by {
            assert(in_level(q, first, q.len() as int, u));
            let x = choose|x: int| first <= x < q.len() && #[trigger] q[x] == u;
            assert(arc_done(adj, before.distances(), self.distances(), root, filter, q[x] as int, k));
        }
    }
}

impl<'a> ParallelBreadthFirstVisitFastCB<'a> {
    /// A visit from `v` as root was tried: the node is discovered, or the
    /// filter turned it down as a root.
    pub open spec fn root_tried<F: Fn(Event) -> bool>(&self, filter: &F, v: int) -> bool {
        self.visited(v) || call_ensures(*filter, (discovery(v, v, v, 0),), false)
    }

    /// Visits the whole graph: one visit from every node, beginning with
    /// the start node and going round, and says whether the visits came to
    /// their end.
    pub fn visit<C: Fn(Event) -> bool, F: Fn(Event) -> bool>(
        &mut self,
        callback: &C,
        filter: &F,
    ) -> (completed: bool)
        requires
            old(self).wf(),
            forall|e: Event|
                event_in_range(e, old(self).spec_num_nodes()) && is_told(e)
                    ==> #[trigger] call_requires(*callback, (e,)),
            forall|e: Event|
                event_in_range(e, old(self).spec_num_nodes()) ==> #[trigger] call_requires(
                    *filter,
                    (e,),
                ),
        ensures
            final(self).wf(),
            final(self).same_choices(old(self)),
            kept(
                old(self).distances(),
                old(self).parents(),
                final(self).distances(),
                final(self).parents(),
            ),
            completed ==> forall|v: int|
                0 <= v < final(self).spec_num_nodes() ==> #[trigger] final(self).root_tried(
                    filter,
                    v,
                ),
            completed ==> final(self).all_discoveries_told(old(self), callback),
            !completed ==> stopped_by(callback),
    {
        let n: usize = self.graph.num_nodes();
        let ghost before = *self;
        proof {
            self.lemma_order();
        }
        if n == 0 {
            return true;
        }
        let first: usize = self.start % n;
        let mut i: usize = 0;
        while i < n
            invariant
                i <= n,
                n == self.spec_num_nodes(),
                0 < n < usize::MAX,
                first < n,
                self.wf(),
                before == *old(self),
                self.same_choices(&before),
                kept(before.distances(), before.parents(), self.distances(), self.parents()),
                self.all_discoveries_told(&before, callback),
                forall|e: Event|
                    event_in_range(e, n as nat) && is_told(e) ==> #[trigger] call_requires(
                        *callback,
                        (e,),
                    ),
                forall|e: Event|
                    event_in_range(e, n as nat) ==> #[trigger] call_requires(*filter, (e,)),
                forall|v: int|
                    0 <= v < n && turn_of(first as int, v, n as int) < i
                        ==> #[trigger] self.root_tried(filter, v),
            decreases n - i,
        {
            let node: usize = if i < n - first {
                first + i
            } else {
                i - (n - first)
            };
            assert(turn_of(first as int, node as int, n as int) == i);
            let ghost step = *self;
            let completed = self.visit_from_node(node, callback, filter);
            proof {
                assert forall|v: int|
                    0 <= v < before.distances().len() && reached(
                        before.distances(),
                        v,
                    ) implies #[trigger] self.distances()[v] == before.distances()[v]
                    && self.parents()[v] == before.parents()[v] by {
                    assert(step.distances()[v] == before.distances()[v]);
                    assert(self.distances()[v] == step.distances()[v]);
                }
            }
            if !completed {
                return false;
            }
            proof {
                assert forall|w: int|
                    0 <= w < self.spec_num_nodes() && self.visited(w) && !before.visited(
                        w,
                    ) implies #[trigger] self.told_of(w, callback) by {
                    if step.visited(w) {
                        assert(step.told_of(w, callback));
                        let root = choose|root: int|
                            0 <= root < step.spec_num_nodes() && call_ensures(
                                *callback,
                                (Event::Init { root: root as usize },),
                                true,
                            ) && call_ensures(
                                *callback,
                                (#[trigger] step.discovery_of(w, root),),
                                true,
                            );
                        assert(self.distances()[w] == step.distances()[w]);
                        assert(self.discovery_of(w, root) == step.discovery_of(w, root));
                    } else {
                        assert(call_ensures(
                            *callback,
                            (self.discovery_of(w, node as int),),
                            true,
                        ));
                    }
                }
                assert forall|v: int|
                    0 <= v < n
                        && turn_of(first as int, v, n as int) < i + 1 implies #[trigger] self.root_tried(
                    filter,
                    v,
                ) by {
                    if turn_of(first as int, v, n as int) < i {
                        assert(step.root_tried(filter, v));
                        if step.visited(v) {
                            assert(self.distances()[v] == step.distances()[v]);
                        }
                    } else {
                        assert(v == node);
                    }
                }
            }
            i += 1;
        }
        true
    }
}

} // verus!
