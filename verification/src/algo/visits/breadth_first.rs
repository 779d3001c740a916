//! Breadth-first visits.
//!
//! A visit from a root discovers the nodes in the order of their distance
//! from the root. Before it discovers a node through an arc it asks the
//! filter; a node that the filter turns down may still be discovered through
//! another arc. The callback is told of the start of the visit, of every
//! discovery and of every arc that leads to a node already discovered, and
//! can stop the visit.
use crate::distance::{
    is_distance, is_eccentricity, is_far, lemma_reaches_within, lemma_within_itself,
    lemma_within_last_arc, lemma_within_more, lemma_within_none, lemma_within_reaches,
    lemma_within_step, within,
};
use crate::graph::{has_arc, reaches, successors_in_range, Graph};
use vstd::prelude::*;

verus! {

/// What a breadth-first visit tells its callback and asks its filter.
#[derive(Clone, Copy, Debug, PartialEq, Eq, Structural)]
pub enum Event {
    /// A visit from `root` starts.
    Init { root: usize },
    /// The node `curr` is discovered through the arc from `parent`, at the
    /// given distance from `root`. The root is its own parent.
    Unknown { curr: usize, parent: usize, root: usize, distance: usize },
    /// The arc from `parent` leads to `curr`, which was discovered before.
    Known { curr: usize, parent: usize, root: usize, distance: usize },
}

/// The distance of a node that no visit has discovered.
pub const UNREACHED: usize = usize::MAX;

/// The event names nodes of a graph with `n` nodes.
pub open spec fn event_in_range(e: Event, n: nat) -> bool {
    match e {
        Event::Init { root } => root < n,
        Event::Unknown { curr, parent, root, distance } => curr < n && parent < n && root < n
            && distance <= n,
        Event::Known { curr, parent, root, distance } => curr < n && parent < n && root < n
            && distance <= n,
    }
}

/// The discovery of `curr` through the arc from `parent`.
pub open spec fn discovery(curr: int, parent: int, root: int, distance: int) -> Event {
    Event::Unknown {
        curr: curr as usize,
        parent: parent as usize,
        root: root as usize,
        distance: distance as usize,
    }
}

/// Distinct entries below `n` are at most `n`.
pub proof fn lemma_distinct_below(s: Seq<usize>, n: nat)
    requires
        s.no_duplicates(),
        forall|i: int| 0 <= i < s.len() ==> (#[trigger] s[i]) < n,
    ensures
        s.len() <= n,
    decreases n,
{
    if s.len() > 0 {
        if n == 0 {
            assert(s[0] < n);
        } else {
            if exists|i: int| 0 <= i < s.len() && #[trigger] s[i] == n - 1 {
                let i = choose|i: int| 0 <= i < s.len() && #[trigger] s[i] == n - 1;
                let rest = s.remove(i);
                assert forall|a: int, b: int|
                    0 <= a < rest.len() && 0 <= b < rest.len() && a != b implies rest[a]
                    != rest[b] by {
                    let a2 = if a < i {
                        a
                    } else {
                        a + 1
                    };
                    let b2 = if b < i {
                        b
                    } else {
                        b + 1
                    };
                    assert(s[a2] != s[b2]);
                }
                assert forall|k: int| 0 <= k < rest.len() implies (#[trigger] rest[k]) < n - 1 by {
                    let k2 = if k < i {
                        k
                    } else {
                        k + 1
                    };
                    assert(s[k2] != s[i]);
                    assert(s[k2] < n);
                }
                lemma_distinct_below(rest, (n - 1) as nat);
            } else {
                assert forall|k: int| 0 <= k < s.len() implies (#[trigger] s[k]) < n - 1 by {
                    assert(s[k] < n);
                }
                lemma_distinct_below(s, (n - 1) as nat);
            }
        }
    }
}

/// A sequential breadth-first visit of a graph. It keeps, for every node
/// that a visit since the last reset has discovered, the distance from the
/// root of that visit and the node through which it was discovered, and the
/// order of the discoveries.
pub struct SingleThreadedBreadthFirstVisit<'a> {
    graph: &'a Graph,
    start: usize,
    distance: Vec<usize>,
    parent: Vec<usize>,
    queue: Vec<usize>,
}

impl<'a> SingleThreadedBreadthFirstVisit<'a> {
    /// The lists of successors of the graph.
    pub closed spec fn adjacency(&self) -> Seq<Seq<usize>> {
        self.graph@
    }

    /// The node at which a visit of the whole graph starts.
    pub closed spec fn spec_start(&self) -> nat {
        self.start as nat
    }

    /// For every node its distance from the root of the visit that
    /// discovered it, or [`UNREACHED`].
    pub closed spec fn distances(&self) -> Seq<usize> {
        self.distance@
    }

    /// For every discovered node the node through which it was discovered.
    pub closed spec fn parents(&self) -> Seq<usize> {
        self.parent@
    }

    /// The discovered nodes in the order of their discovery.
    pub closed spec fn order(&self) -> Seq<usize> {
        self.queue@
    }

    /// The number of nodes.
    pub open spec fn spec_num_nodes(&self) -> nat {
        self.adjacency().len()
    }

    /// Whether node `v` was discovered.
    pub open spec fn visited(&self, v: int) -> bool {
        self.distances()[v] != UNREACHED
    }

    /// The invariant of a visit: the discovered nodes are those in the
    /// order of discovery, each once, and a node stands in that order no
    /// earlier than its distance says.
    pub closed spec fn wf(&self) -> bool {
        &&& self.graph.wf()
        &&& self.distance@.len() == self.graph@.len()
        &&& self.parent@.len() == self.graph@.len()
        &&& self.queue@.no_duplicates()
        &&& forall|i: int|
            0 <= i < self.queue@.len() ==> (#[trigger] self.queue@[i]) < self.graph@.len()
                && self.distance@[self.queue@[i] as int] <= i
        &&& forall|v: int|
            0 <= v < self.graph@.len() && self.distance@[v] != UNREACHED
                ==> #[trigger] self.queue@.contains(v as usize)
        &&& forall|v: int|
            0 <= v < self.graph@.len() && self.distance@[v] != UNREACHED ==> (
            #[trigger] self.parent@[v]) < self.graph@.len()
    }

    /// What the invariant says of the tables.
    pub proof fn lemma_wf(&self)
        requires
            self.wf(),
        ensures
            self.distances().len() == self.spec_num_nodes(),
            self.parents().len() == self.spec_num_nodes(),
            self.order().len() <= self.spec_num_nodes(),
            self.spec_num_nodes() < usize::MAX,
            successors_in_range(self.adjacency()),
            self.order().no_duplicates(),
            forall|i: int|
                0 <= i < self.order().len() ==> (#[trigger] self.order()[i])
                    < self.spec_num_nodes() && self.visited(self.order()[i] as int)
                    && self.distances()[self.order()[i] as int] <= i,
            forall|v: int|
                0 <= v < self.spec_num_nodes() && self.visited(v)
                    ==> #[trigger] self.order().contains(v as usize),
            forall|v: int|
                0 <= v < self.spec_num_nodes() && self.visited(v) ==> (
                #[trigger] self.distances()[v]) < self.spec_num_nodes(),
            forall|v: int|
                0 <= v < self.spec_num_nodes() && self.visited(v) ==> (
                #[trigger] self.parents()[v]) < self.spec_num_nodes(),
    {
        self.graph.lemma_wf();
        lemma_distinct_below(self.queue@, self.graph@.len());
        assert forall|v: int| 0 <= v < self.spec_num_nodes() && self.visited(v) implies (
        #[trigger] self.distances()[v]) < self.spec_num_nodes() by {
            assert(self.distance@[v] != UNREACHED);
            assert(self.queue@.contains(v as usize));
            let i = choose|i: int| 0 <= i < self.queue@.len() && self.queue@[i] == v as usize;
            assert(self.queue@[i] < self.graph@.len() && self.distance@[self.queue@[i] as int]
                <= i);
            assert(self.queue@.len() <= self.graph@.len());
            assert(self.parent@[v] < self.graph@.len());
        }
    }

    /// A visit of `graph` that has discovered nothing; a visit of the whole
    /// graph starts at node 0.
    pub fn new(graph: &'a Graph) -> (visit: Self)
        requires
            graph.wf(),
        ensures
            visit.wf(),
            visit.adjacency() == graph@,
            visit.spec_start() == 0,
            visit.order().len() == 0,
            forall|v: int| 0 <= v < graph@.len() ==> !visit.visited(v),
    {
        Self::with_start(graph, 0)
    }

    /// A visit of `graph` that has discovered nothing; a visit of the whole
    /// graph starts at node `start`.
    pub fn with_start(graph: &'a Graph, start: usize) -> (visit: Self)
        requires
            graph.wf(),
        ensures
            visit.wf(),
            visit.adjacency() == graph@,
            visit.spec_start() == start,
            visit.order().len() == 0,
            forall|v: int| 0 <= v < graph@.len() ==> !visit.visited(v),
    {
        let n: usize = graph.num_nodes();
        SingleThreadedBreadthFirstVisit {
            graph,
            start,
            distance: vec![UNREACHED; n],
            parent: vec![0usize; n],
            queue: Vec::new(),
        }
    }

    /// The node at which a visit of the whole graph starts.
    pub fn start(&self) -> (start: usize)
        ensures
            start == self.spec_start(),
    {
        self.start
    }

    /// Forgets every discovery.
    pub fn reset(&mut self)
        requires
            old(self).wf(),
        ensures
            final(self).wf(),
            final(self).adjacency() == old(self).adjacency(),
            final(self).spec_start() == old(self).spec_start(),
            final(self).order().len() == 0,
            forall|v: int| 0 <= v < final(self).spec_num_nodes() ==> !final(self).visited(v),
    {
        let mut i: usize = 0;
        while i < self.distance.len()
            invariant
                i <= self.distance@.len(),
                self.distance@.len() == old(self).distance@.len(),
                self.parent == old(self).parent,
                self.graph == old(self).graph,
                self.start == old(self).start,
                forall|v: int| 0 <= v < i ==> self.distance@[v] == UNREACHED,
            decreases self.distance@.len() - i,
        {
            self.distance.set(i, UNREACHED);
            i += 1;
        }
        self.queue.clear();
    }

    /// The distance of `node` from the root of the visit that discovered
    /// it, or `None` where no visit did.
    pub fn distance(&self, node: usize) -> (d: Option<usize>)
        requires
            self.wf(),
            node < self.spec_num_nodes(),
        ensures
            d is Some <==> self.visited(node as int),
            d matches Some(x) ==> x == self.distances()[node as int],
    {
        let d: usize = self.distance[node];
        if d == UNREACHED {
            None
        } else {
            Some(d)
        }
    }

    /// The node through which `node` was discovered, or `None` where no
    /// visit discovered it. A root is its own parent.
    pub fn parent(&self, node: usize) -> (p: Option<usize>)
        requires
            self.wf(),
            node < self.spec_num_nodes(),
        ensures
            p is Some <==> self.visited(node as int),
            p matches Some(x) ==> x == self.parents()[node as int],
    {
        if self.distance[node] == UNREACHED {
            None
        } else {
            Some(self.parent[node])
        }
    }

    /// The number of discovered nodes.
    pub fn num_visited(&self) -> (count: usize)
        ensures
            count == self.order().len(),
    {
        self.queue.len()
    }

    /// The node that was discovered as the `i`-th.
    pub fn visited_node(&self, i: usize) -> (node: usize)
        requires
            i < self.order().len(),
        ensures
            node == self.order()[i as int],
    {
        self.queue[i]
    }

    /// `self` holds what `before` held, and maybe more: the discoveries of
    /// `before` come first in the order of discovery, with the distances and
    /// parents they had.
    pub open spec fn extends(&self, before: &Self) -> bool {
        &&& self.adjacency() == before.adjacency()
        &&& self.spec_start() == before.spec_start()
        &&& before.order().len() <= self.order().len()
        &&& self.order().subrange(0, before.order().len() as int) == before.order()
        &&& self.distances().len() == before.distances().len()
        &&& self.parents().len() == before.parents().len()
        &&& forall|v: int|
            0 <= v < self.spec_num_nodes() && before.visited(v) ==> #[trigger] self.distances()[v]
                == before.distances()[v] && self.parents()[v] == before.parents()[v]
    }

    /// Node `v` was discovered through an arc from its parent, which was
    /// discovered after `before` and is one step closer to the root, and the
    /// filter let the discovery pass.
    pub open spec fn discovered_through<F: Fn(Event) -> bool>(
        &self,
        before: &Self,
        root: int,
        filter: &F,
        v: int,
    ) -> bool {
        let p = self.parents()[v] as int;
        &&& 0 <= p < self.spec_num_nodes()
        &&& self.visited(p)
        &&& !before.visited(p)
        &&& has_arc(self.adjacency(), p, v)
        &&& self.distances()[v] == self.distances()[p] + 1
        &&& call_ensures(*filter, (discovery(v, p, root, self.distances()[v] as int),), true)
    }

    /// The arc number `k` of node `u` was followed: its target is
    /// discovered, no further from the root than one step more than `u`
    /// where it was discovered after `before`; or else the filter turned the
    /// discovery through this arc down.
    pub open spec fn arc_followed<F: Fn(Event) -> bool>(
        &self,
        before: &Self,
        root: int,
        filter: &F,
        u: int,
        k: int,
    ) -> bool {
        let v = self.adjacency()[u][k] as int;
        ||| self.visited(v) && (!before.visited(v) ==> self.distances()[v] <= self.distances()[u]
            + 1)
        ||| call_ensures(*filter, (discovery(v, u, root, self.distances()[u] + 1),), false)
    }

    /// `self` is `before` with a visit from `root` under way: the nodes up
    /// to position `head` of the order of discovery have all their arcs
    /// followed, and the node at `head` its first `arcs` arcs.
    pub open spec fn visit_under_way<F: Fn(Event) -> bool>(
        &self,
        before: &Self,
        root: int,
        filter: &F,
        head: int,
        arcs: int,
    ) -> bool {
        let first = before.order().len() as int;
        let len = self.order().len() as int;
        let d = self.distances();
        let q = self.order();
        &&& self.extends(before)
        &&& first <= head <= len
        &&& first < len
        &&& q[first] == root
        &&& d[root] == 0
        &&& self.parents()[root] == root
        &&& forall|i: int| first <= i < len ==> !before.visited(#[trigger] q[i] as int)
        &&& forall|i: int, j: int|
            first <= i <= j < len ==> d[#[trigger] q[i] as int] <= d[#[trigger] q[j] as int]
        &&& head < len ==> forall|j: int|
            first <= j < len ==> d[#[trigger] q[j] as int] <= d[q[head] as int] + 1
        &&& forall|i: int|
            first < i < len ==> self.discovered_through(before, root, filter, #[trigger] q[i] as int)
        &&& forall|i: int, k: int|
            first <= i < head && 0 <= k < self.adjacency()[q[i] as int].len()
                ==> #[trigger] self.arc_followed(before, root, filter, q[i] as int, k)
        &&& head < len ==> forall|k: int|
            0 <= k < arcs ==> #[trigger] self.arc_followed(before, root, filter, q[head] as int, k)
    }

    /// The event that tells of the discovery of the `i`-th node in the
    /// order of discovery, in a visit from `root`.
    pub open spec fn discovery_at(&self, i: int, root: int) -> Event {
        discovery(
            self.order()[i] as int,
            self.parents()[self.order()[i] as int] as int,
            root,
            self.distances()[self.order()[i] as int] as int,
        )
    }

    /// The callback was told of every discovery that a visit from `root`
    /// made since `before`, and of the start of the visit where it made
    /// any, and each time it let the visit go on.
    pub open spec fn discoveries_told<C: Fn(Event) -> bool>(
        &self,
        before: &Self,
        root: int,
        callback: &C,
    ) -> bool {
        &&& self.order().len() > before.order().len() ==> call_ensures(
            *callback,
            (Event::Init { root: root as usize },),
            true,
        )
        &&& forall|i: int|
            before.order().len() <= i < self.order().len() ==> call_ensures(
                *callback,
                (#[trigger] self.discovery_at(i, root),),
                true,
            )
    }

    /// The callback was told of every discovery since `before`, each in a
    /// visit from some root, and each time it let the visit go on.
    pub open spec fn all_discoveries_told<C: Fn(Event) -> bool>(
        &self,
        before: &Self,
        callback: &C,
    ) -> bool {
        forall|i: int|
            before.order().len() <= i < self.order().len() ==> #[trigger] self.told_at(i, callback)
    }

    /// The callback was told of the discovery of the `i`-th node in the
    /// order of discovery, in a visit from some root, after it was told of
    /// the start of that visit, and let the visit go on.
    pub open spec fn told_at<C: Fn(Event) -> bool>(&self, i: int, callback: &C) -> bool {
        exists|root: int|
            0 <= root < self.spec_num_nodes() && call_ensures(
                *callback,
                (Event::Init { root: root as usize },),
                true,
            ) && call_ensures(*callback, (#[trigger] self.discovery_at(i, root),), true)
    }

    /// `self` is `before` after a whole visit from `root`: nothing more
    /// where the root was discovered before or the filter turned it down,
    /// and else the root at distance 0 with all that the visit discovered
    /// from it, in the order of the distances.
    pub open spec fn visit_done<F: Fn(Event) -> bool>(
        &self,
        before: &Self,
        root: int,
        filter: &F,
    ) -> bool {
        if before.visited(root) {
            self.extends(before) && self.order() == before.order()
        } else {
            ||| self.extends(before) && self.order() == before.order() && call_ensures(
                *filter,
                (discovery(root, root, root, 0),),
                false,
            )
            ||| self.visit_under_way(before, root, filter, self.order().len() as int, 0)
                && call_ensures(*filter, (discovery(root, root, root, 0),), true)
        }
    }

    /// Discovers `v` through the arc from the node at the head of the queue.
    fn discover(&mut self, v: usize, parent: usize, distance: usize)
        requires
            old(self).wf(),
            v < old(self).spec_num_nodes(),
            parent < old(self).spec_num_nodes(),
            !old(self).visited(v as int),
            distance <= old(self).order().len(),
            distance < UNREACHED,
        ensures
            final(self).wf(),
            final(self).adjacency() == old(self).adjacency(),
            final(self).spec_start() == old(self).spec_start(),
            final(self).order() == old(self).order().push(v),
            final(self).distances() == old(self).distances().update(v as int, distance),
            final(self).parents() == old(self).parents().update(v as int, parent),
    {
        proof {
            if self.queue@.contains(v) {
                let i = choose|i: int| 0 <= i < self.queue@.len() && self.queue@[i] == v;
                assert(self.distance@[self.queue@[i] as int] <= i);
                lemma_distinct_below(self.queue@, self.graph@.len());
                self.graph.lemma_wf();
            }
        }
        self.distance.set(v, distance);
        self.parent.set(v, parent);
        self.queue.push(v);
        proof {
            let q = self.queue@;
            assert forall|w: int|
                0 <= w < self.graph@.len() && self.distance@[w] != UNREACHED implies #[trigger] q.contains(
                w as usize,
            ) by {
                if w == v {
                    assert(q[q.len() - 1] == v);
                } else {
                    assert(old(self).queue@.contains(w as usize));
                    let i = choose|i: int|
                        0 <= i < old(self).queue@.len() && old(self).queue@[i] == w as usize;
                    assert(q[i] == w as usize);
                }
            }
        }
    }

    /// A discovery through the arc that is followed next keeps a visit under
    /// way, with one arc more followed.
    proof fn lemma_discovery<F: Fn(Event) -> bool>(
        &self,
        mid: &Self,
        before: &Self,
        root: int,
        filter: &F,
        head: int,
        k: int,
    )
        requires
            before.wf(),
            mid.wf(),
            self.wf(),
            mid.visit_under_way(before, root, filter, head, k),
            head < mid.order().len(),
            0 <= k < mid.adjacency()[mid.order()[head] as int].len(),
            ({
                let u = mid.order()[head] as int;
                let v = mid.adjacency()[u][k] as int;
                let d = mid.distances()[u] + 1;
                &&& 0 <= v < mid.spec_num_nodes()
                &&& !mid.visited(v)
                &&& d < UNREACHED
                &&& call_ensures(*filter, (discovery(v, u, root, d),), true)
                &&& self.adjacency() == mid.adjacency()
                &&& self.spec_start() == mid.spec_start()
                &&& self.order() == mid.order().push(v as usize)
                &&& self.distances() == mid.distances().update(v, d as usize)
                &&& self.parents() == mid.parents().update(v, u as usize)
            }),
        ensures
            self.visit_under_way(before, root, filter, head, k + 1),
    {
        let first = before.order().len() as int;
        let len = self.order().len() as int;
        let q = self.order();
        let d = self.distances();
        let u = mid.order()[head] as int;
        let v = mid.adjacency()[u][k] as int;
        mid.lemma_wf();
        before.lemma_wf();
        self.lemma_wf();
        assert(self.order().subrange(0, first) =~= before.order());
        assert forall|i: int| 0 <= i < mid.order().len() implies q[i] == mid.order()[i] && q[i]
            != v by {
            assert(mid.visited(mid.order()[i] as int));
        }
        assert(!before.visited(v)) by {
            if before.visited(v) {
                assert(mid.distances()[v] == before.distances()[v]);
            }
        }
        assert(has_arc(self.adjacency(), u, v));
        assert forall|i: int| first < i < len implies self.discovered_through(
            before,
            root,
            filter,
            #[trigger] q[i] as int,
        ) by {
            if i < len - 1 {
                assert(mid.discovered_through(before, root, filter, mid.order()[i] as int));
                let p = mid.parents()[mid.order()[i] as int] as int;
                assert(p != v);
            } else {
                assert(!before.visited(u)) by {
                    assert(!before.visited(mid.order()[head] as int));
                }
            }
        }
        assert forall|i: int, j: int| first <= i <= j < len implies d[#[trigger] q[i] as int]
            <= d[#[trigger] q[j] as int] by {
            if j < len - 1 {
                assert(mid.distances()[mid.order()[i] as int] <= mid.distances()[mid.order()[j] as int]);
            } else if i < len - 1 {
                assert(mid.distances()[mid.order()[i] as int] <= mid.distances()[mid.order()[head] as int]
                    + 1);
            }
        }
        assert forall|j: int| first <= j < len implies d[#[trigger] q[j] as int] <= d[q[head] as int]
            + 1 by {
            if j < len - 1 {
                assert(mid.distances()[mid.order()[j] as int] <= mid.distances()[mid.order()[head] as int]
                    + 1);
            }
        }
        assert forall|i: int, a: int|
            first <= i < head
                && 0 <= a < self.adjacency()[q[i] as int].len() implies #[trigger] self.arc_followed(
            before,
            root,
            filter,
            q[i] as int,
            a,
        ) by {
            assert(mid.visited(mid.order()[i] as int));
            assert(q[i] == mid.order()[i]);
            assert(self.adjacency()[q[i] as int][a] < self.spec_num_nodes());
            assert(mid.arc_followed(before, root, filter, mid.order()[i] as int, a));
        }
        assert forall|a: int| 0 <= a < k + 1 implies #[trigger] self.arc_followed(
            before,
            root,
            filter,
            q[head] as int,
            a,
        ) by {
            assert(mid.visited(mid.order()[head] as int));
            assert(q[head] == mid.order()[head]);
            assert(self.adjacency()[q[head] as int][a] < self.spec_num_nodes());
            if a < k {
                assert(mid.arc_followed(before, root, filter, mid.order()[head] as int, a));
            }
        }
        assert forall|i: int| first <= i < len implies !before.visited(#[trigger] q[i] as int) by {
            if i < len - 1 {
                assert(!before.visited(mid.order()[i] as int));
            }
        }
    }

    /// An arc to a node that is already discovered, or a discovery that the
    /// filter turned down, counts as followed.
    proof fn lemma_no_discovery<F: Fn(Event) -> bool>(
        &self,
        before: &Self,
        root: int,
        filter: &F,
        head: int,
        k: int,
    )
        requires
            before.wf(),
            self.wf(),
            self.visit_under_way(before, root, filter, head, k),
            head < self.order().len(),
            0 <= k < self.adjacency()[self.order()[head] as int].len(),
            ({
                let u = self.order()[head] as int;
                let v = self.adjacency()[u][k] as int;
                &&& 0 <= v < self.spec_num_nodes()
                &&& self.visited(v) || call_ensures(
                    *filter,
                    (discovery(v, u, root, self.distances()[u] + 1),),
                    false,
                )
            }),
        ensures
            self.visit_under_way(before, root, filter, head, k + 1),
    {
        let first = before.order().len() as int;
        let u = self.order()[head] as int;
        let v = self.adjacency()[u][k] as int;
        self.lemma_wf();
        before.lemma_wf();
        if self.visited(v) && !before.visited(v) {
            assert(self.order().contains(v as usize));
            let j = choose|j: int| 0 <= j < self.order().len() && self.order()[j] == v as usize;
            if j < first {
                assert(self.order().subrange(0, first)[j] == before.order()[j]);
                assert(before.visited(before.order()[j] as int));
            }
            assert(self.distances()[self.order()[j] as int] <= self.distances()[self.order()[head] as int]
                + 1);
        }
        assert(self.arc_followed(before, root, filter, u, k));
        assert forall|a: int| 0 <= a < k + 1 implies #[trigger] self.arc_followed(
            before,
            root,
            filter,
            self.order()[head] as int,
            a,
        ) by {}
    }

    /// When all arcs of the node at the head are followed, the visit goes on
    /// with the next node.
    proof fn lemma_next_head<F: Fn(Event) -> bool>(
        &self,
        before: &Self,
        root: int,
        filter: &F,
        head: int,
    )
        requires
            self.visit_under_way(
                before,
                root,
                filter,
                head,
                self.adjacency()[self.order()[head] as int].len() as int,
            ),
            head < self.order().len(),
        ensures
            self.visit_under_way(before, root, filter, head + 1, 0),
    {
        let first = before.order().len() as int;
        let len = self.order().len() as int;
        let q = self.order();
        let d = self.distances();
        if head + 1 < len {
            assert forall|j: int| first <= j < len implies d[#[trigger] q[j] as int] <= d[q[head
                + 1] as int] + 1 by {
                assert(d[q[j] as int] <= d[q[head] as int] + 1);
                assert(d[q[head] as int] <= d[q[head + 1] as int]);
            }
        }
        assert forall|i: int, k: int|
            first <= i < head + 1
                && 0 <= k < self.adjacency()[q[i] as int].len() implies #[trigger] self.arc_followed(
            before,
            root,
            filter,
            q[i] as int,
            k,
        ) by {}
    }

    /// Visits the graph from `root`, and says whether the visit came to its
    /// end: `false` means that the callback stopped it.
    ///
    /// Nothing happens where the root was discovered before or the filter
    /// turns it down. Otherwise the callback is told of the start and of the
    /// discovery of the root; then the nodes are taken in the order of their
    /// discovery, and for every arc of a node either the callback is told
    /// that the target is known, or the filter is asked and, where it
    /// agrees, the target is discovered and the callback is told.
    pub fn visit_from_node<C: Fn(Event) -> bool, F: Fn(Event) -> bool>(
        &mut self,
        root: usize,
        callback: &C,
        filter: &F,
    ) -> (completed: bool)
        requires
            old(self).wf(),
            root < old(self).spec_num_nodes(),
            forall|e: Event|
                event_in_range(e, old(self).spec_num_nodes()) ==> #[trigger] call_requires(
                    *callback,
                    (e,),
                ),
            forall|e: Event|
                event_in_range(e, old(self).spec_num_nodes()) ==> #[trigger] call_requires(
                    *filter,
                    (e,),
                ),
        ensures
            final(self).wf(),
            final(self).extends(old(self)),
            completed ==> final(self).visit_done(old(self), root as int, filter),
            completed ==> final(self).discoveries_told(old(self), root as int, callback),
            !completed ==> stopped_by(callback),
    {
        let ghost before = *self;
        let graph: &Graph = self.graph;
        let n: usize = graph.num_nodes();
        proof {
            self.lemma_wf();
            graph.lemma_wf();
            assert(self.order().subrange(0, self.order().len() as int) =~= self.order());
        }
        if self.distance[root] != UNREACHED {
            return true;
        }
        let root_event = Event::Unknown { curr: root, parent: root, root, distance: 0 };
        if !filter(root_event) {
            return true;
        }
        if !callback(Event::Init { root }) {
            return false;
        }
        let first: usize = self.queue.len();
        self.discover(root, root, 0);
        proof {
            self.lemma_wf();
            assert(self.order().subrange(0, first as int) =~= before.order());
            assert(self.visit_under_way(&before, root as int, filter, first as int, 0)) by {
                assert forall|i: int| first <= i < self.order().len() implies !before.visited(
                    #[trigger] self.order()[i] as int,
                ) by {}
            }
        }
        if !callback(root_event) {
            return false;
        }
        proof {
            assert forall|i: int| first <= i < self.order().len() implies call_ensures(
                *callback,
                (#[trigger] self.discovery_at(i, root as int),),
                true,
            ) by {
                assert(self.order()[i] == root);
                assert(self.discovery_at(i, root as int) == root_event);
            }
        }
        let mut head: usize = first;
        while head < self.queue.len()
            invariant
                self.wf(),
                before.wf(),
                before == *old(self),
                graph@ == self.adjacency(),
                n == graph@.len(),
                n < usize::MAX,
                successors_in_range(graph@),
                root < n,
                first == before.order().len(),
                self.visit_under_way(&before, root as int, filter, head as int, 0),
                self.order().len() > first,
                self.discoveries_told(&before, root as int, callback),
                forall|e: Event|
                    event_in_range(e, n as nat) ==> #[trigger] call_requires(*callback, (e,)),
                forall|e: Event|
                    event_in_range(e, n as nat) ==> #[trigger] call_requires(*filter, (e,)),
            decreases n - head,
        {
            proof {
                self.lemma_wf();
            }
            let u: usize = self.queue[head];
            let d: usize = self.distance[u] + 1;
            let successors: &Vec<usize> = graph.successors(u);
            let mut k: usize = 0;
            while k < successors.len()
                invariant
                    k <= successors@.len(),
                    successors@ == graph@[u as int],
                    self.wf(),
                    before.wf(),
                    before == *old(self),
                    graph@ == self.adjacency(),
                    n == graph@.len(),
                    n < usize::MAX,
                    successors_in_range(graph@),
                    root < n,
                    first == before.order().len(),
                    head < self.order().len(),
                    u == self.order()[head as int],
                    u < n,
                    d == self.distances()[u as int] + 1,
                    d <= head + 1,
                    self.visit_under_way(&before, root as int, filter, head as int, k as int),
                    self.order().len() > first,
                    self.discoveries_told(&before, root as int, callback),
                    forall|e: Event|
                        event_in_range(e, n as nat) ==> #[trigger] call_requires(*callback, (e,)),
                    forall|e: Event|
                        event_in_range(e, n as nat) ==> #[trigger] call_requires(*filter, (e,)),
                decreases successors@.len() - k,
            {
                let v: usize = successors[k];
                proof {
                    self.lemma_wf();
                    assert(graph@[u as int][k as int] < graph@.len());
                }
                if self.distance[v] != UNREACHED {
                    proof {
                        self.lemma_no_discovery(&before, root as int, filter, head as int, k as int);
                    }
                    if !callback(Event::Known { curr: v, parent: u, root, distance: d }) {
                        return false;
                    }
                } else {
                    let event = Event::Unknown { curr: v, parent: u, root, distance: d };
                    if filter(event) {
                        let ghost mid = *self;
                        self.discover(v, u, d);
                        proof {
                            self.lemma_discovery(
                                &mid,
                                &before,
                                root as int,
                                filter,
                                head as int,
                                k as int,
                            );
                        }
                        if !callback(event) {
                            return false;
                        }
                        proof {
                            mid.lemma_wf();
                            assert forall|i: int|
                                first <= i < self.order().len() implies call_ensures(
                                *callback,
                                (#[trigger] self.discovery_at(i, root as int),),
                                true,
                            ) by {
                                if i < mid.order().len() {
                                    assert(self.order()[i] == mid.order()[i]);
                                    assert(mid.visited(mid.order()[i] as int));
                                    assert(self.discovery_at(i, root as int) == mid.discovery_at(
                                        i,
                                        root as int,
                                    ));
                                } else {
                                    assert(self.order()[i] == v);
                                    assert(self.discovery_at(i, root as int) == event);
                                }
                            }
                        }
                    } else {
                        proof {
                            self.lemma_no_discovery(
                                &before,
                                root as int,
                                filter,
                                head as int,
                                k as int,
                            );
                        }
                    }
                }
                k += 1;
            }
            proof {
                self.lemma_next_head(&before, root as int, filter, head as int);
                self.lemma_wf();
            }
            head += 1;
        }
        true
    }

    /// A visit from `v` as root was tried: the node is discovered, or the
    /// filter turned it down as a root.
    pub open spec fn root_tried<F: Fn(Event) -> bool>(&self, filter: &F, v: int) -> bool {
        self.visited(v) || call_ensures(*filter, (discovery(v, v, v, 0),), false)
    }

    /// Visits the whole graph: one visit from every node, beginning with
    /// the start node and going round, and says whether the visits came to
    /// their end.
    pub fn visit<C: Fn(Event) -> bool, F: Fn(Event) -> bool>(
        &mut self,
        callback: &C,
        filter: &F,
    ) -> (completed: bool)
        requires
            old(self).wf(),
            forall|e: Event|
                event_in_range(e, old(self).spec_num_nodes()) ==> #[trigger] call_requires(
                    *callback,
                    (e,),
                ),
            forall|e: Event|
                event_in_range(e, old(self).spec_num_nodes()) ==> #[trigger] call_requires(
                    *filter,
                    (e,),
                ),
        ensures
            final(self).wf(),
            final(self).extends(old(self)),
            completed ==> forall|v: int|
                0 <= v < final(self).spec_num_nodes() ==> #[trigger] final(self).root_tried(
                    filter,
                    v,
                ),
            completed ==> final(self).all_discoveries_told(old(self), callback),
            !completed ==> stopped_by(callback),
    {
        let n: usize = self.graph.num_nodes();
        let ghost before = *self;
        proof {
            self.lemma_wf();
            assert(self.order().subrange(0, self.order().len() as int) =~= self.order());
        }
        if n == 0 {
            return true;
        }
        let first: usize = self.start % n;
        let mut i: usize = 0;
        while i < n
            invariant
                i <= n,
                n == self.spec_num_nodes(),
                0 < n < usize::MAX,
                first < n,
                self.wf(),
                before == *old(self),
                self.extends(&before),
                self.all_discoveries_told(&before, callback),
                forall|e: Event|
                    event_in_range(e, n as nat) ==> #[trigger] call_requires(*callback, (e,)),
                forall|e: Event|
                    event_in_range(e, n as nat) ==> #[trigger] call_requires(*filter, (e,)),
                forall|v: int|
                    0 <= v < n && turn_of(first as int, v, n as int) < i
                        ==> #[trigger] self.root_tried(filter, v),
            decreases n - i,
        {
            let node: usize = if i < n - first {
                first + i
            } else {
                i - (n - first)
            };
            assert(turn_of(first as int, node as int, n as int) == i);
            let ghost step = *self;
            if !self.visit_from_node(node, callback, filter) {
                proof {
                    Self::lemma_extends_transitive(self, &step, &before);
                }
                return false;
            }
            proof {
                Self::lemma_extends_transitive(self, &step, &before);
                step.lemma_wf();
                assert forall|j: int|
                    before.order().len() <= j < self.order().len() implies #[trigger] self.told_at(
                    j,
                    callback,
                ) by {
                    if j < step.order().len() {
                        assert(step.told_at(j, callback));
                        let root = choose|root: int|
                            0 <= root < step.spec_num_nodes() && call_ensures(
                                *callback,
                                (Event::Init { root: root as usize },),
                                true,
                            ) && call_ensures(
                                *callback,
                                (#[trigger] step.discovery_at(j, root),),
                                true,
                            );
                        assert(self.order().subrange(0, step.order().len() as int)[j]
                            == step.order()[j]);
                        assert(step.visited(step.order()[j] as int));
                        assert(self.discovery_at(j, root) == step.discovery_at(j, root));
                    } else {
                        assert(call_ensures(
                            *callback,
                            (self.discovery_at(j, node as int),),
                            true,
                        ));
                    }
                }
                assert forall|v: int|
                    0 <= v < n
                        && turn_of(first as int, v, n as int) < i + 1 implies #[trigger] self.root_tried(
                    filter,
                    v,
                ) by {
                    if turn_of(first as int, v, n as int) < i {
                        assert(step.root_tried(filter, v));
                        if step.visited(v) {
                            assert(self.distances()[v] == step.distances()[v]);
                        }
                    } else {
                        assert(v == node);
                    }
                }
            }
            i += 1;
        }
        true
    }

    /// Extending is transitive.
    proof fn lemma_extends_transitive(now: &Self, mid: &Self, before: &Self)
        requires
            now.extends(mid),
            mid.extends(before),
        ensures
            now.extends(before),
    {
        let a = before.order().len() as int;
        let b = mid.order().len() as int;
        assert(now.order().subrange(0, a) =~= before.order()) by {
            assert forall|i: int| 0 <= i < a implies now.order()[i] == before.order()[i] by {
                assert(now.order().subrange(0, b)[i] == mid.order()[i]);
                assert(mid.order().subrange(0, a)[i] == before.order()[i]);
            }
        }
        assert forall|v: int|
            0 <= v < now.spec_num_nodes() && before.visited(v) implies #[trigger] now.distances()[v]
            == before.distances()[v] && now.parents()[v] == before.parents()[v] by {
            assert(mid.distances()[v] == before.distances()[v]);
        }
    }

    /// Forgets every discovery and visits the graph from `root`, without a
    /// filter. Afterwards the distances are those of the nodes from `root`.
    pub fn distances_from(&mut self, root: usize)
        requires
            old(self).wf(),
            root < old(self).spec_num_nodes(),
        ensures
            final(self).wf(),
            final(self).adjacency() == old(self).adjacency(),
            final(self).spec_start() == old(self).spec_start(),
            is_distance_table(final(self).adjacency(), root as int, final(self).distances()),
            holds_distances(final(self).adjacency(), root as int, final(self).distances()),
            final(self).order().len() > 0,
            final(self).order()[0] == root,
            forall|i: int, j: int|
                0 <= i <= j < final(self).order().len() ==> final(self).distances()[
                #[trigger] final(self).order()[i] as int] <= final(self).distances()[
                #[trigger] final(self).order()[j] as int],
    {
        self.reset();
        let ghost before = *self;
        let callback = |e: Event| -> (b: bool)
            ensures
                b,
            { true };
        let filter = |e: Event| -> (b: bool)
            ensures
                b,
            { true };
        let completed = self.visit_from_node(root, &callback, &filter);
        proof {
            assert(completed) by {
                if stopped_by(&callback) {
                    let e = choose|e: Event| #[trigger] call_ensures(callback, (e,), false);
                }
            }
            self.lemma_wf();
            before.lemma_wf();
            let adj = self.adjacency();
            let dist = self.distances();
            let r = root as int;
            assert(self.visit_under_way(&before, r, &filter, self.order().len() as int, 0));
            assert forall|v: int|
                0 <= v < adj.len() && dist[v] != UNREACHED && v != r implies reached_through_arc(
                adj,
                dist,
                v,
            ) by {
                assert(self.order().contains(v as usize));
                let i = choose|i: int| 0 <= i < self.order().len() && self.order()[i] == v as usize;
                assert(self.discovered_through(&before, r, &filter, self.order()[i] as int));
                let p = self.parents()[v] as int;
                assert(0 <= p < adj.len() && dist[p] != UNREACHED && has_arc(adj, p, v) && dist[v]
                    == dist[p] + 1);
            }
            assert forall|u: int, k: int|
                0 <= u < adj.len() && dist[u] != UNREACHED && 0 <= k < adj[u].len() implies dist[(
                #[trigger] adj[u][k]) as int] != UNREACHED && dist[adj[u][k] as int] <= dist[u]
                + 1 by {
                assert(self.order().contains(u as usize));
                let i = choose|i: int| 0 <= i < self.order().len() && self.order()[i] == u as usize;
                assert(self.arc_followed(&before, r, &filter, self.order()[i] as int, k));
            }
            assert(is_distance_table(adj, r, dist));
            lemma_table_holds_distances(adj, r, dist);
        }
    }
}

/// The callback asked for the visit to stop.
pub open spec fn stopped_by<C: Fn(Event) -> bool>(callback: &C) -> bool {
    exists|e: Event| #[trigger] call_ensures(*callback, (e,), false)
}

/// The turn of node `v` in a round over `n` nodes that begins at `first`.
pub open spec fn turn_of(first: int, v: int, n: int) -> int {
    if v >= first {
        v - first
    } else {
        v + n - first
    }
}

/// Node `v` has a predecessor that is reached and one step closer.
pub open spec fn reached_through_arc(adj: Seq<Seq<usize>>, dist: Seq<usize>, v: int) -> bool {
    exists|p: int|
        0 <= p < adj.len() && dist[p] != UNREACHED && has_arc(adj, p, v) && #[trigger] dist[p] + 1
            == dist[v]
}

/// `dist` is the table of the distances from `root`: the root is at
/// distance 0; every other reached node has a reached predecessor one step
/// closer; and every successor of a reached node is reached, at most one
/// step further.
pub open spec fn is_distance_table(adj: Seq<Seq<usize>>, root: int, dist: Seq<usize>) -> bool {
    &&& dist.len() == adj.len()
    &&& 0 <= root < adj.len()
    &&& dist[root] == 0
    &&& forall|v: int|
        0 <= v < adj.len() && dist[v] != UNREACHED && v != root ==> #[trigger] reached_through_arc(
            adj,
            dist,
            v,
        )
    &&& forall|u: int, k: int|
        0 <= u < adj.len() && dist[u] != UNREACHED && 0 <= k < adj[u].len() ==> dist[(
        #[trigger] adj[u][k]) as int] != UNREACHED && dist[adj[u][k] as int] <= dist[u] + 1
}

/// A node at distance `d` in one table of distances is at most that far in
/// every other.
proof fn lemma_no_further(adj: Seq<Seq<usize>>, root: int, a: Seq<usize>, b: Seq<usize>, v: int, d: nat)
    requires
        is_distance_table(adj, root, a),
        is_distance_table(adj, root, b),
        successors_in_range(adj),
        0 <= v < adj.len(),
        a[v] == d,
        a[v] != UNREACHED,
    ensures
        b[v] != UNREACHED,
        b[v] <= d,
    decreases d,
{
    if v != root {
        assert(reached_through_arc(adj, a, v));
        let p = choose|p: int|
            0 <= p < adj.len() && a[p] != UNREACHED && has_arc(adj, p, v) && #[trigger] a[p] + 1
                == a[v];
        lemma_no_further(adj, root, a, b, p, (d - 1) as nat);
        let k = choose|k: int| 0 <= k < adj[p].len() && #[trigger] adj[p][k] == v;
        assert(b[adj[p][k] as int] <= b[p] + 1);
    }
}

/// There is one table of distances from a root: two visits of the same
/// graph from the same root, each after a reset, end with the same
/// distances.
pub proof fn lemma_distance_table_unique(
    adj: Seq<Seq<usize>>,
    root: int,
    a: Seq<usize>,
    b: Seq<usize>,
)
    requires
        is_distance_table(adj, root, a),
        is_distance_table(adj, root, b),
        successors_in_range(adj),
    ensures
        a == b,
{
    assert forall|v: int| 0 <= v < adj.len() implies a[v] == b[v] by {
        if a[v] != UNREACHED {
            lemma_no_further(adj, root, a, b, v, a[v] as nat);
            lemma_no_further(adj, root, b, a, v, b[v] as nat);
        } else if b[v] != UNREACHED {
            lemma_no_further(adj, root, b, a, v, b[v] as nat);
        }
    }
    assert(a =~= b);
}

/// A node at distance `d` in a table of distances is within `d` arcs of
/// the root.
pub proof fn lemma_table_within(adj: Seq<Seq<usize>>, root: int, dist: Seq<usize>, v: int, d: nat)
    requires
        is_distance_table(adj, root, dist),
        0 <= v < adj.len(),
        dist[v] == d,
        dist[v] != UNREACHED,
    ensures
        within(adj, root, v, d as int),
    decreases d,
{
    if v == root {
        lemma_within_itself(adj, root, d as int);
    } else {
        assert(reached_through_arc(adj, dist, v));
        let p = choose|p: int|
            0 <= p < adj.len() && dist[p] != UNREACHED && has_arc(adj, p, v) && #[trigger] dist[p]
                + 1 == dist[v];
        lemma_table_within(adj, root, dist, p, (d - 1) as nat);
        lemma_within_step(adj, root, p, v, d - 1);
    }
}

/// A node within `k` arcs of the root is at distance `k` at most in a
/// table of distances.
pub proof fn lemma_within_table(adj: Seq<Seq<usize>>, root: int, dist: Seq<usize>, v: int, k: int)
    requires
        is_distance_table(adj, root, dist),
        within(adj, root, v, k),
    ensures
        0 <= v < adj.len(),
        dist[v] != UNREACHED,
        dist[v] <= k,
    decreases k,
{
    lemma_within_none(adj, root, v, k);
    if v != root {
        let p = lemma_within_last_arc(adj, root, v, k);
        lemma_within_table(adj, root, dist, p, k - 1);
        let j = choose|j: int| 0 <= j < adj[p].len() && #[trigger] adj[p][j] == v;
        assert(dist[adj[p][j] as int] <= dist[p] + 1);
    }
}

/// The table holds for every node that the root reaches the number of
/// arcs of the shortest walk from the root, and for no other node a
/// distance.
pub open spec fn holds_distances(adj: Seq<Seq<usize>>, root: int, dist: Seq<usize>) -> bool {
    &&& dist.len() == adj.len()
    &&& forall|v: int|
        0 <= v < adj.len() ==> if (#[trigger] dist[v]) != UNREACHED {
            is_distance(adj, root, v, dist[v] as int)
        } else {
            !reaches(adj, root, v)
        }
}

/// A table of distances holds the distances.
pub proof fn lemma_table_holds_distances(adj: Seq<Seq<usize>>, root: int, dist: Seq<usize>)
    requires
        is_distance_table(adj, root, dist),
    ensures
        holds_distances(adj, root, dist),
{
    assert forall|v: int| 0 <= v < adj.len() implies if (#[trigger] dist[v]) != UNREACHED {
        is_distance(adj, root, v, dist[v] as int)
    } else {
        !reaches(adj, root, v)
    } by {
        if dist[v] != UNREACHED {
            lemma_table_within(adj, root, dist, v, dist[v] as nat);
            if within(adj, root, v, dist[v] - 1) {
                lemma_within_table(adj, root, dist, v, dist[v] - 1);
            }
        } else {
            if reaches(adj, root, v) {
                let k = lemma_reaches_within(adj, root, v);
                lemma_within_table(adj, root, dist, v, k);
            }
        }
    }
}

/// `ecc` is the largest distance of the table.
pub open spec fn is_largest_distance(dist: Seq<usize>, ecc: usize) -> bool {
    &&& exists|v: int| 0 <= v < dist.len() && dist[v] != UNREACHED && #[trigger] dist[v] == ecc
    &&& forall|v: int| 0 <= v < dist.len() && dist[v] != UNREACHED ==> (#[trigger] dist[v]) <= ecc
}

/// The largest distance of a table of distances is the eccentricity of the
/// root.
pub proof fn lemma_table_eccentricity(adj: Seq<Seq<usize>>, root: int, dist: Seq<usize>, ecc: usize)
    requires
        is_distance_table(adj, root, dist),
        is_largest_distance(dist, ecc),
    ensures
        is_eccentricity(adj, root, ecc as int),
{
    lemma_table_holds_distances(adj, root, dist);
    assert forall|v: int| 0 <= v < adj.len() && #[trigger] reaches(adj, root, v) implies within(
        adj,
        root,
        v,
        ecc as int,
    ) by {
        assert(dist[v] != UNREACHED);
        lemma_within_more(adj, root, v, dist[v] as int, ecc as int);
    }
    let far = choose|v: int| 0 <= v < dist.len() && dist[v] != UNREACHED && #[trigger] dist[v] == ecc;
    lemma_within_reaches(adj, root, far, dist[far] as int);
    assert(is_far(adj, root, far, ecc as int));
}

} // verus!
