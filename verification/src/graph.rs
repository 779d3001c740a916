//! Immutable directed graphs with random access to the successors of a
//! node.
use vstd::prelude::*;

verus! {

/// The number of arcs of the adjacency lists `adj`.
pub open spec fn arc_count(adj: Seq<Seq<usize>>) -> nat
    decreases adj.len(),
{
    if adj.len() == 0 {
        0
    } else {
        arc_count(adj.drop_last()) + adj.last().len()
    }
}

/// Every successor in `adj` is the index of a list of `adj`.
pub open spec fn successors_in_range(adj: Seq<Seq<usize>>) -> bool {
    forall|u: int, i: int|
        0 <= u < adj.len() && 0 <= i < adj[u].len() ==> (#[trigger] adj[u][i]) < adj.len()
}

/// `adj` has an arc from `u` to `v`.
pub open spec fn has_arc(adj: Seq<Seq<usize>>, u: int, v: int) -> bool {
    0 <= u < adj.len() && exists|i: int| 0 <= i < adj[u].len() && #[trigger] adj[u][i] == v
}

/// Every arc of `arcs` joins two of the nodes `0..n`.
pub open spec fn arcs_in_range(n: nat, arcs: Seq<(usize, usize)>) -> bool {
    forall|i: int| 0 <= i < arcs.len() ==> (#[trigger] arcs[i]).0 < n && arcs[i].1 < n
}

/// The lists of successors of the graph on `n` nodes that has the arcs of
/// `arcs`: each list holds the targets of the arcs that leave its node, in
/// the order of `arcs`.
pub open spec fn adjacency_of(n: nat, arcs: Seq<(usize, usize)>) -> Seq<Seq<usize>>
    decreases arcs.len(),
{
    if arcs.len() == 0 {
        Seq::new(n, |u: int| Seq::<usize>::empty())
    } else {
        let before = adjacency_of(n, arcs.drop_last());
        let (u, v) = arcs.last();
        before.update(u as int, before[u as int].push(v))
    }
}

/// One more successor in one list is one more arc.
pub proof fn lemma_arc_count_push(adj: Seq<Seq<usize>>, u: int, v: usize)
    requires
        0 <= u < adj.len(),
    ensures
        arc_count(adj.update(u, adj[u].push(v))) == arc_count(adj) + 1,
    decreases adj.len(),
{
    let after = adj.update(u, adj[u].push(v));
    if u == adj.len() - 1 {
        assert(after.drop_last() =~= adj.drop_last());
    } else {
        assert(after.drop_last() =~= adj.drop_last().update(u, adj[u].push(v)));
        lemma_arc_count_push(adj.drop_last(), u, v);
    }
}

/// Lists without successors have no arcs.
pub proof fn lemma_arc_count_empty(adj: Seq<Seq<usize>>)
    requires
        forall|u: int| 0 <= u < adj.len() ==> (#[trigger] adj[u]).len() == 0,
    ensures
        arc_count(adj) == 0,
    decreases adj.len(),
{
    if adj.len() > 0 {
        lemma_arc_count_empty(adj.drop_last());
    }
}

/// Every list is at most as long as there are arcs.
pub proof fn lemma_outdegree_le_arcs(adj: Seq<Seq<usize>>, u: int)
    requires
        0 <= u < adj.len(),
    ensures
        adj[u].len() <= arc_count(adj),
    decreases adj.len(),
{
    if u < adj.len() - 1 {
        lemma_outdegree_le_arcs(adj.drop_last(), u);
    }
}

/// The walk `w` goes through nodes of the graph, from each along an arc to
/// the next.
pub open spec fn is_walk(adj: Seq<Seq<usize>>, w: Seq<int>) -> bool {
    &&& w.len() > 0
    &&& forall|i: int| 0 <= i < w.len() ==> 0 <= #[trigger] w[i] < adj.len()
    &&& forall|i: int| 0 <= i < w.len() - 1 ==> has_arc(adj, #[trigger] w[i], w[i + 1])
}

/// A walk leads from `u` to `v`.
#[verifier::opaque]
pub open spec fn reaches(adj: Seq<Seq<usize>>, u: int, v: int) -> bool {
    exists|w: Seq<int>| #[trigger] is_walk(adj, w) && w[0] == u && w.last() == v
}

/// Each of the two nodes reaches the other.
pub open spec fn strongly_connected(adj: Seq<Seq<usize>>, u: int, v: int) -> bool {
    reaches(adj, u, v) && reaches(adj, v, u)
}

/// A node reaches itself.
pub proof fn lemma_reaches_itself(adj: Seq<Seq<usize>>, u: int)
    requires
        0 <= u < adj.len(),
    ensures
        reaches(adj, u, u),
{
    reveal(reaches);
    let w = seq![u];
    assert(is_walk(adj, w) && w[0] == u && w.last() == u);
}

/// A node reaches the targets of its arcs.
pub proof fn lemma_reaches_by_arc(adj: Seq<Seq<usize>>, u: int, v: int)
    requires
        has_arc(adj, u, v),
        0 <= v < adj.len(),
    ensures
        reaches(adj, u, v),
{
    reveal(reaches);
    let w = seq![u, v];
    assert(is_walk(adj, w) && w[0] == u && w.last() == v);
}

/// What reaches a node reaches what the node reaches.
pub proof fn lemma_reaches_further(adj: Seq<Seq<usize>>, u: int, v: int, x: int)
    requires
        reaches(adj, u, v),
        reaches(adj, v, x),
    ensures
        reaches(adj, u, x),
{
    reveal(reaches);
    let a = choose|w: Seq<int>| #[trigger] is_walk(adj, w) && w[0] == u && w.last() == v;
    let b = choose|w: Seq<int>| #[trigger] is_walk(adj, w) && w[0] == v && w.last() == x;
    let w = a.drop_last() + b;
    assert forall|i: int| 0 <= i < w.len() implies 0 <= #[trigger] w[i] < adj.len() by {
        if i < a.len() - 1 {
            assert(w[i] == a[i]);
        } else {
            assert(w[i] == b[i - (a.len() - 1)]);
        }
    }
    assert forall|i: int| 0 <= i < w.len() - 1 implies has_arc(adj, #[trigger] w[i], w[i + 1]) by {
        if i < a.len() - 1 {
            assert(w[i] == a[i]);
            assert(has_arc(adj, a[i], a[i + 1]));
            if i + 1 < a.len() - 1 {
                assert(w[i + 1] == a[i + 1]);
            } else {
                assert(w[i + 1] == b[0]);
            }
        } else {
            assert(w[i] == b[i - (a.len() - 1)]);
            assert(w[i + 1] == b[i + 1 - (a.len() - 1)]);
            assert(has_arc(adj, b[i - (a.len() - 1)], b[i - (a.len() - 1) + 1]));
        }
    }
    assert(w[0] == u) by {
        if a.len() > 1 {
            assert(w[0] == a[0]);
        } else {
            assert(w[0] == b[0]);
        }
    }
    assert(w.last() == b.last());
    assert(is_walk(adj, w));
}

/// Only nodes reach and are reached.
pub proof fn lemma_reaches_nodes(adj: Seq<Seq<usize>>, u: int, v: int)
    requires
        reaches(adj, u, v),
    ensures
        0 <= u < adj.len(),
        0 <= v < adj.len(),
{
    reveal(reaches);
    let w = choose|w: Seq<int>| #[trigger] is_walk(adj, w) && w[0] == u && w.last() == v;
    assert(0 <= w[0] < adj.len());
    assert(0 <= w[w.len() - 1] < adj.len());
}

/// The part of a walk up to one of its nodes is a walk.
pub proof fn lemma_walk_prefix(adj: Seq<Seq<usize>>, w: Seq<int>, i: int)
    requires
        is_walk(adj, w),
        0 <= i < w.len(),
    ensures
        is_walk(adj, w.subrange(0, i + 1)),
        w.subrange(0, i + 1)[0] == w[0],
        w.subrange(0, i + 1).last() == w[i],
{
    let a = w.subrange(0, i + 1);
    assert forall|x: int| 0 <= x < a.len() implies 0 <= #[trigger] a[x] < adj.len() by {
        assert(a[x] == w[x]);
    }
    assert forall|x: int| 0 <= x < a.len() - 1 implies has_arc(adj, #[trigger] a[x], a[x + 1]) by {
        assert(a[x] == w[x] && a[x + 1] == w[x + 1]);
        assert(has_arc(adj, w[x], w[x + 1]));
    }
}

/// The part of a walk from one of its nodes on is a walk.
pub proof fn lemma_walk_suffix(adj: Seq<Seq<usize>>, w: Seq<int>, i: int)
    requires
        is_walk(adj, w),
        0 <= i < w.len(),
    ensures
        is_walk(adj, w.subrange(i, w.len() as int)),
        w.subrange(i, w.len() as int)[0] == w[i],
        w.subrange(i, w.len() as int).last() == w.last(),
{
    let a = w.subrange(i, w.len() as int);
    assert forall|x: int| 0 <= x < a.len() implies 0 <= #[trigger] a[x] < adj.len() by {
        assert(a[x] == w[x + i]);
    }
    assert forall|x: int| 0 <= x < a.len() - 1 implies has_arc(adj, #[trigger] a[x], a[x + 1]) by {
        assert(a[x] == w[x + i] && a[x + 1] == w[x + i + 1]);
        assert(has_arc(adj, w[x + i], w[x + i + 1]));
    }
}

/// A walk reaches every one of its nodes, and every one of them reaches
/// its end.
pub proof fn lemma_walk_reaches(adj: Seq<Seq<usize>>, w: Seq<int>, i: int)
    requires
        is_walk(adj, w),
        0 <= i < w.len(),
    ensures
        reaches(adj, w[0], w[i]),
        reaches(adj, w[i], w.last()),
{
    reveal(reaches);
    lemma_walk_prefix(adj, w, i);
    lemma_walk_suffix(adj, w, i);
}

/// The graph `radj` has every arc of `adj` turned round.
pub open spec fn holds_reversed(adj: Seq<Seq<usize>>, radj: Seq<Seq<usize>>) -> bool {
    &&& radj.len() == adj.len()
    &&& forall|u: int, j: int|
        0 <= u < adj.len() && 0 <= j < adj[u].len() ==> has_arc(
            radj,
            (#[trigger] adj[u][j]) as int,
            u,
        )
}

/// Each of the two graphs has the arcs of the other turned round, and no
/// others.
pub open spec fn is_transpose(adj: Seq<Seq<usize>>, radj: Seq<Seq<usize>>) -> bool {
    holds_reversed(adj, radj) && holds_reversed(radj, adj)
}

/// The walk from its last node to its first.
pub open spec fn turned(w: Seq<int>) -> Seq<int> {
    Seq::new(w.len(), |i: int| w[w.len() - 1 - i])
}

/// Where a graph holds the arcs of another turned round, it holds its
/// walks turned round.
pub proof fn lemma_reverse_walk(adj: Seq<Seq<usize>>, radj: Seq<Seq<usize>>, u: int, v: int)
    requires
        successors_in_range(adj),
        holds_reversed(adj, radj),
        reaches(adj, u, v),
    ensures
        reaches(radj, v, u),
{
    reveal(reaches);
    let w = choose|w: Seq<int>| #[trigger] is_walk(adj, w) && w[0] == u && w.last() == v;
    let r = turned(w);
    assert forall|i: int| 0 <= i < r.len() - 1 implies has_arc(radj, #[trigger] r[i], r[i + 1]) by {
        let k = w.len() - 2 - i;
        assert(r[i] == w[k + 1] && r[i + 1] == w[k]);
        assert(has_arc(adj, w[k], w[k + 1]));
        let j = choose|j: int| 0 <= j < adj[w[k]].len() && #[trigger] adj[w[k]][j] == w[k + 1];
        assert(has_arc(radj, adj[w[k]][j] as int, w[k]));
    }
    assert forall|i: int| 0 <= i < r.len() implies 0 <= #[trigger] r[i] < radj.len() by {
        assert(0 <= w[w.len() - 1 - i] < adj.len());
    }
    assert(is_walk(radj, r) && r[0] == v && r.last() == u);
}

/// The number of arcs that leave the first `i` nodes.
pub open spec fn arcs_before(adj: Seq<Seq<usize>>, i: int) -> nat {
    arc_count(adj.subrange(0, i))
}

/// One node more adds its out-degree.
pub proof fn lemma_arcs_before_step(adj: Seq<Seq<usize>>, i: int)
    requires
        0 <= i < adj.len(),
    ensures
        arcs_before(adj, i + 1) == arcs_before(adj, i) + adj[i].len(),
        arcs_before(adj, 0) == 0,
{
    assert(adj.subrange(0, i + 1).drop_last() =~= adj.subrange(0, i));
}

/// The number of arcs before a node does not fall as the node grows.
pub proof fn lemma_arcs_before_monotone(adj: Seq<Seq<usize>>, i: int, j: int)
    requires
        0 <= i <= j <= adj.len(),
    ensures
        arcs_before(adj, i) <= arcs_before(adj, j),
        arcs_before(adj, adj.len() as int) == arc_count(adj),
    decreases j - i,
{
    assert(adj.subrange(0, adj.len() as int) =~= adj);
    if i < j {
        lemma_arcs_before_step(adj, j - 1);
        lemma_arcs_before_monotone(adj, i, j - 1);
    }
}

/// A directed graph on the nodes `0..n`, held as one list of successors per
/// node, in the order in which the arcs were added.
pub struct Graph {
    successors: Vec<Vec<usize>>,
    num_arcs: usize,
}

impl View for Graph {
    type V = Seq<Seq<usize>>;

    /// The successors of every node, in order.
    closed spec fn view(&self) -> Seq<Seq<usize>> {
        Seq::new(self.successors@.len(), |u: int| self.successors@[u]@)
    }
}

impl Graph {
    /// The invariant of a graph: every successor is a node, the number of
    /// arcs is known, and the number of nodes is below `usize::MAX`.
    pub closed spec fn wf(&self) -> bool {
        &&& successors_in_range(self@)
        &&& self.num_arcs == arc_count(self@)
        &&& self@.len() < usize::MAX
    }

    /// What the invariant says.
    pub proof fn lemma_wf(&self)
        requires
            self.wf(),
        ensures
            successors_in_range(self@),
            arc_count(self@) <= usize::MAX,
            self@.len() < usize::MAX,
    {
    }

    /// The graph with `num_nodes` nodes and no arcs.
    pub fn new(num_nodes: usize) -> (g: Graph)
        requires
            num_nodes < usize::MAX,
        ensures
            g.wf(),
            g@.len() == num_nodes,
            g@ == Seq::new(num_nodes as nat, |u: int| Seq::<usize>::empty()),
            arc_count(g@) == 0,
    {
        let mut successors: Vec<Vec<usize>> = Vec::with_capacity(num_nodes);
        let mut u: usize = 0;
        while u < num_nodes
            invariant
                u <= num_nodes,
                successors@.len() == u,
                forall|k: int| 0 <= k < u ==> (#[trigger] successors@[k])@.len() == 0,
            decreases num_nodes - u,
        {
            successors.push(Vec::new());
            u += 1;
        }
        let g = Graph { successors, num_arcs: 0 };
        proof {
            lemma_arc_count_empty(g@);
            assert(g@ =~~= Seq::new(num_nodes as nat, |u: int| Seq::<usize>::empty()));
        }
        g
    }

    /// Adds the arc from `u` to `v` and says whether it could: both must be
    /// nodes, and the number of arcs must stay below `usize::MAX`.
    pub fn add_arc(&mut self, u: usize, v: usize) -> (added: bool)
        requires
            old(self).wf(),
        ensures
            final(self).wf(),
            added <==> u < old(self)@.len() && v < old(self)@.len() && arc_count(old(self)@)
                < usize::MAX,
            added ==> final(self)@ == old(self)@.update(u as int, old(self)@[u as int].push(v)),
            added ==> arc_count(final(self)@) == arc_count(old(self)@) + 1,
            !added ==> final(self)@ == old(self)@,
    {
        let n: usize = self.successors.len();
        if u >= n || v >= n || self.num_arcs == usize::MAX {
            return false;
        }
        let ghost before = self@;
        let mut list: Vec<usize> = Vec::new();
        std::mem::swap(&mut list, &mut self.successors[u]);
        list.push(v);
        self.successors[u] = list;
        self.num_arcs = self.num_arcs + 1;
        proof {
            assert(self@ =~= before.update(u as int, before[u as int].push(v)));
            lemma_arc_count_push(before, u as int, v);
        }
        true
    }

    /// The graph on `num_nodes` nodes with the given arcs, or `None` where
    /// an arc names a node that does not exist.
    pub fn from_arcs(num_nodes: usize, arcs: &[(usize, usize)]) -> (res: Option<Graph>)
        requires
            num_nodes < usize::MAX,
        ensures
            res is Some <==> arcs_in_range(num_nodes as nat, arcs@),
            res matches Some(g) ==> g.wf() && g@ == adjacency_of(num_nodes as nat, arcs@)
                && g@.len() == num_nodes && arc_count(g@) == arcs@.len(),
    {
        let mut g = Graph::new(num_nodes);
        let mut i: usize = 0;
        assert(arcs@.subrange(0, 0) =~= Seq::<(usize, usize)>::empty());
        while i < arcs.len()
            invariant
                i <= arcs@.len(),
                g.wf(),
                g@.len() == num_nodes,
                arc_count(g@) == i,
                arcs_in_range(num_nodes as nat, arcs@.subrange(0, i as int)),
                g@ == adjacency_of(num_nodes as nat, arcs@.subrange(0, i as int)),
            decreases arcs@.len() - i,
        {
            let (u, v) = arcs[i];
            proof {
                vstd::slice::axiom_spec_len(arcs);
            }
            if !g.add_arc(u, v) {
                assert(!(arcs@[i as int].0 < num_nodes && arcs@[i as int].1 < num_nodes));
                return None;
            }
            proof {
                let next = arcs@.subrange(0, i + 1);
                assert(next.drop_last() =~= arcs@.subrange(0, i as int));
                assert(next.last() == arcs@[i as int]);
                assert forall|k: int| 0 <= k < next.len() implies (#[trigger] next[k]).0
                    < num_nodes && next[k].1 < num_nodes by {
                    if k < i {
                        assert(arcs@.subrange(0, i as int)[k] == next[k]);
                    }
                }
            }
            i += 1;
        }
        assert(arcs@.subrange(0, i as int) =~= arcs@);
        Some(g)
    }

    /// The number of nodes.
    pub fn num_nodes(&self) -> (n: usize)
        ensures
            n == self@.len(),
    {
        self.successors.len()
    }

    /// The number of arcs.
    pub fn num_arcs(&self) -> (m: usize)
        requires
            self.wf(),
        ensures
            m == arc_count(self@),
    {
        self.num_arcs
    }

    /// The number of successors of `node`.
    pub fn outdegree(&self, node: usize) -> (d: usize)
        requires
            node < self@.len(),
        ensures
            d == self@[node as int].len(),
    {
        self.successors[node].len()
    }

    /// The successors of `node`, in order.
    pub fn successors(&self, node: usize) -> (list: &Vec<usize>)
        requires
            node < self@.len(),
        ensures
            list@ == self@[node as int],
    {
        &self.successors[node]
    }

    /// The transposed graph: the graph with every arc turned round.
    pub fn transpose(&self) -> (turned: Graph)
        requires
            self.wf(),
        ensures
            turned.wf(),
            is_transpose(self@, turned@),
            arc_count(turned@) == arc_count(self@),
    {
        let n: usize = self.num_nodes();
        let ghost adj = self@;
        let mut turned = Graph::new(n);
        let mut u: usize = 0;
        proof {
            assert(adj.subrange(0, 0).len() == 0);
            lemma_arc_count_empty(turned@);
        }
        while u < n
            invariant
                u <= n,
                n == adj.len(),
                adj == self@,
                self.wf(),
                turned.wf(),
                turned@.len() == n,
                arc_count(turned@) == arcs_before(adj, u as int),
                forall|a: int, j: int|
                    0 <= a < u && 0 <= j < adj[a].len() ==> has_arc(
                        turned@,
                        (#[trigger] adj[a][j]) as int,
                        a,
                    ),
                forall|b: int, k: int|
                    0 <= b < n && 0 <= k < turned@[b].len() ==> has_arc(
                        adj,
                        (#[trigger] turned@[b][k]) as int,
                        b,
                    ),
            decreases n - u,
        {
            let list: &Vec<usize> = self.successors(u);
            let mut j: usize = 0;
            proof {
                lemma_arcs_before_step(adj, u as int);
                lemma_arcs_before_monotone(adj, u + 1, n as int);
            }
            while j < list.len()
                invariant
                    u < n,
                    j <= list@.len(),
                    list@ == adj[u as int],
                    n == adj.len(),
                    adj == self@,
                    self.wf(),
                    turned.wf(),
                    turned@.len() == n,
                    arc_count(turned@) == arcs_before(adj, u as int) + j,
                    arcs_before(adj, u as int) + list@.len() <= arc_count(adj),
                    forall|a: int, i: int|
                        0 <= a < u && 0 <= i < adj[a].len() ==> has_arc(
                            turned@,
                            (#[trigger] adj[a][i]) as int,
                            a,
                        ),
                    forall|i: int| 0 <= i < j ==> has_arc(turned@, (#[trigger] list@[i]) as int, u as int),
                    forall|b: int, k: int|
                        0 <= b < n && 0 <= k < turned@[b].len() ==> has_arc(
                            adj,
                            (#[trigger] turned@[b][k]) as int,
                            b,
                        ),
                decreases list@.len() - j,
            {
                let v: usize = list[j];
                let ghost before = turned@;
                proof {
                    self.lemma_wf();
                    assert(adj[u as int][j as int] < n);
                }
                let added = turned.add_arc(v, u);
                assert(added);
                proof {
                    let after = turned@;
                    assert(after[v as int][before[v as int].len() as int] == u);
                    assert forall|a: int, b: int| has_arc(before, a, b) implies has_arc(after, a, b) by {
                        let k = choose|k: int| 0 <= k < before[a].len() && #[trigger] before[a][k] == b;
                        assert(after[a][k] == b);
                    }
                    assert forall|a: int, i: int| 0 <= a < u && 0 <= i < adj[a].len() implies has_arc(
                        after,
                        (#[trigger] adj[a][i]) as int,
                        a,
                    ) by {
                        assert(has_arc(before, adj[a][i] as int, a));
                    }
                    assert forall|i: int| 0 <= i < j + 1 implies has_arc(
                        after,
                        (#[trigger] list@[i]) as int,
                        u as int,
                    ) by {
                        if i < j {
                            assert(has_arc(before, list@[i] as int, u as int));
                        }
                    }
                    assert forall|b: int, k: int| 0 <= b < n && 0 <= k < after[b].len() implies has_arc(
                        adj,
                        (#[trigger] after[b][k]) as int,
                        b,
                    ) by {
                        if b == v && k == before[v as int].len() {
                            assert(adj[u as int][j as int] == v);
                        } else {
                            assert(after[b][k] == before[b][k]);
                        }
                    }
                }
                j = j + 1;
            }
            u = u + 1;
        }
        proof {
            lemma_arcs_before_monotone(adj, 0, n as int);
        }
        turned
    }
}

} // verus!
