//! The outcome of a decomposition into strongly connected components.
use crate::graph::{has_arc, is_walk, reaches, strongly_connected, successors_in_range};
use vstd::prelude::*;

verus! {

/// The number of nodes among the first `n` that `component` puts into
/// component `c`.
pub open spec fn members_before(component: Seq<usize>, c: int, n: int) -> nat
    decreases n,
{
    if n <= 0 {
        0
    } else {
        members_before(component, c, n - 1) + (if component[n - 1] == c {
            1nat
        } else {
            0nat
        })
    }
}

/// A component has at most as many members among the first `n` nodes as
/// there are such nodes.
pub proof fn lemma_members_bound(component: Seq<usize>, c: int, n: int)
    requires
        0 <= n,
    ensures
        members_before(component, c, n) <= n,
    decreases n,
{
    if n > 0 {
        lemma_members_bound(component, c, n - 1);
    }
}

/// Component `c` has a node.
pub open spec fn has_member(component: Seq<usize>, c: int) -> bool {
    exists|v: int| 0 <= v < component.len() && #[trigger] component[v] == c
}

/// No arc leads to a component with a smaller index.
pub open spec fn in_topological_order(component: Seq<usize>, adj: Seq<Seq<usize>>) -> bool {
    forall|u: int, j: int|
        0 <= u < adj.len() && 0 <= j < adj[u].len() ==> component[u] <= component[
        #[trigger] adj[u][j] as int]
}

/// No arc leads to a component with a larger index.
pub open spec fn in_reverse_topological_order(component: Seq<usize>, adj: Seq<Seq<usize>>) -> bool {
    forall|u: int, j: int|
        0 <= u < adj.len() && 0 <= j < adj[u].len() ==> component[#[trigger] adj[u][j] as int]
            <= component[u]
}

/// Two nodes have one component if and only if each reaches the other.
pub open spec fn is_scc_table(component: Seq<usize>, adj: Seq<Seq<usize>>) -> bool {
    &&& component.len() == adj.len()
    &&& forall|u: int, v: int|
        0 <= u < adj.len() && 0 <= v < adj.len() ==> (component[u] == component[v]
            <==> #[trigger] strongly_connected(adj, u, v))
}

/// Where no arc leads to a component with a smaller index, no walk does.
pub proof fn lemma_walk_ascends(component: Seq<usize>, adj: Seq<Seq<usize>>, w: Seq<int>)
    requires
        successors_in_range(adj),
        in_topological_order(component, adj),
        is_walk(adj, w),
    ensures
        component[w[0]] <= component[w.last()],
    decreases w.len(),
{
    if w.len() > 1 {
        let shorter = w.drop_last();
        assert forall|i: int| 0 <= i < shorter.len() implies 0 <= #[trigger] shorter[i] < adj.len() by {
            assert(shorter[i] == w[i]);
        }
        assert forall|i: int| 0 <= i < shorter.len() - 1 implies has_arc(
            adj,
            #[trigger] shorter[i],
            shorter[i + 1],
        ) by {
            assert(shorter[i] == w[i] && shorter[i + 1] == w[i + 1]);
            assert(has_arc(adj, w[i], w[i + 1]));
        }
        lemma_walk_ascends(component, adj, shorter);
        let u = w[w.len() - 2];
        assert(shorter.last() == u);
        assert(has_arc(adj, u, w[w.len() - 2 + 1]));
        let j = choose|j: int| 0 <= j < adj[u].len() && #[trigger] adj[u][j] == w.last();
        assert(component[u] <= component[adj[u][j] as int]);
    }
}

/// Where no arc leads to a component with a smaller index, nodes of which
/// each reaches the other have one component.
pub proof fn lemma_connected_together(component: Seq<usize>, adj: Seq<Seq<usize>>, u: int, v: int)
    requires
        successors_in_range(adj),
        in_topological_order(component, adj),
        strongly_connected(adj, u, v),
    ensures
        component[u] == component[v],
{
    reveal(reaches);
    let a = choose|w: Seq<int>| #[trigger] is_walk(adj, w) && w[0] == u && w.last() == v;
    let b = choose|w: Seq<int>| #[trigger] is_walk(adj, w) && w[0] == v && w.last() == u;
    lemma_walk_ascends(component, adj, a);
    lemma_walk_ascends(component, adj, b);
}

/// For every node of a graph the index of its strongly connected component.
pub struct BasicSccs {
    num_components: usize,
    component: Vec<usize>,
}

impl BasicSccs {
    /// The number of components.
    pub closed spec fn spec_num_components(&self) -> nat {
        self.num_components as nat
    }

    /// The component of every node.
    pub closed spec fn components(&self) -> Seq<usize> {
        self.component@
    }

    /// Every node has a component below the number of components.
    pub open spec fn wf(&self) -> bool {
        forall|v: int|
            0 <= v < self.components().len() ==> (#[trigger] self.components()[v])
                < self.spec_num_components()
    }

    /// Every component has a node.
    pub open spec fn inhabited(&self) -> bool {
        forall|c: int| 0 <= c < self.spec_num_components() ==> #[trigger] has_member(self.components(), c)
    }

    /// Puts a table of components into a decomposition.
    pub fn new(num_components: usize, component: Vec<usize>) -> (sccs: BasicSccs)
        ensures
            sccs.spec_num_components() == num_components,
            sccs.components() == component@,
    {
        BasicSccs { num_components, component }
    }

    /// The table of components, taken out of the decomposition.
    pub fn into_component(self) -> (table: Vec<usize>)
        ensures
            table@ == self.components(),
    {
        self.component
    }

    /// The number of components.
    pub fn num_components(&self) -> (k: usize)
        ensures
            k == self.spec_num_components(),
    {
        self.num_components
    }

    /// The component of every node.
    pub fn component(&self) -> (table: &Vec<usize>)
        ensures
            table@ == self.components(),
    {
        &self.component
    }

    /// The component of `node`.
    pub fn component_of(&self, node: usize) -> (c: usize)
        requires
            node < self.components().len(),
        ensures
            c == self.components()[node as int],
    {
        self.component[node]
    }

    /// The number of nodes.
    pub fn num_nodes(&self) -> (n: usize)
        ensures
            n == self.components().len(),
    {
        self.component.len()
    }

    /// The number of nodes of every component.
    pub fn compute_sizes(&self) -> (sizes: Vec<usize>)
        requires
            self.wf(),
        ensures
            sizes@.len() == self.spec_num_components(),
            forall|c: int|
                0 <= c < sizes@.len() ==> #[trigger] sizes@[c] == members_before(
                    self.components(),
                    c,
                    self.components().len() as int,
                ),
    {
        let mut sizes: Vec<usize> = vec![0usize; self.num_components];
        let mut v: usize = 0;
        while v < self.component.len()
            invariant
                v <= self.component@.len(),
                self.wf(),
                sizes@.len() == self.num_components,
                forall|c: int|
                    0 <= c < sizes@.len() ==> #[trigger] sizes@[c] == members_before(
                        self.component@,
                        c,
                        v as int,
                    ),
            decreases self.component@.len() - v,
        {
            let c: usize = self.component[v];
            proof {
                lemma_members_bound(self.component@, c as int, v as int);
                assert(self.components()[v as int] < self.spec_num_components());
            }
            let count: usize = sizes[c];
            sizes.set(c, count + 1);
            v += 1;
        }
        sizes
    }
}

} // verus!
