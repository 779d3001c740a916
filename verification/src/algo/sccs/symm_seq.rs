//! Connected components of symmetric graphs.
//!
//! In a symmetric graph the nodes that a depth-first visit enters from one
//! root are a connected component. The roots are taken in the order of the
//! nodes, and the components are numbered in the order in which they are
//! found.
use crate::algo::sccs::basic::{
    has_member, in_reverse_topological_order, is_scc_table, lemma_connected_together,
};
use crate::algo::sccs::forest::{
    components_of_visits, forest_ok, hangs_on_head, lemma_reaches_in_reaches, Forest, NONE,
};
use crate::graph::{
    has_arc, holds_reversed, lemma_reaches_further, lemma_reverse_walk, strongly_connected,
    successors_in_range, Graph,
};
use vstd::prelude::*;

verus! {

/// With every arc the graph has the arc back.
pub open spec fn is_symmetric(adj: Seq<Seq<usize>>) -> bool {
    holds_reversed(adj, adj)
}

/// Every arc joins two nodes of one component.
pub open spec fn arcs_stay_within(component: Seq<usize>, adj: Seq<Seq<usize>>) -> bool {
    forall|u: int, j: int|
        0 <= u < adj.len() && 0 <= j < adj[u].len() ==> component[(#[trigger] adj[u][j]) as int]
            == component[u]
}

/// In a symmetric graph, components that no arc leaves for a larger index
/// are left by no arc at all.
pub proof fn lemma_symmetric_arcs_stay(component: Seq<usize>, adj: Seq<Seq<usize>>)
    requires
        is_symmetric(adj),
        in_reverse_topological_order(component, adj),
    ensures
        arcs_stay_within(component, adj),
{
    assert forall|u: int, j: int| 0 <= u < adj.len() && 0 <= j < adj[u].len() implies component[(
    #[trigger] adj[u][j]) as int] == component[u] by {
        let v = adj[u][j] as int;
        assert(has_arc(adj, v, u));
        let k = choose|k: int| 0 <= k < adj[v].len() && #[trigger] adj[v][k] == u;
        assert(component[adj[v][k] as int] <= component[v]);
    }
}

/// In a symmetric graph the components that visits from a list of roots
/// find are the strongly connected components.
pub proof fn lemma_symmetric_components(
    adj: Seq<Seq<usize>>,
    roots: Option<Seq<usize>>,
    component: Seq<usize>,
    f: Forest,
)
    requires
        successors_in_range(adj),
        is_symmetric(adj),
        forest_ok(adj, roots, component, f, adj.len() as int),
        forall|v: int| 0 <= v < adj.len() ==> (#[trigger] component[v]) != NONE,
    ensures
        is_scc_table(component, adj),
{
    assert forall|u: int, j: int| 0 <= u < adj.len() && 0 <= j < adj[u].len() implies component[(
    #[trigger] adj[u][j]) as int] <= component[u] by {
        assert(component[u] != NONE);
    }
    lemma_symmetric_arcs_stay(component, adj);
    assert forall|u: int, v: int| 0 <= u < adj.len() && 0 <= v < adj.len() implies (component[u]
        == component[v] <==> #[trigger] strongly_connected(adj, u, v)) by {
        if component[u] == component[v] {
            let c = component[u] as int;
            let h = f.heads[c] as int;
            assert(hangs_on_head(adj, component, f, u));
            assert(hangs_on_head(adj, component, f, v));
            lemma_reaches_in_reaches(adj, component, c, h, u);
            lemma_reaches_in_reaches(adj, component, c, h, v);
            lemma_reverse_walk(adj, adj, h, u);
            lemma_reverse_walk(adj, adj, h, v);
            lemma_reaches_further(adj, u, h, v);
            lemma_reaches_further(adj, v, h, u);
        }
        if strongly_connected(adj, u, v) {
            assert forall|a: int, j: int| 0 <= a < adj.len() && 0 <= j < adj[a].len() implies component[a]
                <= component[#[trigger] adj[a][j] as int] by {}
            lemma_connected_together(component, adj, u, v);
        }
    }
}

/// The connected components of a symmetric graph, by sequential
/// depth-first visits.
pub struct SymmSeq {
    num_components: usize,
    component: Vec<usize>,
}

impl SymmSeq {
    /// The number of components.
    pub closed spec fn spec_num_components(&self) -> nat {
        self.num_components as nat
    }

    /// The component of every node.
    pub closed spec fn components(&self) -> Seq<usize> {
        self.component@
    }

    /// Every node has a component below the number of components.
    pub open spec fn wf(&self) -> bool {
        forall|v: int|
            0 <= v < self.components().len() ==> (#[trigger] self.components()[v])
                < self.spec_num_components()
    }

    /// Every component has a node.
    pub open spec fn inhabited(&self) -> bool {
        forall|c: int| 0 <= c < self.spec_num_components() ==> #[trigger] has_member(self.components(), c)
    }

    /// The number of components.
    pub fn num_components(&self) -> (k: usize)
        ensures
            k == self.spec_num_components(),
    {
        self.num_components
    }

    /// The component of every node.
    pub fn component(&self) -> (table: &Vec<usize>)
        ensures
            table@ == self.components(),
    {
        &self.component
    }

    /// The components of `graph`: the nodes that the visit from one root
    /// enters get one index. No arc leads to a component with a larger
    /// index, and where the graph is symmetric every arc stays within its
    /// component.
    pub fn compute(graph: &Graph) -> (sccs: SymmSeq)
        requires
            graph.wf(),
        ensures
            sccs.wf(),
            sccs.components().len() == graph@.len(),
            graph@.len() == 0 ==> sccs.spec_num_components() == 0,
            sccs.inhabited(),
            in_reverse_topological_order(sccs.components(), graph@),
            is_symmetric(graph@) ==> arcs_stay_within(sccs.components(), graph@),
            is_symmetric(graph@) ==> is_scc_table(sccs.components(), graph@),
    {
        let (found, Ghost(forest)) = components_of_visits(graph, None);
        let num_components: usize = found.num_components();
        let component: Vec<usize> = found.into_component();
        proof {
            graph.lemma_wf();
            if is_symmetric(graph@) {
                lemma_symmetric_arcs_stay(component@, graph@);
                lemma_symmetric_components(graph@, None, component@, forest);
            }
        }
        SymmSeq { num_components, component }
    }

    /// The components of `graph`, as `compute` finds them; the transposed
    /// graph of a symmetric graph is the graph itself and is not looked at.
    pub fn compute_with_t(graph: &Graph, transpose: &Graph) -> (sccs: SymmSeq)
        requires
            graph.wf(),
        ensures
            sccs.wf(),
            sccs.components().len() == graph@.len(),
            graph@.len() == 0 ==> sccs.spec_num_components() == 0,
            sccs.inhabited(),
            in_reverse_topological_order(sccs.components(), graph@),
            is_symmetric(graph@) ==> arcs_stay_within(sccs.components(), graph@),
            is_symmetric(graph@) ==> is_scc_table(sccs.components(), graph@),
    {
        Self::compute(graph)
    }
}

} // verus!
