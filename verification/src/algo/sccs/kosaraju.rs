//! Kosaraju's algorithm for the strongly connected components.
//!
//! A first depth-first visit of the graph lists the nodes in the reverse of
//! the order in which it leaves them. A second visit, of the transposed
//! graph, takes the roots in that order: the nodes that it enters from one
//! root form one component. The components are numbered in the order in
//! which they are found.
//!
//! The head of a component is the node of it that the first visit left
//! last. A walk of the transposed graph from the head through the
//! component stays among the nodes that the first visit entered no
//! earlier than the head and left no later, and the head reaches those in
//! the graph.
use crate::algo::sccs::basic::{
    in_reverse_topological_order, is_scc_table, lemma_connected_together, BasicSccs,
};
use crate::algo::sccs::forest::{
    components_of_visits, forest_ok, hangs_on_head, head_ok, is_root, is_walk_in, reaches_in,
    root_at, Forest, NONE,
};
use crate::algo::top_sort::{lemma_lists_every_node, reversed};
use crate::algo::visits::depth_first::{
    arc_closed, encloses, entered, fully_visited, left, Tables,
};
use crate::algo::visits::nesting::{
    enclosed_reached, lemma_enclosed_reached, lemma_nested, nested, nesting_ok,
};
use crate::graph::{
    has_arc, is_transpose, lemma_reaches_further, lemma_reverse_walk, reaches, strongly_connected,
    successors_in_range, Graph,
};
use vstd::prelude::*;

verus! {

/// What the second visit knows of the first: the tables `first` of a full
/// visit of the graph, and the components `comp` that visits of the
/// transposed graph found from the roots in the reverse of the order in
/// which the first visit left them.
pub open spec fn two_passes(
    adj: Seq<Seq<usize>>,
    radj: Seq<Seq<usize>>,
    first: Tables,
    comp: Seq<usize>,
    f: Forest,
) -> bool {
    &&& successors_in_range(adj)
    &&& successors_in_range(radj)
    &&& is_transpose(adj, radj)
    &&& fully_visited(adj, first)
    &&& nesting_ok(adj, first)
    &&& forest_ok(radj, Some(reversed(first.postorder)), comp, f, adj.len() as int)
    &&& forall|v: int| 0 <= v < adj.len() ==> (#[trigger] comp[v]) != NONE
}

/// The first visit left no node of a component after its head.
proof fn lemma_head_left_last(
    adj: Seq<Seq<usize>>,
    radj: Seq<Seq<usize>>,
    first: Tables,
    comp: Seq<usize>,
    f: Forest,
    x: int,
)
    requires
        two_passes(adj, radj, first, comp, f),
        0 <= x < adj.len(),
    ensures
        comp[x] < f.heads.len(),
        f.heads[comp[x] as int] < adj.len(),
        first.completion[x] <= first.completion[f.heads[comp[x] as int] as int],
{
    let n = adj.len() as int;
    let order = Some(reversed(first.postorder));
    let c = comp[x] as int;
    assert(hangs_on_head(radj, comp, f, x));
    assert(head_ok(radj, order, comp, f, c, n));
    let r = f.heads[c] as int;
    assert(left(first, x));
    assert(left(first, r));
    let pos = n - 1 - first.completion[x];
    assert(root_at(order, pos) == x);
    if pos < f.turns[c] {
        assert(comp[root_at(order, pos)] < c);
    }
    assert(root_at(order, f.turns[c]) == r);
    assert(first.postorder[n - 1 - f.turns[c]] == r as usize);
    assert(first.completion[first.postorder[n - 1 - f.turns[c]] as int] == n - 1 - f.turns[c]);
}

/// The head of a component encloses, in the first visit, every node of a
/// walk of the transposed graph that starts at the head and stays in the
/// component.
proof fn lemma_head_encloses(
    adj: Seq<Seq<usize>>,
    radj: Seq<Seq<usize>>,
    first: Tables,
    comp: Seq<usize>,
    f: Forest,
    c: int,
    w: Seq<int>,
    k: int,
)
    requires
        two_passes(adj, radj, first, comp, f),
        0 <= c < f.heads.len(),
        is_walk_in(radj, comp, c, w),
        w[0] == f.heads[c],
        0 <= k < w.len(),
    ensures
        0 <= w[k] < adj.len(),
        encloses(first, f.heads[c] as int, w[k]),
    decreases k,
{
    let n = adj.len() as int;
    let r = f.heads[c] as int;
    let x = w[k];
    assert(0 <= w[k] < radj.len());
    assert(comp[w[k]] == c);
    lemma_head_left_last(adj, radj, first, comp, f, x);
    assert(left(first, x) && left(first, r));
    if k > 0 {
        lemma_head_encloses(adj, radj, first, comp, f, c, w, k - 1);
        let p = w[k - 1];
        assert(left(first, p));
        assert(has_arc(radj, w[k - 1], w[k - 1 + 1]));
        let i = choose|i: int| 0 <= i < radj[p].len() && #[trigger] radj[p][i] == x;
        assert(has_arc(adj, radj[p][i] as int, p));
        let j = choose|j: int| 0 <= j < adj[x].len() && #[trigger] adj[x][j] == p;
        assert(arc_closed(adj, first, x, j));
        if first.discovery[x] < first.discovery[r] {
            lemma_nested(adj, first, x, r, p);
            assert(nested(first, x, r, p));
        }
    }
}

/// The components of the second visit are the strongly connected
/// components.
pub proof fn lemma_two_passes(
    adj: Seq<Seq<usize>>,
    radj: Seq<Seq<usize>>,
    first: Tables,
    comp: Seq<usize>,
    f: Forest,
)
    requires
        two_passes(adj, radj, first, comp, f),
        comp.len() == adj.len(),
    ensures
        is_scc_table(comp, adj),
{
    let n = adj.len() as int;
    assert forall|a: int, j: int| 0 <= a < n && 0 <= j < adj[a].len() implies comp[a] <= comp[
    #[trigger] adj[a][j] as int] by {
        let b = adj[a][j] as int;
        assert(has_arc(radj, adj[a][j] as int, a));
        let k = choose|k: int| 0 <= k < radj[b].len() && #[trigger] radj[b][k] == a;
        assert(comp[b] != NONE);
        assert(comp[radj[b][k] as int] <= comp[b]);
    }
    assert forall|u: int, v: int| 0 <= u < n && 0 <= v < n implies (comp[u] == comp[v]
        <==> #[trigger] strongly_connected(adj, u, v)) by {
        if comp[u] == comp[v] {
            lemma_joined_to_head(adj, radj, first, comp, f, u);
            lemma_joined_to_head(adj, radj, first, comp, f, v);
            let h = f.heads[comp[u] as int] as int;
            lemma_reaches_further(adj, u, h, v);
            lemma_reaches_further(adj, v, h, u);
        }
        if strongly_connected(adj, u, v) {
            lemma_connected_together(comp, adj, u, v);
        }
    }
}

/// Every node and the head of its component reach each other in the
/// graph.
proof fn lemma_joined_to_head(
    adj: Seq<Seq<usize>>,
    radj: Seq<Seq<usize>>,
    first: Tables,
    comp: Seq<usize>,
    f: Forest,
    v: int,
)
    requires
        two_passes(adj, radj, first, comp, f),
        0 <= v < adj.len(),
    ensures
        comp[v] < f.heads.len(),
        strongly_connected(adj, v, f.heads[comp[v] as int] as int),
{
    let c = comp[v] as int;
    assert(hangs_on_head(radj, comp, f, v));
    let h = f.heads[c] as int;
    assert(reaches_in(radj, comp, c, h, v));
    reveal(reaches_in);
    let w = choose|w: Seq<int>| #[trigger] is_walk_in(radj, comp, c, w) && w[0] == h && w.last() == v;
    lemma_head_encloses(adj, radj, first, comp, f, c, w, w.len() - 1);
    assert(head_ok(radj, Some(reversed(first.postorder)), comp, f, c, adj.len() as int));
    assert(left(first, h) && left(first, v));
    lemma_enclosed_reached(adj, first, h, v);
    assert(enclosed_reached(adj, first, h, v));
    assert(reaches(radj, h, v)) by {
        reveal(reaches);
        assert(crate::graph::is_walk(radj, w));
    }
    lemma_reverse_walk(radj, adj, h, v);
}

/// The strongly connected components of `graph`, whose transposed graph is
/// `transpose`, by Kosaraju's algorithm.
///
/// The nodes that one visit of the transposed graph enters get one index.
/// No arc of the transposed graph leads to a component with a larger
/// index: the components are in topological order. Where `transpose` is
/// the transposed graph, they are the strongly connected components.
pub fn kosaraju(graph: &Graph, transpose: &Graph) -> (sccs: BasicSccs)
    requires
        graph.wf(),
        transpose.wf(),
        transpose@.len() == graph@.len(),
    ensures
        sccs.wf(),
        sccs.components().len() == graph@.len(),
        graph@.len() == 0 ==> sccs.spec_num_components() == 0,
        sccs.inhabited(),
        in_reverse_topological_order(sccs.components(), transpose@),
        is_transpose(graph@, transpose@) ==> is_scc_table(sccs.components(), graph@),
{
    let order: Vec<usize> = crate::algo::top_sort::run(graph);
    proof {
        assert forall|v: int| 0 <= v < graph@.len() implies #[trigger] is_root(order@, v) by {
            lemma_lists_every_node(graph@, order@, v);
        }
    }
    let (sccs, Ghost(forest)) = components_of_visits(transpose, Some(&order));
    proof {
        graph.lemma_wf();
        transpose.lemma_wf();
        if is_transpose(graph@, transpose@) {
            let first = choose|t: Tables| #[trigger]
                fully_visited(graph@, t) && nesting_ok(graph@, t) && order@ == reversed(
                    t.postorder,
                );
            lemma_two_passes(graph@, transpose@, first, sccs.components(), forest);
        }
    }
    sccs
}

} // verus!
