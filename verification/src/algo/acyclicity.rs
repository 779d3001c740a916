//! The test for cycles.
//!
//! A depth-first visit with three states meets an arc to a node that it
//! has entered and not left if and only if the graph has a closed walk. The
//! test stops the visit at the first such arc.
use crate::algo::visits::depth_first::{
    arc_closed, back_edge_passed, is_acyclic, is_back_edge, is_cycle, lemma_all_visited, next_on,
    stopped_at, Event, SingleThreadedDepthFirstVisit,
};
use crate::graph::{has_arc, successors_in_range, Graph};
use vstd::prelude::*;

verus! {

/// Every arc leads to a node of smaller rank.
pub open spec fn descends(adj: Seq<Seq<usize>>, rank: Seq<usize>) -> bool {
    &&& rank.len() == adj.len()
    &&& forall|u: int, j: int|
        0 <= u < adj.len() && 0 <= j < adj[u].len() ==> rank[(#[trigger] adj[u][j]) as int] < rank[u]
}

/// Along a closed walk in a graph whose arcs descend, the rank falls by
/// one at least with every step.
proof fn lemma_walk_descends(adj: Seq<Seq<usize>>, rank: Seq<usize>, c: Seq<int>, i: int)
    requires
        successors_in_range(adj),
        descends(adj, rank),
        is_cycle(adj, c),
        0 <= i < c.len(),
    ensures
        0 <= c[i] < adj.len(),
        0 <= c[0] < adj.len(),
        rank[c[i]] + i <= rank[c[0]],
    decreases i,
{
    assert(has_arc(adj, c[0], next_on(c, 0)));
    assert(has_arc(adj, c[i], next_on(c, i)));
    if i > 0 {
        lemma_walk_descends(adj, rank, c, i - 1);
        let u = c[i - 1];
        assert(has_arc(adj, u, next_on(c, i - 1)));
        let j = choose|j: int| 0 <= j < adj[u].len() && #[trigger] adj[u][j] == c[i];
        assert(rank[adj[u][j] as int] < rank[u]);
    }
}

/// A graph whose arcs all lead to nodes of smaller rank has no closed
/// walk.
pub proof fn lemma_descending_is_acyclic(adj: Seq<Seq<usize>>, rank: Seq<usize>)
    requires
        successors_in_range(adj),
        descends(adj, rank),
    ensures
        is_acyclic(adj),
{
    if exists|c: Seq<int>| #[trigger] is_cycle(adj, c) {
        let c = choose|c: Seq<int>| #[trigger] is_cycle(adj, c);
        let last = c.len() - 1;
        lemma_walk_descends(adj, rank, c, last);
        let u = c[last];
        assert(has_arc(adj, u, next_on(c, last)));
        let j = choose|j: int| 0 <= j < adj[u].len() && #[trigger] adj[u][j] == c[0];
        assert(rank[adj[u][j] as int] < rank[u]);
    }
}

/// Whether `graph` has no cycle.
pub fn run(graph: &Graph) -> (acyclic: bool)
    requires
        graph.wf(),
    ensures
        acyclic == is_acyclic(graph@),
{
    let mut visit = SingleThreadedDepthFirstVisit::new(graph);
    let callback = |e: Event| -> (go: bool)
        ensures
            go == !is_back_edge(e),
        {
            match e {
                Event::Revisit { back_edge, .. } => !back_edge,
                _ => true,
            }
        };
    let filter = |e: Event| -> (ok: bool)
        ensures
            ok,
        { true };
    let completed = visit.visit(&callback, &filter);
    proof {
        let adj = graph@;
        let t = visit.tables();
        visit.lemma_wf();
        if completed {
            if t.cycle_found {
                assert(back_edge_passed(&callback, &filter));
            }
            lemma_all_visited(adj, t, &filter);
            assert forall|u: int, j: int| 0 <= u < adj.len() && 0 <= j < adj[u].len() implies t.completion[(
            #[trigger] adj[u][j]) as int] < t.completion[u] by {
                assert(arc_closed(adj, t, u, j));
            }
            lemma_descending_is_acyclic(adj, t.completion);
        } else {
            assert(stopped_at(&callback, t, adj.len()));
        }
    }
    completed
}

} // verus!
