//! Topological sorting.
//!
//! The nodes are listed in the reverse of the order in which a depth-first
//! visit of the whole graph leaves them. Where the graph has no cycle, every
//! arc leads from a node to one that is listed later.
use crate::algo::visits::depth_first::{
    arc_closed, fully_visited, is_acyclic, left, lemma_all_visited, lemma_order_short, stopped_at,
    Event,
    SingleThreadedDepthFirstVisit, Tables,
};
use crate::algo::visits::nesting::nesting_ok;
use crate::graph::{has_arc, Graph};
use vstd::prelude::*;

verus! {

/// The list holds every one of the nodes `0..n` once.
pub open spec fn is_permutation(order: Seq<usize>, n: nat) -> bool {
    &&& order.len() == n
    &&& order.no_duplicates()
    &&& forall|i: int| 0 <= i < order.len() ==> (#[trigger] order[i]) < n
}

/// Every arc between two listed nodes leads from one to a later one.
pub open spec fn is_topological(adj: Seq<Seq<usize>>, order: Seq<usize>) -> bool {
    forall|i: int, j: int|
        0 <= i < order.len() && 0 <= j < order.len() && has_arc(
            adj,
            #[trigger] order[i] as int,
            #[trigger] order[j] as int,
        ) ==> i < j
}

/// The list from its last entry to its first.
pub open spec fn reversed(s: Seq<usize>) -> Seq<usize> {
    Seq::new(s.len(), |i: int| s[s.len() - 1 - i])
}

/// The list is the reverse of the order in which depth-first visits that
/// cover the graph leave the nodes; the tables of such visits nest.
pub open spec fn is_reverse_postorder(adj: Seq<Seq<usize>>, order: Seq<usize>) -> bool {
    exists|t: Tables| #[trigger] fully_visited(adj, t) && nesting_ok(adj, t) && order == reversed(t.postorder)
}

/// The reverse of the order in which a full visit of a graph without a
/// cycle leaves the nodes is topological.
pub proof fn lemma_reverse_postorder(adj: Seq<Seq<usize>>, t: Tables)
    requires
        fully_visited(adj, t),
    ensures
        is_permutation(reversed(t.postorder), adj.len()),
        is_acyclic(adj) ==> is_topological(adj, reversed(t.postorder)),
{
    let n = adj.len() as int;
    let order = reversed(t.postorder);
    lemma_order_short(t.postorder, t.completion);
    assert forall|i: int, j: int| 0 <= i < order.len() && 0 <= j < order.len() && i != j implies order[i]
        != order[j] by {
        assert(t.postorder[n - 1 - i] != t.postorder[n - 1 - j]);
    }
    assert forall|i: int| 0 <= i < order.len() implies (#[trigger] order[i]) < n by {
        assert(t.postorder[n - 1 - i] < n);
    }
    if is_acyclic(adj) {
        assert forall|i: int, j: int|
            0 <= i < order.len() && 0 <= j < order.len() && has_arc(
                adj,
                #[trigger] order[i] as int,
                #[trigger] order[j] as int,
            ) implies i < j by {
            let u = order[i] as int;
            let v = order[j] as int;
            let k = choose|k: int| 0 <= k < adj[u].len() && #[trigger] adj[u][k] == v;
            assert(arc_closed(adj, t, u, k));
            assert(left(t, u));
            assert(t.completion[t.postorder[n - 1 - i] as int] == n - 1 - i);
            assert(t.completion[t.postorder[n - 1 - j] as int] == n - 1 - j);
        }
    }
}

/// The nodes of `graph` in the reverse of the order in which a depth-first
/// visit leaves them, which is a topological order where the graph has no
/// cycle.
pub fn run(graph: &Graph) -> (order: Vec<usize>)
    requires
        graph.wf(),
    ensures
        is_permutation(order@, graph@.len()),
        is_acyclic(graph@) ==> is_topological(graph@, order@),
        is_reverse_postorder(graph@, order@),
{
    let mut visit = SingleThreadedDepthFirstVisit::with_two_states(graph);
    let callback = |e: Event| -> (go: bool)
        ensures
            go,
        { true };
    let filter = |e: Event| -> (ok: bool)
        ensures
            ok,
        { true };
    let completed = visit.visit(&callback, &filter);
    let ghost t = visit.tables();
    proof {
        if !completed {
            assert(stopped_at(&callback, t, graph@.len()));
        }
        visit.lemma_wf();
        lemma_all_visited(graph@, t, &filter);
        lemma_reverse_postorder(graph@, t);
    }
    let leaving: &Vec<usize> = visit.postorder();
    let n: usize = leaving.len();
    let mut order: Vec<usize> = Vec::new();
    let mut i: usize = 0;
    while i < n
        invariant
            i <= n,
            n == leaving@.len(),
            leaving@ == t.postorder,
            order@.len() == i,
            forall|x: int| 0 <= x < i ==> order@[x] == leaving@[n - 1 - x],
        decreases n - i,
    {
        order.push(leaving[n - 1 - i]);
        i = i + 1;
    }
    proof {
        assert(order@ =~= reversed(t.postorder));
    }
    order
}

/// The reverse of the order in which a full visit leaves the nodes lists
/// every node.
pub proof fn lemma_lists_every_node(adj: Seq<Seq<usize>>, order: Seq<usize>, v: int)
    requires
        is_reverse_postorder(adj, order),
        0 <= v < adj.len(),
    ensures
        exists|i: int| 0 <= i < order.len() && #[trigger] order[i] == v,
{
    let t = choose|t: Tables| #[trigger]
        fully_visited(adj, t) && nesting_ok(adj, t) && order == reversed(t.postorder);
    assert(left(t, v));
    let i = adj.len() - 1 - t.completion[v];
    assert(order[i] == v);
}

} // verus!
