//! Depth-first visits.
//!
//! A visit from a root follows the arcs as deep as it can before it turns
//! back. Before it enters a node through an arc it asks the filter; a node
//! that the filter turns down may still be entered through another arc. The
//! callback is told of the start of the visit, of every node that is
//! entered, of every arc that leads to a node entered before, and of every
//! node that is left, and can stop the visit.
//!
//! A visit with three states tells the callback whether an arc to a node
//! entered before is a back edge, that is, leads to a node that the visit
//! has not left yet; such an arc closes a cycle. A visit with two states
//! does not tell.
use crate::algo::visits::breadth_first::lemma_distinct_below;
use crate::algo::visits::nesting::{
    lemma_nesting_enter, lemma_nesting_fresh, lemma_nesting_leave, lemma_nesting_skip, nesting_ok,
};
use crate::graph::{has_arc, lemma_outdegree_le_arcs, successors_in_range, Graph};
use vstd::prelude::*;

verus! {

/// What a depth-first visit tells its callback and asks its filter.
#[derive(Clone, Copy, Debug, PartialEq, Eq, Structural)]
pub enum Event {
    /// A visit from `root` starts.
    Init { root: usize },
    /// The node `curr` is entered through the arc from `parent`, `depth`
    /// arcs below `root`. The root is its own parent.
    Previsit { curr: usize, parent: usize, root: usize, depth: usize },
    /// The arc from `parent` leads to `curr`, which was entered before.
    /// With three states, `back_edge` says whether `curr` has not been
    /// left yet.
    Revisit { curr: usize, parent: usize, root: usize, depth: usize, back_edge: bool },
    /// The node `curr` is left.
    Completed { curr: usize, parent: usize, root: usize, depth: usize },
}

/// The place in an order of a node that is not in it.
pub const NONE: usize = usize::MAX;

/// The event names nodes of a graph with `n` nodes.
pub open spec fn event_in_range(e: Event, n: nat) -> bool {
    match e {
        Event::Init { root } => root < n,
        Event::Previsit { curr, parent, root, depth } => curr < n && parent < n && root < n
            && depth < n,
        Event::Revisit { curr, parent, root, depth, back_edge } => curr < n && parent < n && root
            < n && depth <= n,
        Event::Completed { curr, parent, root, depth } => curr < n && parent < n && root < n
            && depth < n,
    }
}

/// The entering of `curr` through the arc from `parent`.
pub open spec fn entering(curr: int, parent: int, root: int, depth: int) -> Event {
    Event::Previsit {
        curr: curr as usize,
        parent: parent as usize,
        root: root as usize,
        depth: depth as usize,
    }
}

/// The callback asked for the visit to stop.
pub open spec fn stopped_by<C: Fn(Event) -> bool>(callback: &C) -> bool {
    exists|e: Event| #[trigger] call_ensures(*callback, (e,), false)
}

/// The event tells of a back edge.
pub open spec fn is_back_edge(e: Event) -> bool {
    e matches Event::Revisit { back_edge, .. } && back_edge
}

/// The node that follows position `i` of the closed walk `c`.
pub open spec fn next_on(c: Seq<int>, i: int) -> int {
    if i + 1 < c.len() {
        c[i + 1]
    } else {
        c[0]
    }
}

/// The walk `c` is closed: every node of it has an arc to the next, and
/// the last to the first.
pub open spec fn is_cycle(adj: Seq<Seq<usize>>, c: Seq<int>) -> bool {
    &&& c.len() > 0
    &&& forall|i: int| 0 <= i < c.len() ==> has_arc(adj, #[trigger] c[i], next_on(c, i))
}

/// The graph has no closed walk.
pub open spec fn is_acyclic(adj: Seq<Seq<usize>>) -> bool {
    !exists|c: Seq<int>| #[trigger] is_cycle(adj, c)
}

/// What the visit keeps of every node.
pub struct Tables {
    /// The place of the node in the order of entering, or `NONE`.
    pub discovery: Seq<usize>,
    /// The place of the node in the order of leaving, or `NONE`.
    pub completion: Seq<usize>,
    /// The number of arcs of the node that the visit has followed.
    pub cursor: Seq<usize>,
    /// The node through which the node was entered; a root is its own
    /// parent.
    pub parent: Seq<usize>,
    /// The number of arcs between the root of the visit and the node.
    pub depth: Seq<usize>,
    /// The nodes in the order of entering.
    pub preorder: Seq<usize>,
    /// The nodes in the order of leaving.
    pub postorder: Seq<usize>,
    /// The nodes that are entered and not left, from the root.
    pub path: Seq<usize>,
    /// Whether the visit has followed an arc to a node of the path.
    pub cycle_found: bool,
}

/// Node `v` was entered.
pub open spec fn entered(t: Tables, v: int) -> bool {
    t.discovery[v] != NONE
}

/// Node `v` was left.
pub open spec fn left(t: Tables, v: int) -> bool {
    t.completion[v] != NONE
}

/// Node `v` is entered and not left.
pub open spec fn on_path(t: Tables, v: int) -> bool {
    entered(t, v) && !left(t, v)
}

/// Node `v` was left, and before node `u` where that was left too.
pub open spec fn done_before(t: Tables, v: int, u: int) -> bool {
    left(t, v) && (left(t, u) ==> t.completion[v] < t.completion[u])
}

/// Node `v` was entered no later than node `u`, and it was not left
/// before `u`: where both are entered, `v` is `u` or the visit came from
/// `v` to `u`.
pub open spec fn encloses(t: Tables, v: int, u: int) -> bool {
    &&& t.discovery[v] <= t.discovery[u]
    &&& left(t, v) ==> left(t, u) && t.completion[u] <= t.completion[v]
}

/// The order lists distinct nodes, and `place` gives every listed node its
/// place.
pub open spec fn is_order(order: Seq<usize>, place: Seq<usize>) -> bool {
    &&& order.len() < NONE
    &&& forall|i: int|
        0 <= i < order.len() ==> (#[trigger] order[i]) < place.len() && place[order[i] as int] == i
    &&& forall|v: int|
        0 <= v < place.len() && (#[trigger] place[v]) != NONE ==> place[v] < order.len()
            && order[place[v] as int] == v
}

/// What holds of the tables at any time.
pub open spec fn tables_wf(adj: Seq<Seq<usize>>, t: Tables) -> bool {
    let n = adj.len();
    &&& n < usize::MAX
    &&& successors_in_range(adj)
    &&& forall|u: int| 0 <= u < n ==> (#[trigger] adj[u]).len() <= usize::MAX
    &&& t.discovery.len() == n
    &&& t.completion.len() == n
    &&& t.cursor.len() == n
    &&& t.parent.len() == n
    &&& t.depth.len() == n
    &&& is_order(t.preorder, t.discovery)
    &&& is_order(t.postorder, t.completion)
    &&& forall|v: int| 0 <= v < n && #[trigger] left(t, v) ==> entered(t, v) && t.cursor[v] == adj[v].len()
    &&& forall|v: int|
        0 <= v < n && #[trigger] entered(t, v) ==> t.cursor[v] <= adj[v].len() && t.parent[v] < n
            && t.depth[v] < n
    &&& forall|i: int|
        0 <= i < t.path.len() ==> (#[trigger] t.path[i]) < n && on_path(t, t.path[i] as int)
            && t.depth[t.path[i] as int] == i
    &&& forall|v: int| 0 <= v < n && on_path(t, v) ==> #[trigger] t.path.contains(v as usize)
    &&& forall|i: int, j: int|
        0 <= i < j < t.path.len() ==> t.discovery[#[trigger] t.path[i] as int] < t.discovery[
        #[trigger] t.path[j] as int]
    &&& forall|i: int|
        0 <= i && i + 1 < t.path.len() ==> t.cursor[#[trigger] t.path[i] as int] >= 1
            && adj[t.path[i] as int][t.cursor[t.path[i] as int] - 1] == t.path[i + 1]
    &&& t.cycle_found ==> !is_acyclic(adj)
}


/// The arc number `j` of node `u` was followed: the filter turned the
/// entering of its target down; or the target is entered, and it was left
/// before `u`, or it is the node after `u` on the path, or it encloses
/// `u` and a cycle was found.
pub open spec fn arc_seen<F: Fn(Event) -> bool>(
    adj: Seq<Seq<usize>>,
    t: Tables,
    root: int,
    filter: &F,
    u: int,
    j: int,
) -> bool {
    let v = adj[u][j] as int;
    ||| call_ensures(*filter, (entering(v, u, root, t.depth[u] + 1),), false)
    ||| entered(t, v)
        && (done_before(t, v, u) || (t.cycle_found && encloses(t, v, u)) || (on_path(t, u) && t.depth[u]
        + 1 < t.path.len() && t.path[t.depth[u] + 1] == v))
}

/// Node `v` was entered through an arc from its parent, which the visit
/// had entered before and left after it, and the filter let the entering
/// pass.
pub open spec fn entered_through<F: Fn(Event) -> bool>(
    adj: Seq<Seq<usize>>,
    before: Tables,
    t: Tables,
    root: int,
    filter: &F,
    v: int,
) -> bool {
    let p = t.parent[v] as int;
    &&& 0 <= p < adj.len()
    &&& entered(t, p)
    &&& !entered(before, p)
    &&& has_arc(adj, p, v)
    &&& t.discovery[p] < t.discovery[v]
    &&& t.depth[v] == t.depth[p] + 1
    &&& call_ensures(*filter, (entering(v, p, root, t.depth[v] as int),), true)
    &&& left(t, p) ==> left(t, v) && t.completion[v] < t.completion[p]
}

/// The event that tells of the entering of `v` in a visit from `root`.
pub open spec fn entering_of(t: Tables, v: int, root: int) -> Event {
    entering(v, t.parent[v] as int, root, t.depth[v] as int)
}

/// The event that tells of the leaving of `v` in a visit from `root`.
pub open spec fn leaving_of(t: Tables, v: int, root: int) -> Event {
    Event::Completed {
        curr: v as usize,
        parent: t.parent[v],
        root: root as usize,
        depth: t.depth[v],
    }
}

/// The callback was told of the start of the visit from `root`, of the
/// entering of `v` in it and, where `v` is left, of its leaving, and each
/// time it let the visit go on.
pub open spec fn told_in<C: Fn(Event) -> bool>(t: Tables, v: int, root: int, callback: &C) -> bool {
    &&& call_ensures(*callback, (Event::Init { root: root as usize },), true)
    &&& call_ensures(*callback, (entering_of(t, v, root),), true)
    &&& left(t, v) ==> call_ensures(*callback, (leaving_of(t, v, root),), true)
}

/// The callback was told of the entering and of the leaving of every node
/// that the visit from `root` has entered or left since `before`.
pub open spec fn visits_told<C: Fn(Event) -> bool>(
    before: Tables,
    t: Tables,
    root: int,
    callback: &C,
) -> bool {
    forall|v: int|
        0 <= v < t.discovery.len() && entered(t, v) && !entered(before, v) ==> #[trigger] told_in(
            t,
            v,
            root,
            callback,
        )
}

/// The callback was told of the entering and of the leaving of `v`, in a
/// visit from some root.
pub open spec fn told<C: Fn(Event) -> bool>(t: Tables, v: int, callback: &C) -> bool {
    exists|root: int| 0 <= root < t.discovery.len() && #[trigger] told_in(t, v, root, callback)
}

/// The callback was told of the entering and of the leaving of every node
/// that was entered since `before`.
pub open spec fn all_visits_told<C: Fn(Event) -> bool>(
    before: Tables,
    t: Tables,
    callback: &C,
) -> bool {
    forall|v: int|
        0 <= v < t.discovery.len() && entered(t, v) && !entered(before, v) ==> #[trigger] told(
            t,
            v,
            callback,
        )
}

/// The tables `t` hold what the tables `before` held, and maybe more.
pub open spec fn grown(before: Tables, t: Tables) -> bool {
    &&& before.preorder.len() <= t.preorder.len()
    &&& t.preorder.subrange(0, before.preorder.len() as int) == before.preorder
    &&& before.postorder.len() <= t.postorder.len()
    &&& t.postorder.subrange(0, before.postorder.len() as int) == before.postorder
    &&& before.cycle_found ==> t.cycle_found
    &&& forall|v: int|
        0 <= v < before.discovery.len() && #[trigger] entered(before, v) ==> t.discovery[v]
            == before.discovery[v] && t.completion[v] == before.completion[v] && t.parent[v]
            == before.parent[v] && t.depth[v] == before.depth[v] && t.cursor[v] == before.cursor[v]
}

/// The tables `t` are the tables `before`, in which no node was on the
/// path, with a visit from `root` under way.
pub open spec fn visit_inv<F: Fn(Event) -> bool>(
    adj: Seq<Seq<usize>>,
    before: Tables,
    t: Tables,
    root: int,
    filter: &F,
) -> bool {
    let n = adj.len();
    let first = before.preorder.len() as int;
    &&& tables_wf(adj, before)
    &&& before.path.len() == 0
    &&& tables_wf(adj, t)
    &&& grown(before, t)
    &&& 0 <= root < n
    &&& first < t.preorder.len()
    &&& t.preorder[first] == root
    &&& t.parent[root] == root
    &&& t.depth[root] == 0
    &&& forall|i: int| first <= i < t.preorder.len() ==> !entered(before, #[trigger] t.preorder[i] as int)
    &&& forall|i: int|
        first < i < t.preorder.len() ==> entered_through(
            adj,
            before,
            t,
            root,
            filter,
            #[trigger] t.preorder[i] as int,
        )
    &&& forall|i: int, j: int|
        first <= i < t.preorder.len() && 0 <= j < t.cursor[t.preorder[i] as int]
            ==> #[trigger] arc_seen(adj, t, root, filter, t.preorder[i] as int, j)
}

/// The tables after the visit has entered node `v`, through the next arc
/// of the top of the path or as a root.
pub open spec fn after_enter(t: Tables, v: int) -> Tables {
    let cursor = if t.path.len() > 0 {
        t.cursor.update(t.path.last() as int, (t.cursor[t.path.last() as int] + 1) as usize)
    } else {
        t.cursor
    };
    Tables {
        discovery: t.discovery.update(v, t.preorder.len() as usize),
        cursor: cursor.update(v, 0),
        parent: t.parent.update(
            v,
            if t.path.len() > 0 {
                t.path.last()
            } else {
                v as usize
            },
        ),
        depth: t.depth.update(v, t.path.len() as usize),
        preorder: t.preorder.push(v as usize),
        path: t.path.push(v as usize),
        ..t
    }
}

/// The tables after the visit has followed the next arc of the top of the
/// path without entering its target: `closes` says whether the target is
/// on the path.
pub open spec fn after_skip(t: Tables, closes: bool) -> Tables {
    let u = t.path.last() as int;
    Tables {
        cursor: t.cursor.update(u, (t.cursor[u] + 1) as usize),
        cycle_found: t.cycle_found || closes,
        ..t
    }
}

/// The tables after the visit has left the top of the path.
pub open spec fn after_leave(t: Tables) -> Tables {
    let u = t.path.last() as int;
    Tables {
        completion: t.completion.update(u, t.postorder.len() as usize),
        postorder: t.postorder.push(u as usize),
        path: t.path.drop_last(),
        ..t
    }
}

/// The path from a node on it to its top, with the arc from the top to
/// that node, is a closed walk.
proof fn lemma_path_cycle(adj: Seq<Seq<usize>>, t: Tables, k: int)
    requires
        tables_wf(adj, t),
        t.path.len() > 0,
        0 <= k < adj[t.path.last() as int].len(),
        on_path(t, adj[t.path.last() as int][k] as int),
    ensures
        !is_acyclic(adj),
{
    let top = t.path.len() - 1;
    let u = t.path.last() as int;
    let v = adj[u][k] as int;
    assert(t.path[top] < adj.len());
    assert(adj[u][k] < adj.len());
    assert(t.path.contains(v as usize));
    let i = choose|i: int| 0 <= i < t.path.len() && t.path[i] == v as usize;
    let c = Seq::new((top - i + 1) as nat, |x: int| t.path[i + x] as int);
    assert forall|x: int| 0 <= x < c.len() implies has_arc(adj, #[trigger] c[x], next_on(c, x)) by {
        let a = t.path[i + x] as int;
        assert(t.path[i + x] < adj.len());
        assert(on_path(t, t.path[i + x] as int));
        assert(entered(t, a));
        if x + 1 < c.len() {
            assert(adj[a][t.cursor[a] - 1] == t.path[i + x + 1]);
            assert(has_arc(adj, a, t.path[i + x + 1] as int));
        } else {
            assert(a == u);
            assert(has_arc(adj, u, v));
        }
    }
    assert(is_cycle(adj, c));
}


/// Entered nodes are at most as many as there are nodes.
pub proof fn lemma_order_short(order: Seq<usize>, place: Seq<usize>)
    requires
        is_order(order, place),
    ensures
        order.len() <= place.len(),
        order.no_duplicates(),
{
    assert forall|i: int, j: int| 0 <= i < order.len() && 0 <= j < order.len() && i != j implies order[i]
        != order[j] by {
        assert(place[order[i] as int] == i);
        assert(place[order[j] as int] == j);
    }
    lemma_distinct_below(order, place.len());
}

/// An order that lacks a node is shorter than the number of nodes.
proof fn lemma_one_more(order: Seq<usize>, place: Seq<usize>, v: int)
    requires
        is_order(order, place),
        0 <= v < place.len(),
        place.len() <= usize::MAX,
        place[v] == NONE,
    ensures
        order.len() < place.len(),
{
    let longer = order.push(v as usize);
    assert forall|i: int, j: int|
        0 <= i < longer.len() && 0 <= j < longer.len() && i != j implies longer[i] != longer[j] by {
        if i < order.len() {
            assert(place[order[i] as int] == i);
            assert(order[i] as int != v);
        }
        if j < order.len() {
            assert(place[order[j] as int] == j);
            assert(order[j] as int != v);
        }
    }
    assert forall|i: int| 0 <= i < longer.len() implies (#[trigger] longer[i]) < place.len() by {
        if i < order.len() {
            assert(order[i] < place.len());
        }
    }
    lemma_distinct_below(longer, place.len());
}

/// Entering the root of a visit starts the visit.
proof fn lemma_enter_root<F: Fn(Event) -> bool>(
    adj: Seq<Seq<usize>>,
    before: Tables,
    root: int,
    filter: &F,
)
    requires
        tables_wf(adj, before),
        before.path.len() == 0,
        0 <= root < adj.len(),
        !entered(before, root),
    ensures
        visit_inv(adj, before, after_enter(before, root), root, filter),
{
    let t = before;
    let s = after_enter(before, root);
    let n = adj.len();
    lemma_order_short(t.preorder, t.discovery);
    assert(forall|w: int| 0 <= w < n && w != root ==> entered(s, w) == entered(t, w) && left(s, w) == left(
        t,
        w,
    ));
    assert(!left(t, root));
    assert(s.preorder.subrange(0, t.preorder.len() as int) =~= t.preorder);
    assert(s.postorder.subrange(0, t.postorder.len() as int) =~= t.postorder);
    lemma_one_more(t.preorder, t.discovery, root);
    assert(tables_wf(adj, s)) by {
        assert forall|i: int| 0 <= i < s.preorder.len() implies (#[trigger] s.preorder[i]) < s.discovery.len()
            && s.discovery[s.preorder[i] as int] == i by {
            if i < t.preorder.len() {
                assert(t.discovery[t.preorder[i] as int] == i);
                assert(entered(t, t.preorder[i] as int));
            }
        }
        assert forall|v: int| 0 <= v < s.discovery.len()
            && (#[trigger] s.discovery[v]) != NONE implies s.discovery[v]
            < s.preorder.len() && s.preorder[s.discovery[v] as int] == v by {
            if v != root {
                assert(t.discovery[v] != NONE);
            }
        }
        assert forall|v: int| 0 <= v < n && #[trigger] left(s, v) implies entered(s, v) && s.cursor[v]
            == adj[v].len() by {
            assert(left(t, v));
        }
        assert forall|v: int| 0 <= v < n && #[trigger] entered(s, v) implies s.cursor[v] <= adj[v].len()
            && s.parent[v] < n && s.depth[v] < n by {
            if v != root {
                assert(entered(t, v));
            }
        }
        assert forall|v: int| 0 <= v < n && on_path(s, v) implies #[trigger] s.path.contains(v as usize) by {
            if v == root {
                assert(s.path[0] == v as usize);
            } else {
                assert(on_path(t, v));
                assert(t.path.contains(v as usize));
            }
        }
    }
    assert forall|i: int| t.preorder.len() <= i < s.preorder.len() implies !entered(
        t,
        #[trigger] s.preorder[i] as int,
    ) by {}
    assert forall|v: int| 0 <= v < t.discovery.len() && #[trigger] entered(t, v) implies s.discovery[v]
        == t.discovery[v] && s.completion[v] == t.completion[v] && s.parent[v] == t.parent[v]
        && s.depth[v] == t.depth[v] && s.cursor[v] == t.cursor[v] by {}
}

/// What the tables of a visit under way say of the top of the path.
pub proof fn lemma_top<F: Fn(Event) -> bool>(
    adj: Seq<Seq<usize>>,
    before: Tables,
    t: Tables,
    root: int,
    filter: &F,
)
    requires
        visit_inv(adj, before, t, root, filter),
        t.path.len() > 0,
    ensures
        t.path.last() < adj.len(),
        on_path(t, t.path.last() as int),
        !entered(before, t.path.last() as int),
        t.depth[t.path.last() as int] == t.path.len() - 1,
        t.cursor[t.path.last() as int] <= adj[t.path.last() as int].len(),
        t.discovery[t.path.last() as int] >= before.preorder.len(),
        t.preorder[t.discovery[t.path.last() as int] as int] == t.path.last(),
        t.preorder.len() <= adj.len(),
        t.postorder.len() <= adj.len(),
{
    let top = t.path.len() - 1;
    let u = t.path.last() as int;
    assert(t.path[top] < adj.len() && on_path(t, t.path[top] as int));
    assert(entered(t, u));
    lemma_order_short(t.preorder, t.discovery);
    lemma_order_short(t.postorder, t.completion);
    if entered(before, u) {
        // a node that was entered before the visit was left before it
        assert(!on_path(before, u)) by {
            if on_path(before, u) {
                assert(before.path.contains(u as usize));
            }
        }
        assert(left(before, u));
    }
    if t.discovery[u] < before.preorder.len() {
        assert(t.preorder.subrange(0, before.preorder.len() as int)[t.discovery[u] as int]
            == before.preorder[t.discovery[u] as int]);
        assert(before.discovery[before.preorder[t.discovery[u] as int] as int] == t.discovery[u]);
        assert(entered(before, u));
    }
}

/// Every node that the visit has entered stands in the order of entering
/// after the nodes that were entered before the visit.
pub proof fn lemma_new_node<F: Fn(Event) -> bool>(
    adj: Seq<Seq<usize>>,
    before: Tables,
    t: Tables,
    root: int,
    filter: &F,
    v: int,
)
    requires
        visit_inv(adj, before, t, root, filter),
        0 <= v < adj.len(),
        entered(t, v),
        !entered(before, v),
    ensures
        before.preorder.len() <= t.discovery[v] < t.preorder.len(),
        t.preorder[t.discovery[v] as int] == v,
{
    if t.discovery[v] < before.preorder.len() {
        assert(t.preorder.subrange(0, before.preorder.len() as int)[t.discovery[v] as int]
            == before.preorder[t.discovery[v] as int]);
        assert(before.discovery[before.preorder[t.discovery[v] as int] as int] == t.discovery[v]);
    }
}

/// A node that was entered before the visit was left before it, and the
/// visit has left its tables alone.
pub proof fn lemma_old_node<F: Fn(Event) -> bool>(
    adj: Seq<Seq<usize>>,
    before: Tables,
    t: Tables,
    root: int,
    filter: &F,
    v: int,
)
    requires
        visit_inv(adj, before, t, root, filter),
        0 <= v < adj.len(),
        entered(before, v),
    ensures
        left(before, v),
        left(t, v),
        entered(t, v),
        t.completion[v] == before.completion[v],
        t.completion[v] < before.postorder.len(),
        !t.path.contains(v as usize),
{
    if on_path(before, v) {
        assert(before.path.contains(v as usize));
    }
    if t.path.contains(v as usize) {
        let i = choose|i: int| 0 <= i < t.path.len() && t.path[i] == v as usize;
        assert(on_path(t, t.path[i] as int));
    }
}


/// Entering a node through the next arc of the top of the path keeps the
/// visit under way.
proof fn lemma_enter<F: Fn(Event) -> bool>(
    adj: Seq<Seq<usize>>,
    before: Tables,
    t: Tables,
    root: int,
    filter: &F,
    v: int,
)
    requires
        visit_inv(adj, before, t, root, filter),
        t.path.len() > 0,
        0 <= v < adj.len(),
        !entered(t, v),
        t.cursor[t.path.last() as int] < adj[t.path.last() as int].len(),
        adj[t.path.last() as int][t.cursor[t.path.last() as int] as int] == v,
        call_ensures(
            *filter,
            (entering(v, t.path.last() as int, root, t.depth[t.path.last() as int] + 1),),
            true,
        ),
    ensures
        visit_inv(adj, before, after_enter(t, v), root, filter),
{
    let s = after_enter(t, v);
    let n = adj.len();
    let top = t.path.len() - 1;
    let u = t.path.last() as int;
    let k = t.cursor[u] as int;
    let first = before.preorder.len() as int;
    lemma_top(adj, before, t, root, filter);
    lemma_one_more(t.preorder, t.discovery, v);
    assert(forall|w: int| 0 <= w < n && w != v ==> entered(s, w) == entered(t, w) && s.discovery[w]
        == t.discovery[w] && s.parent[w] == t.parent[w] && s.depth[w] == t.depth[w]);
    assert(forall|w: int| 0 <= w < n ==> left(s, w) == left(t, w) && s.completion[w] == t.completion[w]);
    assert(forall|w: int| 0 <= w < n && w != v && w != u ==> s.cursor[w] == t.cursor[w]);
    assert(!left(t, v));
    assert(u != v);
    assert(s.cursor[u] == k + 1);
    assert(s.preorder.subrange(0, first) =~= before.preorder) by {
        assert(t.preorder.subrange(0, first) == before.preorder);
        assert forall|i: int| 0 <= i < first implies s.preorder[i] == before.preorder[i] by {
            assert(t.preorder.subrange(0, first)[i] == t.preorder[i]);
        }
    }
    assert forall|i: int| 0 <= i < t.path.len() implies s.path[i] == t.path[i] && t.path[i] as int
        != v && on_path(s, t.path[i] as int) by {
        assert(on_path(t, t.path[i] as int));
    }
    assert forall|i: int| 0 <= i < top implies t.path[i] as int != u by {
        assert(t.discovery[t.path[i] as int] < t.discovery[t.path[top] as int]);
    }
    assert(tables_wf(adj, s)) by {
        assert forall|i: int| 0 <= i < s.preorder.len() implies (#[trigger] s.preorder[i]) < s.discovery.len()
            && s.discovery[s.preorder[i] as int] == i by {
            if i < t.preorder.len() {
                assert(t.discovery[t.preorder[i] as int] == i);
                assert(entered(t, t.preorder[i] as int));
            }
        }
        assert forall|w: int| 0 <= w < s.discovery.len()
            && (#[trigger] s.discovery[w]) != NONE implies s.discovery[w]
            < s.preorder.len() && s.preorder[s.discovery[w] as int] == w by {
            if w != v {
                assert(t.discovery[w] != NONE);
            }
        }
        assert forall|w: int| 0 <= w < n && #[trigger] left(s, w) implies entered(s, w) && s.cursor[w]
            == adj[w].len() by {
            assert(left(t, w));
        }
        assert forall|w: int| 0 <= w < n && #[trigger] entered(s, w) implies s.cursor[w] <= adj[w].len()
            && s.parent[w] < n && s.depth[w] < n by {
            if w != v {
                assert(entered(t, w));
            } else {
                lemma_path_short(adj, t);
                assert forall|i: int, j: int|
                    0 <= i < s.path.len() && 0 <= j < s.path.len() && i != j implies s.path[i]
                    != s.path[j] by {
                    if i < t.path.len() && j < t.path.len() {
                        assert(t.path[i] != t.path[j]);
                    }
                }
                assert forall|i: int| 0 <= i < s.path.len() implies (#[trigger] s.path[i]) < n by {
                    if i < t.path.len() {
                        assert(t.path[i] < n);
                    }
                }
                lemma_distinct_below(s.path, n);
            }
        }
        assert forall|i: int| 0 <= i < s.path.len() implies (#[trigger] s.path[i]) < n && on_path(
            s,
            s.path[i] as int,
        ) && s.depth[s.path[i] as int] == i by {
            if i < t.path.len() {
                assert(t.depth[t.path[i] as int] == i);
            }
        }
        assert forall|w: int| 0 <= w < n && on_path(s, w) implies #[trigger] s.path.contains(w as usize) by {
            if w == v {
                assert(s.path[s.path.len() - 1] == v as usize);
            } else {
                assert(on_path(t, w));
                assert(t.path.contains(w as usize));
                let i = choose|i: int| 0 <= i < t.path.len() && t.path[i] == w as usize;
                assert(s.path[i] == w as usize);
            }
        }
        assert forall|i: int, j: int| 0 <= i < j < s.path.len() implies s.discovery[#[trigger] s.path[i] as int]
            < s.discovery[#[trigger] s.path[j] as int] by {
            assert(entered(t, t.path[i] as int));
            if j < t.path.len() {
                assert(t.discovery[t.path[i] as int] < t.discovery[t.path[j] as int]);
            }
        }
        assert forall|i: int| 0 <= i && i + 1 < s.path.len() implies s.cursor[#[trigger] s.path[i] as int]
            >= 1 && adj[s.path[i] as int][s.cursor[s.path[i] as int] - 1] == s.path[i + 1] by {
            if i < top {
                assert(t.cursor[t.path[i] as int] >= 1 && adj[t.path[i] as int][t.cursor[t.path[i] as int]
                    - 1] == t.path[i + 1]);
            }
        }
    }
    assert(grown(before, s)) by {
        assert forall|w: int| 0 <= w < before.discovery.len()
            && #[trigger] entered(before, w) implies s.discovery[w]
            == before.discovery[w] && s.completion[w] == before.completion[w] && s.parent[w]
            == before.parent[w] && s.depth[w] == before.depth[w] && s.cursor[w] == before.cursor[w] by {
            lemma_old_node(adj, before, t, root, filter, w);
            assert(w != u);
        }
    }
    assert forall|i: int| first <= i < s.preorder.len() implies !entered(
        before,
        #[trigger] s.preorder[i] as int,
    ) by {
        if i < t.preorder.len() {
            assert(!entered(before, t.preorder[i] as int));
        } else {
            if entered(before, v) {
                assert(t.discovery[v] == before.discovery[v]);
            }
        }
    }
    assert forall|i: int| first < i < s.preorder.len() implies entered_through(
        adj,
        before,
        s,
        root,
        filter,
        #[trigger] s.preorder[i] as int,
    ) by {
        if i < t.preorder.len() {
            let w = t.preorder[i] as int;
            assert(entered_through(adj, before, t, root, filter, w));
            assert(t.discovery[t.preorder[i] as int] == i);
            assert(entered(t, w));
        } else {
            assert(has_arc(adj, u, v));
        }
    }
    assert forall|i: int, j: int|
        first <= i < s.preorder.len() && 0 <= j < s.cursor[s.preorder[i] as int] implies #[trigger] arc_seen(
        adj,
        s,
        root,
        filter,
        s.preorder[i] as int,
        j,
    ) by {
        if i < t.preorder.len() {
            let w = t.preorder[i] as int;
            assert(t.discovery[t.preorder[i] as int] == i);
            assert(entered(t, w));
            assert(adj[w][j] < n);
            if w == u && j == k {
                assert(s.path[top + 1] == v as usize);
            } else {
                assert(arc_seen(adj, t, root, filter, w, j));
                let x = adj[w][j] as int;
                if on_path(t, w) && t.depth[w] + 1 < t.path.len() && t.path[t.depth[w] + 1] == x {
                    assert(s.path[t.depth[w] + 1] == t.path[t.depth[w] + 1]);
                }
            }
        }
    }
}

/// The path is no longer than there are nodes.
proof fn lemma_path_short(adj: Seq<Seq<usize>>, t: Tables)
    requires
        tables_wf(adj, t),
    ensures
        t.path.len() <= adj.len(),
        t.path.no_duplicates(),
{
    assert forall|i: int, j: int| 0 <= i < t.path.len() && 0 <= j < t.path.len() && i != j implies t.path[i]
        != t.path[j] by {
        if i < j {
            assert(t.discovery[t.path[i] as int] < t.discovery[t.path[j] as int]);
        } else {
            assert(t.discovery[t.path[j] as int] < t.discovery[t.path[i] as int]);
        }
    }
    lemma_distinct_below(t.path, adj.len());
}

/// Following an arc without entering its target keeps the visit under way.
proof fn lemma_skip<F: Fn(Event) -> bool>(
    adj: Seq<Seq<usize>>,
    before: Tables,
    t: Tables,
    root: int,
    filter: &F,
    closes: bool,
)
    requires
        visit_inv(adj, before, t, root, filter),
        t.path.len() > 0,
        t.cursor[t.path.last() as int] < adj[t.path.last() as int].len(),
        ({
            let u = t.path.last() as int;
            let v = adj[u][t.cursor[u] as int] as int;
            ||| entered(t, v) && closes == on_path(t, v)
            ||| !closes && call_ensures(*filter, (entering(v, u, root, t.depth[u] + 1),), false)
        }),
    ensures
        visit_inv(adj, before, after_skip(t, closes), root, filter),
{
    let s = after_skip(t, closes);
    let n = adj.len();
    let top = t.path.len() - 1;
    let u = t.path.last() as int;
    let k = t.cursor[u] as int;
    let v = adj[u][k] as int;
    let first = before.preorder.len() as int;
    lemma_top(adj, before, t, root, filter);
    assert(adj[u][k] < n);
    assert(forall|w: int| 0 <= w < n ==> entered(s, w) == entered(t, w) && left(s, w) == left(t, w)
        && on_path(s, w) == on_path(t, w));
    assert(forall|w: int| 0 <= w < n && w != u ==> s.cursor[w] == t.cursor[w]);
    assert(s.cursor[u] == k + 1);
    assert forall|i: int| 0 <= i < top implies t.path[i] as int != u by {
        assert(t.discovery[t.path[i] as int] < t.discovery[t.path[top] as int]);
    }
    if closes {
        lemma_path_cycle(adj, t, k);
    }
    assert(tables_wf(adj, s)) by {
        assert forall|w: int| 0 <= w < n && #[trigger] left(s, w) implies entered(s, w) && s.cursor[w]
            == adj[w].len() by {
            assert(left(t, w));
        }
        assert forall|w: int| 0 <= w < n && #[trigger] entered(s, w) implies s.cursor[w] <= adj[w].len()
            && s.parent[w] < n && s.depth[w] < n by {
            assert(entered(t, w));
        }
        assert forall|i: int| 0 <= i && i + 1 < s.path.len() implies s.cursor[#[trigger] s.path[i] as int]
            >= 1 && adj[s.path[i] as int][s.cursor[s.path[i] as int] - 1] == s.path[i + 1] by {
            assert(t.cursor[t.path[i] as int] >= 1 && adj[t.path[i] as int][t.cursor[t.path[i] as int]
                - 1] == t.path[i + 1]);
        }
    }
    assert(grown(before, s)) by {
        assert forall|w: int| 0 <= w < before.discovery.len()
            && #[trigger] entered(before, w) implies s.discovery[w]
            == before.discovery[w] && s.completion[w] == before.completion[w] && s.parent[w]
            == before.parent[w] && s.depth[w] == before.depth[w] && s.cursor[w] == before.cursor[w] by {
            lemma_old_node(adj, before, t, root, filter, w);
        }
    }
    assert forall|i: int| first < i < s.preorder.len() implies entered_through(
        adj,
        before,
        s,
        root,
        filter,
        #[trigger] s.preorder[i] as int,
    ) by {
        assert(entered_through(adj, before, t, root, filter, t.preorder[i] as int));
    }
    assert forall|i: int, j: int|
        first <= i < s.preorder.len() && 0 <= j < s.cursor[s.preorder[i] as int] implies #[trigger] arc_seen(
        adj,
        s,
        root,
        filter,
        s.preorder[i] as int,
        j,
    ) by {
        let w = t.preorder[i] as int;
        assert(t.discovery[t.preorder[i] as int] == i);
        assert(entered(t, w));
        if w == u && j == k {
            if closes {
                assert(t.path.contains(v as usize));
                let x = choose|x: int| 0 <= x < t.path.len() && t.path[x] == v as usize;
                if x < top {
                    assert(t.discovery[t.path[x] as int] < t.discovery[t.path[top] as int]);
                }
                assert(encloses(s, v, u));
            }
        } else {
            assert(arc_seen(adj, t, root, filter, w, j));
        }
    }
}

/// Leaving the top of the path keeps the visit under way.
proof fn lemma_leave<F: Fn(Event) -> bool>(
    adj: Seq<Seq<usize>>,
    before: Tables,
    t: Tables,
    root: int,
    filter: &F,
)
    requires
        visit_inv(adj, before, t, root, filter),
        t.path.len() > 0,
        t.cursor[t.path.last() as int] == adj[t.path.last() as int].len(),
    ensures
        visit_inv(adj, before, after_leave(t), root, filter),
{
    let s = after_leave(t);
    let n = adj.len();
    let top = t.path.len() - 1;
    let u = t.path.last() as int;
    let first = before.preorder.len() as int;
    let last = before.postorder.len() as int;
    lemma_top(adj, before, t, root, filter);
    lemma_one_more(t.postorder, t.completion, u);
    assert(forall|w: int| 0 <= w < n ==> entered(s, w) == entered(t, w));
    assert(forall|w: int| 0 <= w < n && w != u ==> left(s, w) == left(t, w) && s.completion[w]
        == t.completion[w]);
    assert(left(s, u));
    assert forall|i: int| 0 <= i < top implies t.path[i] as int != u && s.path[i] == t.path[i] by {
        assert(t.discovery[t.path[i] as int] < t.discovery[t.path[top] as int]);
    }
    assert(s.postorder.subrange(0, last) =~= before.postorder) by {
        assert(t.postorder.subrange(0, last) == before.postorder);
        assert forall|i: int| 0 <= i < last implies s.postorder[i] == before.postorder[i] by {
            assert(t.postorder.subrange(0, last)[i] == t.postorder[i]);
        }
    }
    // a node that is entered and not on the path is left
    assert forall|w: int| 0 <= w < n && entered(t, w) && !t.path.contains(w as usize) implies left(
        t,
        w,
    ) by {
        if on_path(t, w) {
            assert(t.path.contains(w as usize));
        }
    }
    assert(tables_wf(adj, s)) by {
        assert forall|i: int| 0 <= i < s.postorder.len() implies (#[trigger] s.postorder[i])
            < s.completion.len() && s.completion[s.postorder[i] as int] == i by {
            if i < t.postorder.len() {
                assert(t.completion[t.postorder[i] as int] == i);
                assert(left(t, t.postorder[i] as int));
            }
        }
        assert forall|w: int| 0 <= w < s.completion.len()
            && (#[trigger] s.completion[w]) != NONE implies s.completion[w]
            < s.postorder.len() && s.postorder[s.completion[w] as int] == w by {
            if w != u {
                assert(t.completion[w] != NONE);
            }
        }
        assert forall|w: int| 0 <= w < n && #[trigger] left(s, w) implies entered(s, w) && s.cursor[w]
            == adj[w].len() by {
            if w != u {
                assert(left(t, w));
            }
        }
        assert forall|w: int| 0 <= w < n && #[trigger] entered(s, w) implies s.cursor[w] <= adj[w].len()
            && s.parent[w] < n && s.depth[w] < n by {
            assert(entered(t, w));
        }
        assert forall|i: int| 0 <= i < s.path.len() implies (#[trigger] s.path[i]) < n && on_path(
            s,
            s.path[i] as int,
        ) && s.depth[s.path[i] as int] == i by {
            assert(on_path(t, t.path[i] as int) && t.depth[t.path[i] as int] == i);
        }
        assert forall|w: int| 0 <= w < n && on_path(s, w) implies #[trigger] s.path.contains(w as usize) by {
            assert(on_path(t, w));
            assert(t.path.contains(w as usize));
            let i = choose|i: int| 0 <= i < t.path.len() && t.path[i] == w as usize;
            assert(s.path[i] == w as usize);
        }
        assert forall|i: int, j: int| 0 <= i < j < s.path.len() implies s.discovery[#[trigger] s.path[i] as int]
            < s.discovery[#[trigger] s.path[j] as int] by {
            assert(t.discovery[t.path[i] as int] < t.discovery[t.path[j] as int]);
        }
        assert forall|i: int| 0 <= i && i + 1 < s.path.len() implies s.cursor[#[trigger] s.path[i] as int]
            >= 1 && adj[s.path[i] as int][s.cursor[s.path[i] as int] - 1] == s.path[i + 1] by {
            assert(t.cursor[t.path[i] as int] >= 1 && adj[t.path[i] as int][t.cursor[t.path[i] as int]
                - 1] == t.path[i + 1]);
        }
    }
    assert(grown(before, s)) by {
        assert forall|w: int| 0 <= w < before.discovery.len()
            && #[trigger] entered(before, w) implies s.discovery[w]
            == before.discovery[w] && s.completion[w] == before.completion[w] && s.parent[w]
            == before.parent[w] && s.depth[w] == before.depth[w] && s.cursor[w] == before.cursor[w] by {
            lemma_old_node(adj, before, t, root, filter, w);
        }
    }
    assert forall|i: int| first < i < s.preorder.len() implies entered_through(
        adj,
        before,
        s,
        root,
        filter,
        #[trigger] s.preorder[i] as int,
    ) by {
        let w = t.preorder[i] as int;
        assert(entered_through(adj, before, t, root, filter, w));
        assert(t.discovery[t.preorder[i] as int] == i);
        assert(entered(t, w));
        let p = t.parent[w] as int;
        if p == u {
            // a child of the node that is left is not on the path
            if t.path.contains(w as usize) {
                let x = choose|x: int| 0 <= x < t.path.len() && t.path[x] == w as usize;
                assert(t.depth[t.path[x] as int] == x);
            }
            assert(left(t, w));
            assert(t.completion[w] < t.postorder.len());
        } else {
            if w == u {
                assert(!left(t, p));
            }
        }
    }
    assert forall|i: int, j: int|
        first <= i < s.preorder.len() && 0 <= j < s.cursor[s.preorder[i] as int] implies #[trigger] arc_seen(
        adj,
        s,
        root,
        filter,
        s.preorder[i] as int,
        j,
    ) by {
        let w = t.preorder[i] as int;
        assert(t.discovery[t.preorder[i] as int] == i);
        assert(entered(t, w));
        assert(arc_seen(adj, t, root, filter, w, j));
        let x = adj[w][j] as int;
        assert(adj[w][j] < n);
        if entered(t, x) {
            if left(t, x) {
                assert(t.completion[x] < t.postorder.len());
            }
            if on_path(t, w) && t.depth[w] + 1 < t.path.len() && t.path[t.depth[w] + 1] == x {
                if x != u {
                    assert(t.depth[w] + 1 < top);
                    assert(s.path[t.depth[w] + 1] == t.path[t.depth[w] + 1]);
                    assert(w != u);
                }
            }
        }
    }
}

/// The arcs that the visit has still to follow from the nodes of the path,
/// and one for every node of the path.
pub open spec fn work_left(adj: Seq<Seq<usize>>, path: Seq<usize>, cursor: Seq<usize>) -> int
    decreases path.len(),
{
    if path.len() == 0 {
        0
    } else {
        work_left(adj, path.drop_last(), cursor) + adj[path.last() as int].len()
            - cursor[path.last() as int] + 1
    }
}

/// The work that is left on a path depends on the cursors of its nodes
/// alone.
pub proof fn lemma_work_left_frame(
    adj: Seq<Seq<usize>>,
    path: Seq<usize>,
    a: Seq<usize>,
    b: Seq<usize>,
)
    requires
        forall|i: int| 0 <= i < path.len() ==> a[#[trigger] path[i] as int] == b[path[i] as int],
    ensures
        work_left(adj, path, a) == work_left(adj, path, b),
    decreases path.len(),
{
    if path.len() > 0 {
        assert(path[path.len() - 1] == path.last());
        assert forall|i: int| 0 <= i < path.drop_last().len() implies a[
        #[trigger] path.drop_last()[i] as int] == b[path.drop_last()[i] as int] by {
            assert(path.drop_last()[i] == path[i]);
        }
        lemma_work_left_frame(adj, path.drop_last(), a, b);
    }
}


/// The work left on a path is not negative.
pub proof fn lemma_work_left_positive(adj: Seq<Seq<usize>>, path: Seq<usize>, cursor: Seq<usize>)
    requires
        forall|i: int|
            0 <= i < path.len() ==> cursor[#[trigger] path[i] as int] <= adj[path[i] as int].len(),
    ensures
        work_left(adj, path, cursor) >= path.len(),
    decreases path.len(),
{
    if path.len() > 0 {
        assert(path[path.len() - 1] == path.last());
        assert forall|i: int| 0 <= i < path.drop_last().len() implies cursor[
        #[trigger] path.drop_last()[i] as int] <= adj[path.drop_last()[i] as int].len() by {
            assert(path.drop_last()[i] == path[i]);
        }
        lemma_work_left_positive(adj, path.drop_last(), cursor);
    }
}

/// One arc more followed from the top of a path of distinct nodes is one
/// unit of work less.
pub proof fn lemma_work_left_bump(adj: Seq<Seq<usize>>, path: Seq<usize>, cursor: Seq<usize>)
    requires
        path.len() > 0,
        path.no_duplicates(),
        forall|i: int| 0 <= i < path.len() ==> (#[trigger] path[i]) < cursor.len(),
        cursor[path.last() as int] < usize::MAX,
    ensures
        work_left(
            adj,
            path,
            cursor.update(path.last() as int, (cursor[path.last() as int] + 1) as usize),
        ) == work_left(adj, path, cursor) - 1,
{
    let top = path.len() - 1;
    let u = path.last() as int;
    let bumped = cursor.update(u, (cursor[u] + 1) as usize);
    assert(path[top] == path.last());
    assert forall|i: int| 0 <= i < path.drop_last().len() implies bumped[
    #[trigger] path.drop_last()[i] as int] == cursor[path.drop_last()[i] as int] by {
        assert(path.drop_last()[i] == path[i]);
        assert(path[i] != path[top]);
    }
    lemma_work_left_frame(adj, path.drop_last(), bumped, cursor);
    assert(work_left(adj, path, bumped) == work_left(adj, path.drop_last(), bumped) + adj[u].len()
        - bumped[u] + 1);
    assert(work_left(adj, path, cursor) == work_left(adj, path.drop_last(), cursor) + adj[u].len()
        - cursor[u] + 1);
}

/// Where a node is not entered, the path is shorter than the number of
/// nodes.
pub proof fn lemma_room(adj: Seq<Seq<usize>>, t: Tables, v: int)
    requires
        tables_wf(adj, t),
        0 <= v < adj.len(),
        !entered(t, v),
    ensures
        t.path.len() < adj.len(),
{
    let longer = t.path.push(v as usize);
    lemma_path_short(adj, t);
    assert forall|i: int, j: int|
        0 <= i < longer.len() && 0 <= j < longer.len() && i != j implies longer[i] != longer[j] by {
        if i < t.path.len() && j < t.path.len() {
            assert(t.path[i] != t.path[j]);
        }
        if i < t.path.len() {
            assert(on_path(t, t.path[i] as int));
        }
        if j < t.path.len() {
            assert(on_path(t, t.path[j] as int));
        }
    }
    assert forall|i: int| 0 <= i < longer.len() implies (#[trigger] longer[i]) < adj.len() by {
        if i < t.path.len() {
            assert(t.path[i] < adj.len());
        }
    }
    lemma_distinct_below(longer, adj.len());
}

/// The tables of a visit that has entered no node of a graph with `n`
/// nodes.
pub open spec fn fresh(n: nat) -> Tables {
    Tables {
        discovery: Seq::new(n, |i: int| NONE),
        completion: Seq::new(n, |i: int| NONE),
        cursor: Seq::new(n, |i: int| 0usize),
        parent: Seq::new(n, |i: int| 0usize),
        depth: Seq::new(n, |i: int| 0usize),
        preorder: Seq::empty(),
        postorder: Seq::empty(),
        path: Seq::empty(),
        cycle_found: false,
    }
}

/// The visit from `root` on the tables `before` has come to its end with
/// the tables `t`. Where the root was entered before, or the filter turned
/// it down, nothing has changed. Otherwise the root was entered, every
/// node entered since was entered through an arc from its parent and is
/// left, and every arc of such a node was followed.
pub open spec fn visit_done<F: Fn(Event) -> bool>(
    adj: Seq<Seq<usize>>,
    before: Tables,
    t: Tables,
    root: int,
    filter: &F,
) -> bool {
    ||| entered(before, root) && t == before
    ||| !entered(before, root) && call_ensures(*filter, (entering(root, root, root, 0),), false) && t
        == before
    ||| !entered(before, root) && visit_inv(adj, before, t, root, filter) && t.path.len() == 0
}

/// The callback asked for the visit to stop; where it did so on a back
/// edge, the tables record a cycle.
pub open spec fn stopped_at<C: Fn(Event) -> bool>(callback: &C, t: Tables, n: nat) -> bool {
    exists|e: Event|
        event_in_range(e, n) && #[trigger] call_ensures(*callback, (e,), false) && (is_back_edge(e)
            ==> t.cycle_found)
}

/// A back edge came up and the visit went on: the filter kept it from the
/// callback, or the callback did not ask for a stop.
pub open spec fn back_edge_passed<C: Fn(Event) -> bool, F: Fn(Event) -> bool>(
    callback: &C,
    filter: &F,
) -> bool {
    exists|e: Event| #[trigger]
        is_back_edge(e) && (call_ensures(*filter, (e,), false) || call_ensures(
            *callback,
            (e,),
            true,
        ))
}

/// A sequential depth-first visit of a graph.
pub struct SingleThreadedDepthFirstVisit<'a> {
    graph: &'a Graph,
    three_states: bool,
    discovery: Vec<usize>,
    completion: Vec<usize>,
    cursor: Vec<usize>,
    parent: Vec<usize>,
    depth: Vec<usize>,
    preorder: Vec<usize>,
    postorder: Vec<usize>,
    path: Vec<usize>,
    cycle_found: bool,
}

impl<'a> SingleThreadedDepthFirstVisit<'a> {
    /// What the visit keeps of every node.
    pub closed spec fn tables(&self) -> Tables {
        Tables {
            discovery: self.discovery@,
            completion: self.completion@,
            cursor: self.cursor@,
            parent: self.parent@,
            depth: self.depth@,
            preorder: self.preorder@,
            postorder: self.postorder@,
            path: self.path@,
            cycle_found: self.cycle_found,
        }
    }

    /// The successors of every node of the graph.
    pub closed spec fn adjacency(&self) -> Seq<Seq<usize>> {
        self.graph@
    }

    /// Whether the visit tells back edges from other arcs to nodes entered
    /// before.
    pub closed spec fn spec_three_states(&self) -> bool {
        self.three_states
    }

    /// The invariant of the visit.
    pub closed spec fn wf(&self) -> bool {
        &&& self.graph.wf()
        &&& tables_wf(self.graph@, self.tables())
        &&& nesting_ok(self.graph@, self.tables())
    }

    /// No node is entered and not left: no visit was stopped on the way.
    pub open spec fn idle(&self) -> bool {
        self.tables().path.len() == 0
    }

    /// What the invariant says.
    pub proof fn lemma_wf(&self)
        requires
            self.wf(),
        ensures
            tables_wf(self.adjacency(), self.tables()),
            nesting_ok(self.adjacency(), self.tables()),
            self.adjacency().len() < usize::MAX,
            self.tables().cycle_found ==> !is_acyclic(self.adjacency()),
    {
    }

    /// A visit of `graph` with three states, which has entered no node.
    pub fn new(graph: &'a Graph) -> (visit: Self)
        requires
            graph.wf(),
        ensures
            visit.wf(),
            visit.adjacency() == graph@,
            visit.spec_three_states(),
            visit.tables() == fresh(graph@.len()),
    {
        Self::with_states(graph, true)
    }

    /// A visit of `graph` with two states, which has entered no node.
    pub fn with_two_states(graph: &'a Graph) -> (visit: Self)
        requires
            graph.wf(),
        ensures
            visit.wf(),
            visit.adjacency() == graph@,
            !visit.spec_three_states(),
            visit.tables() == fresh(graph@.len()),
    {
        Self::with_states(graph, false)
    }

    fn with_states(graph: &'a Graph, three_states: bool) -> (visit: Self)
        requires
            graph.wf(),
        ensures
            visit.wf(),
            visit.adjacency() == graph@,
            visit.spec_three_states() == three_states,
            visit.tables() == fresh(graph@.len()),
    {
        let n: usize = graph.num_nodes();
        let visit = SingleThreadedDepthFirstVisit {
            graph,
            three_states,
            discovery: vec![NONE; n],
            completion: vec![NONE; n],
            cursor: vec![0usize; n],
            parent: vec![0usize; n],
            depth: vec![0usize; n],
            preorder: Vec::new(),
            postorder: Vec::new(),
            path: Vec::new(),
            cycle_found: false,
        };
        proof {
            graph.lemma_wf();
            assert forall|u: int| 0 <= u < graph@.len() implies (#[trigger] graph@[u]).len()
                <= usize::MAX by {
                lemma_outdegree_le_arcs(graph@, u);
            }
            lemma_fresh(graph@);
            lemma_nesting_fresh(graph@);
            let t = visit.tables();
            let f = fresh(graph@.len());
            assert(t.discovery =~= f.discovery);
            assert(t.completion =~= f.completion);
            assert(t.cursor =~= f.cursor);
            assert(t.parent =~= f.parent);
            assert(t.depth =~= f.depth);
            assert(t.preorder =~= f.preorder);
            assert(t.postorder =~= f.postorder);
            assert(t.path =~= f.path);
        }
        visit
    }

    /// Forgets every node that was entered.
    pub fn reset(&mut self)
        requires
            old(self).wf(),
        ensures
            final(self).wf(),
            final(self).adjacency() == old(self).adjacency(),
            final(self).spec_three_states() == old(self).spec_three_states(),
            final(self).tables() == fresh(old(self).adjacency().len()),
    {
        let fresh_visit = Self::with_states(self.graph, self.three_states);
        *self = fresh_visit;
    }

    /// The number of nodes of the graph.
    pub fn num_nodes(&self) -> (n: usize)
        requires
            self.wf(),
        ensures
            n == self.adjacency().len(),
    {
        self.graph.num_nodes()
    }

    /// Whether the visit tells back edges from other arcs to nodes entered
    /// before.
    pub fn three_states(&self) -> (three: bool)
        ensures
            three == self.spec_three_states(),
    {
        self.three_states
    }

    /// Whether `node` was entered.
    pub fn is_entered(&self, node: usize) -> (known: bool)
        requires
            self.wf(),
            node < self.adjacency().len(),
        ensures
            known == entered(self.tables(), node as int),
    {
        self.discovery[node] != NONE
    }

    /// Whether `node` was left.
    pub fn is_left(&self, node: usize) -> (done: bool)
        requires
            self.wf(),
            node < self.adjacency().len(),
        ensures
            done == left(self.tables(), node as int),
    {
        self.completion[node] != NONE
    }

    /// The node through which `node` was entered, which is `node` itself
    /// for a root; `None` where it was not entered.
    pub fn parent(&self, node: usize) -> (parent: Option<usize>)
        requires
            self.wf(),
            node < self.adjacency().len(),
        ensures
            parent == if entered(self.tables(), node as int) {
                Some(self.tables().parent[node as int])
            } else {
                None
            },
    {
        if self.discovery[node] != NONE {
            Some(self.parent[node])
        } else {
            None
        }
    }

    /// The number of arcs between the root of its visit and `node`;
    /// `None` where it was not entered.
    pub fn depth(&self, node: usize) -> (depth: Option<usize>)
        requires
            self.wf(),
            node < self.adjacency().len(),
        ensures
            depth == if entered(self.tables(), node as int) {
                Some(self.tables().depth[node as int])
            } else {
                None
            },
    {
        if self.discovery[node] != NONE {
            Some(self.depth[node])
        } else {
            None
        }
    }

    /// The nodes in the order in which they were entered.
    pub fn preorder(&self) -> (order: &Vec<usize>)
        ensures
            order@ == self.tables().preorder,
    {
        &self.preorder
    }

    /// The nodes in the order in which they were left.
    pub fn postorder(&self) -> (order: &Vec<usize>)
        ensures
            order@ == self.tables().postorder,
    {
        &self.postorder
    }

    /// Whether the visit has followed an arc to a node that it had entered
    /// and not left; such an arc closes a cycle.
    pub fn cycle_found(&self) -> (found: bool)
        ensures
            found == self.tables().cycle_found,
    {
        self.cycle_found
    }

    /// Enters `v`, through the next arc of the top of the path or as a
    /// root.
    fn enter(&mut self, v: usize)
        requires
            tables_wf(old(self).graph@, old(self).tables()),
            v < old(self).graph@.len(),
            !entered(old(self).tables(), v as int),
            old(self).path@.len() > 0 ==> old(self).cursor@[old(self).path@.last() as int]
                < usize::MAX,
        ensures
            final(self).tables() == after_enter(old(self).tables(), v as int),
            final(self).graph == old(self).graph,
            final(self).three_states == old(self).three_states,
    {
        let ghost t = self.tables();
        proof {
            lemma_room(self.graph@, t, v as int);
        }
        let place: usize = self.preorder.len();
        let depth: usize = self.path.len();
        let mut parent: usize = v;
        if depth > 0 {
            let u: usize = self.path[depth - 1];
            assert(t.path[depth - 1] < self.graph@.len());
            let k: usize = self.cursor[u];
            self.cursor.set(u, k + 1);
            parent = u;
        }
        self.discovery.set(v, place);
        self.cursor.set(v, 0);
        self.parent.set(v, parent);
        self.depth.set(v, depth);
        self.preorder.push(v);
        self.path.push(v);
        proof {
            let s = after_enter(t, v as int);
            let now = self.tables();
            assert(now.discovery =~= s.discovery);
            assert(now.completion =~= s.completion);
            assert(now.cursor =~= s.cursor);
            assert(now.parent =~= s.parent);
            assert(now.depth =~= s.depth);
            assert(now.preorder =~= s.preorder);
            assert(now.postorder =~= s.postorder);
            assert(now.path =~= s.path);
        }
    }

    /// Follows the next arc of the top of the path without entering its
    /// target.
    fn skip(&mut self, closes: bool)
        requires
            tables_wf(old(self).graph@, old(self).tables()),
            old(self).path@.len() > 0,
            old(self).cursor@[old(self).path@.last() as int] < usize::MAX,
        ensures
            final(self).tables() == after_skip(old(self).tables(), closes),
            final(self).graph == old(self).graph,
            final(self).three_states == old(self).three_states,
    {
        let ghost t = self.tables();
        let u: usize = self.path[self.path.len() - 1];
        assert(t.path[t.path.len() - 1] < self.graph@.len());
        let k: usize = self.cursor[u];
        self.cursor.set(u, k + 1);
        if closes {
            self.cycle_found = true;
        }
        proof {
            let s = after_skip(t, closes);
            let now = self.tables();
            assert(now.cursor =~= s.cursor);
        }
    }

    /// Leaves the top of the path.
    fn leave(&mut self)
        requires
            tables_wf(old(self).graph@, old(self).tables()),
            old(self).path@.len() > 0,
        ensures
            final(self).tables() == after_leave(old(self).tables()),
            final(self).graph == old(self).graph,
            final(self).three_states == old(self).three_states,
    {
        let ghost t = self.tables();
        let u: usize = self.path[self.path.len() - 1];
        assert(t.path[t.path.len() - 1] < self.graph@.len());
        let place: usize = self.postorder.len();
        self.completion.set(u, place);
        self.postorder.push(u);
        let _ = self.path.pop();
        proof {
            let s = after_leave(t);
            let now = self.tables();
            assert(now.completion =~= s.completion);
            assert(now.postorder =~= s.postorder);
            assert(now.path =~= s.path);
        }
    }
}

/// The tables of a visit that has entered no node are in order.
pub proof fn lemma_fresh(adj: Seq<Seq<usize>>)
    requires
        successors_in_range(adj),
        adj.len() < usize::MAX,
        forall|u: int| 0 <= u < adj.len() ==> (#[trigger] adj[u]).len() <= usize::MAX,
    ensures
        tables_wf(adj, fresh(adj.len())),
{
}

impl<'a> SingleThreadedDepthFirstVisit<'a> {
    /// Visits from `root` what can be reached from it through nodes that
    /// were not entered before, and returns whether the visit came to its
    /// end: `false` says that the callback asked for a stop.
    ///
    /// Nothing happens where the root was entered before or the filter
    /// turns it down. Otherwise the callback is told of the start and of
    /// the entering of the root. Then the visit follows the next arc of
    /// the last node that it has entered and not left: where the target was
    /// entered before, the filter is asked whether the callback is to be
    /// told; where it was not, the filter is asked whether it is to be
    /// entered, and the callback is told where it is. A node whose arcs
    /// are all followed is left, and the callback is told.
    pub fn visit_from_node<C: Fn(Event) -> bool, F: Fn(Event) -> bool>(
        &mut self,
        root: usize,
        callback: &C,
        filter: &F,
    ) -> (completed: bool)
        requires
            old(self).wf(),
            old(self).idle(),
            root < old(self).adjacency().len(),
            forall|e: Event|
                event_in_range(e, old(self).adjacency().len()) ==> #[trigger] call_requires(
                    *callback,
                    (e,),
                ),
            forall|e: Event|
                event_in_range(e, old(self).adjacency().len()) ==> #[trigger] call_requires(
                    *filter,
                    (e,),
                ),
        ensures
            final(self).wf(),
            final(self).adjacency() == old(self).adjacency(),
            final(self).spec_three_states() == old(self).spec_three_states(),
            grown(old(self).tables(), final(self).tables()),
            completed ==> visit_done(
                old(self).adjacency(),
                old(self).tables(),
                final(self).tables(),
                root as int,
                filter,
            ),
            completed ==> visits_told(
                old(self).tables(),
                final(self).tables(),
                root as int,
                callback,
            ),
            !completed ==> stopped_at(callback, final(self).tables(), old(self).adjacency().len()),
            completed && final(self).tables().cycle_found && !old(self).tables().cycle_found
                && old(self).spec_three_states() ==> back_edge_passed(callback, filter),
    {
        let ghost before = self.tables();
        let ghost adj = self.graph@;
        let graph: &Graph = self.graph;
        let three: bool = self.three_states;
        let n: usize = graph.num_nodes();
        proof {
            graph.lemma_wf();
            assert(before.preorder.subrange(0, before.preorder.len() as int) =~= before.preorder);
            assert(before.postorder.subrange(0, before.postorder.len() as int)
                =~= before.postorder);
        }
        if self.discovery[root] != NONE {
            return true;
        }
        let asked = Event::Previsit { curr: root, parent: root, root, depth: 0 };
        if !filter(asked) {
            return true;
        }
        let start = Event::Init { root };
        if !callback(start) {
            assert(event_in_range(start, n as nat) && call_ensures(*callback, (start,), false));
            return false;
        }
        proof {
            lemma_enter_root(adj, before, root as int, filter);
            lemma_nesting_enter(adj, before, root as int);
        }
        self.enter(root);
        if !callback(asked) {
            assert(event_in_range(asked, n as nat) && call_ensures(*callback, (asked,), false));
            return false;
        }
        proof {
            let now = self.tables();
            assert forall|w: int|
                0 <= w < now.discovery.len() && entered(now, w) && !entered(
                    before,
                    w,
                ) implies #[trigger] told_in(now, w, root as int, callback) by {
                assert(w == root);
                assert(!left(before, w));
                assert(entering_of(now, w, root as int) == asked);
            }
        }
        loop
            invariant
                graph.wf(),
                graph@ == adj,
                self.graph == graph,
                n == adj.len(),
                root < n,
                self.three_states == three,
                before == old(self).tables(),
                adj == old(self).adjacency(),
                three == old(self).spec_three_states(),
                visit_inv(adj, before, self.tables(), root as int, filter),
                visits_told(before, self.tables(), root as int, callback),
                nesting_ok(adj, self.tables()),
                self.cycle_found && !before.cycle_found && three ==> back_edge_passed(
                    callback,
                    filter,
                ),
                forall|e: Event| event_in_range(e, n as nat) ==> #[trigger] call_requires(*callback, (e,)),
                forall|e: Event| event_in_range(e, n as nat) ==> #[trigger] call_requires(*filter, (e,)),
            decreases n - self.preorder@.len(), work_left(adj, self.path@, self.cursor@),
        {
            let ghost t = self.tables();
            if self.path.len() == 0 {
                return true;
            }
            proof {
                lemma_top(adj, before, t, root as int, filter);
                lemma_path_short(adj, t);
                assert forall|i: int| 0 <= i < t.path.len() implies t.cursor[#[trigger] t.path[i] as int]
                    <= adj[t.path[i] as int].len() by {
                    assert(on_path(t, t.path[i] as int));
                    assert(entered(t, t.path[i] as int));
                }
                lemma_work_left_positive(adj, t.path, t.cursor);
            }
            let below: usize = self.path.len();
            let u: usize = self.path[below - 1];
            let k: usize = self.cursor[u];
            let successors: &Vec<usize> = graph.successors(u);
            if k < successors.len() {
                let v: usize = successors[k];
                assert(v < n) by {
                    assert(adj[u as int][k as int] < adj.len());
                }
                if self.discovery[v] != NONE {
                    let on: bool = self.completion[v] == NONE;
                    let e = Event::Revisit {
                        curr: v,
                        parent: u,
                        root,
                        depth: below,
                        back_edge: three && on,
                    };
                    proof {
                        lemma_skip(adj, before, t, root as int, filter, on);
                        lemma_nesting_skip(adj, t, on);
                        lemma_work_left_bump(adj, t.path, t.cursor);
                    }
                    self.skip(on);
                    proof {
                        lemma_told_kept(before, t, self.tables(), root as int, callback);
                    }
                    if filter(e) {
                        if !callback(e) {
                            assert(event_in_range(e, n as nat) && call_ensures(*callback, (e,), false));
                            return false;
                        }
                    }
                    assert(is_back_edge(e) ==> back_edge_passed(callback, filter));
                } else {
                    let e = Event::Previsit { curr: v, parent: u, root, depth: below };
                    proof {
                        lemma_room(adj, t, v as int);
                    }
                    if filter(e) {
                        proof {
                            assert(e == entering(v as int, u as int, root as int, t.depth[u as int] + 1));
                            lemma_enter(adj, before, t, root as int, filter, v as int);
                            assert(has_arc(adj, u as int, v as int));
                            lemma_nesting_enter(adj, t, v as int);
                            lemma_order_short(
                                after_enter(t, v as int).preorder,
                                after_enter(t, v as int).discovery,
                            );
                        }
                        self.enter(v);
                        if !callback(e) {
                            assert(event_in_range(e, n as nat) && call_ensures(*callback, (e,), false));
                            return false;
                        }
                        proof {
                            let now = self.tables();
                            assert(told_in(t, u as int, root as int, callback));
                            assert forall|w: int|
                                0 <= w < now.discovery.len() && entered(now, w) && !entered(
                                    before,
                                    w,
                                ) implies #[trigger] told_in(now, w, root as int, callback) by {
                                if w == v {
                                    assert(!left(t, w));
                                    assert(entering_of(now, w, root as int) == e);
                                } else {
                                    assert(told_in(t, w, root as int, callback));
                                    assert(entering_of(now, w, root as int) == entering_of(
                                        t,
                                        w,
                                        root as int,
                                    ));
                                    assert(leaving_of(now, w, root as int) == leaving_of(
                                        t,
                                        w,
                                        root as int,
                                    ));
                                }
                            }
                        }
                    } else {
                        proof {
                            assert(e == entering(v as int, u as int, root as int, t.depth[u as int] + 1));
                            lemma_skip(adj, before, t, root as int, filter, false);
                            lemma_nesting_skip(adj, t, false);
                            lemma_work_left_bump(adj, t.path, t.cursor);
                        }
                        self.skip(false);
                        proof {
                            lemma_told_kept(before, t, self.tables(), root as int, callback);
                        }
                    }
                }
            } else {
                let above: usize = self.parent[u];
                let e = Event::Completed { curr: u, parent: above, root, depth: below - 1 };
                proof {
                    assert(entered(t, u as int));
                    lemma_leave(adj, before, t, root as int, filter);
                    lemma_nesting_leave(adj, t);
                    assert(t.path[t.path.len() - 1] == t.path.last());
                    assert(work_left(adj, t.path, t.cursor) == work_left(
                        adj,
                        t.path.drop_last(),
                        t.cursor,
                    ) + adj[u as int].len() - t.cursor[u as int] + 1);
                }
                self.leave();
                if !callback(e) {
                    assert(event_in_range(e, n as nat) && call_ensures(*callback, (e,), false));
                    return false;
                }
                proof {
                    let now = self.tables();
                    assert forall|w: int|
                        0 <= w < now.discovery.len() && entered(now, w) && !entered(
                            before,
                            w,
                        ) implies #[trigger] told_in(now, w, root as int, callback) by {
                        assert(told_in(t, w, root as int, callback));
                        assert(entering_of(now, w, root as int) == entering_of(t, w, root as int));
                        assert(leaving_of(now, w, root as int) == leaving_of(t, w, root as int));
                        if w == u {
                            assert(leaving_of(now, w, root as int) == e);
                        }
                    }
                }
            }
        }
    }
}

/// Tables that differ only in what no event tells of keep what the
/// callback was told.
proof fn lemma_told_kept<C: Fn(Event) -> bool>(
    before: Tables,
    t: Tables,
    now: Tables,
    root: int,
    callback: &C,
)
    requires
        visits_told(before, t, root, callback),
        now.discovery == t.discovery,
        now.completion == t.completion,
        now.parent == t.parent,
        now.depth == t.depth,
    ensures
        visits_told(before, now, root, callback),
{
    assert forall|w: int|
        0 <= w < now.discovery.len() && entered(now, w) && !entered(
            before,
            w,
        ) implies #[trigger] told_in(now, w, root, callback) by {
        assert(told_in(t, w, root, callback));
        assert(entering_of(now, w, root) == entering_of(t, w, root));
        assert(leaving_of(now, w, root) == leaving_of(t, w, root));
    }
}

/// The visit is through with the arc number `j` of node `u`: the filter
/// turned the entering of its target down; or the target is entered, and
/// it was left before `u` or it encloses `u` and a cycle was found.
pub open spec fn arc_settled<F: Fn(Event) -> bool>(
    adj: Seq<Seq<usize>>,
    t: Tables,
    filter: &F,
    u: int,
    j: int,
) -> bool {
    let v = adj[u][j] as int;
    ||| exists|root: int|
        0 <= root < adj.len() && #[trigger] call_ensures(
            *filter,
            (entering(v, u, root, t.depth[u] + 1),),
            false,
        )
    ||| entered(t, v) && (done_before(t, v, u) || (t.cycle_found && encloses(t, v, u)))
}

/// Node `v` is the root of a visit, or it was entered through an arc from
/// its parent, which was entered before it.
pub open spec fn hangs_on_parent(adj: Seq<Seq<usize>>, t: Tables, v: int) -> bool {
    let p = t.parent[v] as int;
    ||| p == v && t.depth[v] == 0
    ||| 0 <= p < adj.len() && entered(t, p) && has_arc(adj, p, v) && t.discovery[p] < t.discovery[v]
        && t.depth[v] == t.depth[p] + 1
}

/// Visits from the roots below `bound`, in their order, have led from the
/// tables `before` to the tables `t`: every root below `bound` is entered
/// or turned down by the filter, and every node entered since is left,
/// hangs on its parent, and has all its arcs settled.
pub open spec fn roots_done<F: Fn(Event) -> bool>(
    adj: Seq<Seq<usize>>,
    before: Tables,
    t: Tables,
    filter: &F,
    bound: int,
) -> bool {
    let n = adj.len();
    &&& tables_wf(adj, before)
    &&& before.path.len() == 0
    &&& tables_wf(adj, t)
    &&& t.path.len() == 0
    &&& grown(before, t)
    &&& forall|v: int|
        0 <= v < bound && v < n ==> #[trigger] entered(t, v) || call_ensures(
            *filter,
            (entering(v, v, v, 0),),
            false,
        )
    &&& forall|u: int|
        0 <= u < n && #[trigger] entered(t, u) && !entered(before, u) ==> left(t, u)
            && hangs_on_parent(adj, t, u)
    &&& forall|u: int, j: int|
        0 <= u < n && entered(t, u) && !entered(before, u) && 0 <= j < adj[u].len()
            ==> #[trigger] arc_settled(adj, t, filter, u, j)
}

/// Tables that have grown twice have grown.
pub proof fn lemma_grown_twice(adj: Seq<Seq<usize>>, a: Tables, b: Tables, c: Tables)
    requires
        tables_wf(adj, a),
        tables_wf(adj, b),
        tables_wf(adj, c),
        grown(a, b),
        grown(b, c),
    ensures
        grown(a, c),
{
    let first = a.preorder.len() as int;
    let last = a.postorder.len() as int;
    assert(c.preorder.subrange(0, first) =~= a.preorder) by {
        assert forall|i: int| 0 <= i < first implies c.preorder[i] == a.preorder[i] by {
            assert(b.preorder.subrange(0, first)[i] == b.preorder[i]);
            assert(c.preorder.subrange(0, b.preorder.len() as int)[i] == c.preorder[i]);
        }
    }
    assert(c.postorder.subrange(0, last) =~= a.postorder) by {
        assert forall|i: int| 0 <= i < last implies c.postorder[i] == a.postorder[i] by {
            assert(b.postorder.subrange(0, last)[i] == b.postorder[i]);
            assert(c.postorder.subrange(0, b.postorder.len() as int)[i] == c.postorder[i]);
        }
    }
    assert forall|v: int| 0 <= v < a.discovery.len() && #[trigger] entered(a, v) implies c.discovery[v]
        == a.discovery[v] && c.completion[v] == a.completion[v] && c.parent[v] == a.parent[v]
        && c.depth[v] == a.depth[v] && c.cursor[v] == a.cursor[v] by {
        assert(entered(b, v));
    }
}

/// One more visit that has come to its end leaves the roots up to its own
/// done.
pub proof fn lemma_next_root<F: Fn(Event) -> bool>(
    adj: Seq<Seq<usize>>,
    before: Tables,
    t: Tables,
    s: Tables,
    filter: &F,
    root: int,
)
    requires
        roots_done(adj, before, t, filter, root),
        0 <= root < adj.len(),
        visit_done(adj, t, s, root, filter),
    ensures
        roots_done(adj, before, s, filter, root + 1),
{
    let n = adj.len();
    if s != t {
        let first = t.preorder.len() as int;
        lemma_grown_twice(adj, before, t, s);
        assert(s.discovery[s.preorder[first] as int] == first);
        assert(entered(s, root));
        assert forall|v: int| 0 <= v < root + 1 && v < n implies #[trigger] entered(s, v) || call_ensures(
            *filter,
            (entering(v, v, v, 0),),
            false,
        ) by {
            if v < root && entered(t, v) {
                assert(s.discovery[v] == t.discovery[v]);
            }
        }
        assert forall|u: int| 0 <= u < n && entered(s, u) implies left(s, u) by {
            if on_path(s, u) {
                assert(s.path.contains(u as usize));
            }
        }
        assert forall|u: int| 0 <= u < n && #[trigger] entered(s, u) && !entered(before, u) implies left(
            s,
            u,
        ) && hangs_on_parent(adj, s, u) by {
            if entered(t, u) {
                assert(hangs_on_parent(adj, t, u));
                let p = t.parent[u] as int;
                if p != u {
                    assert(entered(t, p));
                }
            } else {
                lemma_new_node(adj, t, s, root, filter, u);
                let i = s.discovery[u] as int;
                if i > first {
                    assert(entered_through(adj, t, s, root, filter, s.preorder[i] as int));
                }
            }
        }
        assert forall|u: int, j: int|
            0 <= u < n && entered(s, u) && !entered(before, u)
                && 0 <= j < adj[u].len() implies #[trigger] arc_settled(
            adj,
            s,
            filter,
            u,
            j,
        ) by {
            let v = adj[u][j] as int;
            assert(adj[u][j] < n);
            if entered(t, u) {
                assert(arc_settled(adj, t, filter, u, j));
                assert(s.depth[u] == t.depth[u]);
                if entered(t, v) && (done_before(t, v, u) || (t.cycle_found && encloses(t, v, u))) {
                    assert(s.completion[v] == t.completion[v]);
                    assert(s.completion[u] == t.completion[u]);
                }
            } else {
                lemma_new_node(adj, t, s, root, filter, u);
                let i = s.discovery[u] as int;
                assert(left(s, u));
                assert(arc_seen(adj, s, root, filter, s.preorder[i] as int, j));
            }
        }
    } else {
        assert(entered(t, root) || call_ensures(*filter, (entering(root, root, root, 0),), false));
    }
}

impl<'a> SingleThreadedDepthFirstVisit<'a> {
    /// Visits the whole graph: from every node in turn, as
    /// `visit_from_node` does, until the callback asks for a stop.
    pub fn visit<C: Fn(Event) -> bool, F: Fn(Event) -> bool>(
        &mut self,
        callback: &C,
        filter: &F,
    ) -> (completed: bool)
        requires
            old(self).wf(),
            old(self).idle(),
            forall|e: Event|
                event_in_range(e, old(self).adjacency().len()) ==> #[trigger] call_requires(
                    *callback,
                    (e,),
                ),
            forall|e: Event|
                event_in_range(e, old(self).adjacency().len()) ==> #[trigger] call_requires(
                    *filter,
                    (e,),
                ),
        ensures
            final(self).wf(),
            final(self).adjacency() == old(self).adjacency(),
            final(self).spec_three_states() == old(self).spec_three_states(),
            grown(old(self).tables(), final(self).tables()),
            completed ==> roots_done(
                old(self).adjacency(),
                old(self).tables(),
                final(self).tables(),
                filter,
                old(self).adjacency().len() as int,
            ),
            completed ==> all_visits_told(old(self).tables(), final(self).tables(), callback),
            !completed ==> stopped_at(callback, final(self).tables(), old(self).adjacency().len()),
            completed && final(self).tables().cycle_found && !old(self).tables().cycle_found
                && old(self).spec_three_states() ==> back_edge_passed(callback, filter),
    {
        let ghost before = self.tables();
        let ghost adj = self.graph@;
        let n: usize = self.graph.num_nodes();
        proof {
            assert(before.preorder.subrange(0, before.preorder.len() as int) =~= before.preorder);
            assert(before.postorder.subrange(0, before.postorder.len() as int)
                =~= before.postorder);
        }
        let mut root: usize = 0;
        while root < n
            invariant
                root <= n,
                n == adj.len(),
                self.wf(),
                self.adjacency() == adj,
                before == old(self).tables(),
                adj == old(self).adjacency(),
                self.spec_three_states() == old(self).spec_three_states(),
                roots_done(adj, before, self.tables(), filter, root as int),
                all_visits_told(before, self.tables(), callback),
                self.tables().cycle_found && !before.cycle_found && self.spec_three_states()
                    ==> back_edge_passed(callback, filter),
                forall|e: Event| event_in_range(e, n as nat) ==> #[trigger] call_requires(*callback, (e,)),
                forall|e: Event| event_in_range(e, n as nat) ==> #[trigger] call_requires(*filter, (e,)),
            decreases n - root,
        {
            let ghost t = self.tables();
            let completed = self.visit_from_node(root, callback, filter);
            proof {
                lemma_grown_twice(adj, before, t, self.tables());
            }
            if !completed {
                return false;
            }
            proof {
                lemma_next_root(adj, before, t, self.tables(), filter, root as int);
                let now = self.tables();
                assert forall|w: int|
                    0 <= w < now.discovery.len() && entered(now, w) && !entered(
                        before,
                        w,
                    ) implies #[trigger] told(now, w, callback) by {
                    if entered(t, w) {
                        assert(told(t, w, callback));
                        let r = choose|r: int|
                            0 <= r < t.discovery.len() && #[trigger] told_in(t, w, r, callback);
                        assert(entering_of(now, w, r) == entering_of(t, w, r));
                        assert(leaving_of(now, w, r) == leaving_of(t, w, r));
                        assert(told_in(now, w, r, callback));
                    } else {
                        assert(told_in(now, w, root as int, callback));
                    }
                }
            }
            root = root + 1;
        }
        true
    }
}

/// The target of the arc number `j` of node `u` is entered, and it was
/// left before `u` or it encloses `u` and a cycle was found.
pub open spec fn arc_closed(adj: Seq<Seq<usize>>, t: Tables, u: int, j: int) -> bool {
    let v = adj[u][j] as int;
    entered(t, v) && (done_before(t, v, u) || (t.cycle_found && encloses(t, v, u)))
}

/// The tables are those of depth-first visits that have entered and left
/// every node and followed every arc.
pub open spec fn fully_visited(adj: Seq<Seq<usize>>, t: Tables) -> bool {
    let n = adj.len();
    &&& tables_wf(adj, t)
    &&& t.path.len() == 0
    &&& t.preorder.len() == n
    &&& t.postorder.len() == n
    &&& forall|u: int| 0 <= u < n ==> #[trigger] left(t, u) && hangs_on_parent(adj, t, u)
    &&& forall|u: int, j: int|
        0 <= u < n && 0 <= j < adj[u].len() ==> #[trigger] arc_closed(adj, t, u, j)
}

/// An order that has a place for every node lists every node.
pub proof fn lemma_order_full(order: Seq<usize>, place: Seq<usize>)
    requires
        is_order(order, place),
        forall|v: int| 0 <= v < place.len() ==> (#[trigger] place[v]) != NONE,
    ensures
        order.len() == place.len(),
{
    lemma_order_short(order, place);
    assert forall|i: int, j: int| 0 <= i < place.len() && 0 <= j < place.len() && i != j implies place[i]
        != place[j] by {
        assert(order[place[i] as int] == i);
        assert(order[place[j] as int] == j);
    }
    lemma_distinct_below(place, order.len());
}

/// Visits from every root, with a filter that turns nothing down, on
/// tables that had entered no node, have visited the graph fully.
pub proof fn lemma_all_visited<F: Fn(Event) -> bool>(adj: Seq<Seq<usize>>, t: Tables, filter: &F)
    requires
        roots_done(adj, fresh(adj.len()), t, filter, adj.len() as int),
        forall|e: Event| !#[trigger] call_ensures(*filter, (e,), false),
    ensures
        fully_visited(adj, t),
{
    let n = adj.len();
    let before = fresh(n);
    assert forall|u: int| 0 <= u < n implies entered(t, u) && #[trigger] left(t, u) && hangs_on_parent(
        adj,
        t,
        u,
    ) by {
        assert(entered(t, u) || call_ensures(*filter, (entering(u, u, u, 0),), false));
        assert(!entered(before, u));
    }
    assert forall|u: int, j: int| 0 <= u < n && 0 <= j < adj[u].len() implies #[trigger] arc_closed(
        adj,
        t,
        u,
        j,
    ) by {
        assert(entered(t, u));
        assert(!entered(before, u));
        assert(arc_settled(adj, t, filter, u, j));
    }
    assert forall|v: int| 0 <= v < t.discovery.len() implies (#[trigger] t.discovery[v]) != NONE by {
        assert(entered(t, v));
    }
    assert forall|v: int| 0 <= v < t.completion.len() implies (#[trigger] t.completion[v]) != NONE by {
        assert(left(t, v));
    }
    lemma_order_full(t.preorder, t.discovery);
    lemma_order_full(t.postorder, t.completion);
}

} // verus!
