//! Why the components that Tarjan's algorithm closes are strongly
//! connected.
//!
//! At any time every node of the path of the visit reaches the nodes after
//! it on the path. The open nodes fall into segments, one for each node of
//! the path: the nodes entered from that node on and before the next node
//! of the path. Every node of a segment reaches the node of the path that
//! heads it and is reached from it. The low link of an open node is the
//! number of an open node that it reaches. So when the visit leaves a node
//! whose low link is its own number, the segment that it heads is strongly
//! connected.
use crate::algo::sccs::tarjan::{
    assigned, closed, closes_with_top, entered, followed, inv, is_open, left_open, lemma_close,
    lemma_counter_bound, seen, Trace,
};
use crate::graph::{
    has_arc, lemma_reaches_by_arc, lemma_reaches_further, lemma_reaches_itself, reaches,
};
use vstd::prelude::*;

verus! {

/// The open node `w` was entered no earlier than the node at position `i`
/// of the path, and before the next node of the path.
pub open spec fn in_segment(t: Trace, i: int, w: int) -> bool {
    &&& is_open(t, w)
    &&& t.index[t.path[i] as int] <= t.index[w]
    &&& i + 1 < t.path.len() ==> t.index[w] < t.index[t.path[i + 1] as int]
}

/// The low link of `x` is the number of an open node that `x` reaches.
pub open spec fn low_ok(adj: Seq<Seq<usize>>, t: Trace, x: int) -> bool {
    &&& t.low[x] < t.order.len()
    &&& is_open(t, t.order[t.low[x] as int] as int)
    &&& reaches(adj, x, t.order[t.low[x] as int] as int)
}

/// What holds of the walks between the nodes that the visit has entered.
#[verifier::opaque]
pub open spec fn inv_walks(adj: Seq<Seq<usize>>, t: Trace) -> bool {
    let n = adj.len();
    &&& forall|i: int, j: int|
        0 <= i <= j < t.path.len() ==> #[trigger] reaches(adj, t.path[i] as int, t.path[j] as int)
    &&& forall|i: int, w: int|
        0 <= i < t.path.len() && 0 <= w < n && #[trigger] in_segment(t, i, w) ==> reaches(
            adj,
            t.path[i] as int,
            w,
        ) && reaches(adj, w, t.path[i] as int)
    &&& forall|x: int| 0 <= x < n && #[trigger] is_open(t, x) ==> low_ok(adj, t, x)
    &&& forall|a: int, b: int|
        0 <= a < n && 0 <= b < n && assigned(t, a) && assigned(t, b) && t.component[a]
            == t.component[b] ==> #[trigger] reaches(adj, a, b)
}

/// From position `k` of the path on, whose node was entered no later than
/// the open node `z`, there is a position whose segment holds `z`.
proof fn lemma_segment_from(adj: Seq<Seq<usize>>, t: Trace, z: int, k: int) -> (i: int)
    requires
        inv(adj, t),
        0 <= z < adj.len(),
        is_open(t, z),
        0 <= k < t.path.len(),
        t.index[t.path[k] as int] <= t.index[z],
    ensures
        k <= i < t.path.len(),
        in_segment(t, i, z),
    decreases t.path.len() - k,
{
    if k + 1 < t.path.len() && t.index[t.path[k + 1] as int] <= t.index[z] {
        lemma_segment_from(adj, t, z, k + 1)
    } else {
        k
    }
}

/// Every open node is in the segment of a position of the path.
pub proof fn lemma_segment_of(adj: Seq<Seq<usize>>, t: Trace, z: int) -> (i: int)
    requires
        inv(adj, t),
        0 <= z < adj.len(),
        is_open(t, z),
    ensures
        0 <= i < t.path.len(),
        in_segment(t, i, z),
{
    assert(t.open.contains(z as usize));
    let j = choose|j: int| 0 <= j < t.open.len() && t.open[j] == z as usize;
    if j > 0 {
        assert(t.index[t.open[0] as int] < t.index[t.open[j] as int]);
    }
    assert(t.path[0] == t.open[0]);
    lemma_segment_from(adj, t, z, 0)
}

/// Entering a node keeps what holds of the walks.
pub proof fn lemma_enter_walks(adj: Seq<Seq<usize>>, t: Trace, v: int)
    requires
        inv(adj, t),
        inv_walks(adj, t),
        0 <= v < adj.len(),
        !seen(t, v),
        t.path.len() > 0 ==> t.cursor[t.path.last() as int] < adj[t.path.last() as int].len()
            && adj[t.path.last() as int][t.cursor[t.path.last() as int] as int] == v,
        t.path.len() == 0 ==> t.open.len() == 0,
    ensures
        inv_walks(adj, entered(adj, t, v)),
{
    reveal(inv_walks);
    let s = entered(adj, t, v);
    let n = adj.len();
    let len = t.path.len() as int;
    lemma_counter_bound(adj, t);
    lemma_reaches_itself(adj, v);
    assert(forall|w: int|
        0 <= w < n && w != v ==> is_open(s, w) == is_open(t, w) && assigned(s, w) == assigned(t, w)
            && s.index[w] == t.index[w] && s.low[w] == t.low[w]);
    assert(!assigned(t, v));
    assert(is_open(s, v));
    assert forall|w: int| 0 <= w < n && w != v && seen(t, w) implies t.index[w] < t.counter by {}
    assert forall|i: int| 0 <= i < len implies s.path[i] == t.path[i] && t.path[i] as int != v
        && seen(t, t.path[i] as int) && t.path[i] < n by {
        assert(is_open(t, t.path[i] as int));
    }
    assert forall|i: int, j: int| 0 <= i <= j < s.path.len() implies #[trigger] reaches(
        adj,
        s.path[i] as int,
        s.path[j] as int,
    ) by {
        if j < len {
            assert(reaches(adj, t.path[i] as int, t.path[j] as int));
        } else if i < len {
            let u = t.path.last() as int;
            assert(t.path[len - 1] == t.path.last());
            assert(reaches(adj, t.path[i] as int, t.path[len - 1] as int));
            assert(has_arc(adj, u, v));
            lemma_reaches_by_arc(adj, u, v);
            lemma_reaches_further(adj, t.path[i] as int, u, v);
        }
    }
    assert forall|i: int, w: int|
        0 <= i < s.path.len() && 0 <= w < n && #[trigger] in_segment(s, i, w) implies reaches(
        adj,
        s.path[i] as int,
        w,
    ) && reaches(adj, w, s.path[i] as int) by {
        if i == len {
            if w != v {
                assert(seen(t, w));
            }
        } else {
            if w == v {
                assert(i + 1 <= len);
                if i + 1 < len {
                    assert(seen(t, t.path[i + 1] as int));
                }
            } else {
                assert(in_segment(t, i, w));
            }
        }
    }
    assert forall|x: int| 0 <= x < n && #[trigger] is_open(s, x) implies low_ok(adj, s, x) by {
        if x != v {
            assert(low_ok(adj, t, x));
            let z = t.order[t.low[x] as int];
            assert(s.order[t.low[x] as int] == z);
            assert(z < n);
        } else {
            assert(s.order[t.counter as int] == v as usize);
        }
    }
    assert forall|a: int, b: int|
        0 <= a < n && 0 <= b < n && assigned(s, a) && assigned(s, b) && s.component[a]
            == s.component[b] implies #[trigger] reaches(adj, a, b) by {
        assert(assigned(t, a) && assigned(t, b));
    }
}

/// Following an arc to an entered node keeps what holds of the walks.
pub proof fn lemma_follow_walks(adj: Seq<Seq<usize>>, t: Trace)
    requires
        inv(adj, t),
        inv_walks(adj, t),
        t.path.len() > 0,
        t.cursor[t.path.last() as int] < adj[t.path.last() as int].len(),
        seen(t, adj[t.path.last() as int][t.cursor[t.path.last() as int] as int] as int),
    ensures
        inv_walks(adj, followed(adj, t)),
{
    reveal(inv_walks);
    let s = followed(adj, t);
    let n = adj.len();
    let u = t.path.last() as int;
    let b = adj[u][t.cursor[u] as int] as int;
    assert(t.path[t.path.len() - 1] < n);
    assert(adj[u][t.cursor[u] as int] < n);
    assert(forall|w: int| 0 <= w < n ==> is_open(s, w) == is_open(t, w) && assigned(s, w) == assigned(t, w));
    assert(forall|w: int| 0 <= w < n && w != u ==> s.low[w] == t.low[w]);
    assert forall|i: int, w: int|
        0 <= i < s.path.len() && 0 <= w < n && #[trigger] in_segment(s, i, w) implies reaches(
        adj,
        s.path[i] as int,
        w,
    ) && reaches(adj, w, s.path[i] as int) by {
        assert(in_segment(t, i, w));
    }
    assert forall|x: int| 0 <= x < n && #[trigger] is_open(s, x) implies low_ok(adj, s, x) by {
        assert(low_ok(adj, t, x));
        if x == u && s.low[u] != t.low[u] {
            assert(is_open(t, b));
            assert(seen(t, b));
            assert(t.order[t.index[b] as int] == b);
            assert(has_arc(adj, u, b));
            lemma_reaches_by_arc(adj, u, b);
        }
    }
}

/// Where the visit leaves a node that stays open, the node reaches the
/// node before it on the path, through the open node whose number is its
/// low link.
proof fn lemma_leave_open_chain(adj: Seq<Seq<usize>>, t: Trace)
    requires
        inv(adj, t),
        inv_walks(adj, t),
        t.path.len() > 0,
        t.low[t.path.last() as int] != t.index[t.path.last() as int],
    ensures
        t.path.len() >= 2,
        low_ok(adj, t, t.path.last() as int),
        reaches(adj, t.path.last() as int, t.path[t.path.len() - 2] as int),
        reaches(adj, t.path[t.path.len() - 2] as int, t.path.last() as int),
{
    reveal(inv_walks);
    let n = adj.len();
    let top = t.path.len() - 1;
    let v = t.path.last() as int;
    assert(t.path[top] < n && is_open(t, t.path[top] as int));
    assert(seen(t, v));
    assert(low_ok(adj, t, v));
    let z = t.order[t.low[v] as int] as int;
    assert(t.order[t.low[v] as int] < n);
    assert(t.index[z] == t.low[v]);
    let head = lemma_segment_of(adj, t, z);
    assert(head < top);
    assert(reaches(adj, t.path[head] as int, t.path[top - 1] as int));
    assert(reaches(adj, t.path[top - 1] as int, t.path[top] as int));
    assert(in_segment(t, head, z));
    assert(reaches(adj, z, t.path[head] as int));
    lemma_reaches_further(adj, v, z, t.path[head] as int);
    lemma_reaches_further(adj, v, t.path[head] as int, t.path[top - 1] as int);
}

/// Leaving a node that stays open keeps what holds of the walks.
pub proof fn lemma_leave_open_walks(adj: Seq<Seq<usize>>, t: Trace)
    requires
        inv(adj, t),
        inv_walks(adj, t),
        t.path.len() > 0,
        t.cursor[t.path.last() as int] == adj[t.path.last() as int].len(),
        t.low[t.path.last() as int] != t.index[t.path.last() as int],
    ensures
        inv_walks(adj, left_open(t)),
{
    reveal(inv_walks);
    lemma_leave_open_chain(adj, t);
    let s = left_open(t);
    let n = adj.len();
    let top = t.path.len() - 1;
    let v = t.path.last() as int;
    let p = t.path[top - 1] as int;
    assert(t.path[top] < n && is_open(t, t.path[top] as int));
    assert(t.path[top - 1] < n && is_open(t, t.path[top - 1] as int));
    assert(forall|w: int| 0 <= w < n ==> is_open(s, w) == is_open(t, w) && assigned(s, w) == assigned(t, w));
    assert(forall|w: int| 0 <= w < n && w != p ==> s.low[w] == t.low[w]);
    assert(s.index == t.index && s.order == t.order && s.component == t.component);
    assert forall|i: int, j: int| 0 <= i <= j < s.path.len() implies #[trigger] reaches(
        adj,
        s.path[i] as int,
        s.path[j] as int,
    ) by {
        assert(reaches(adj, t.path[i] as int, t.path[j] as int));
    }
    assert forall|i: int, w: int|
        0 <= i < s.path.len() && 0 <= w < n && #[trigger] in_segment(s, i, w) implies reaches(
        adj,
        s.path[i] as int,
        w,
    ) && reaches(adj, w, s.path[i] as int) by {
        assert(s.path[i] == t.path[i]);
        if i + 1 < s.path.len() {
            assert(s.path[i + 1] == t.path[i + 1]);
            assert(in_segment(t, i, w));
        } else if t.index[w] < t.index[v] {
            assert(in_segment(t, i, w));
        } else {
            assert(in_segment(t, top, w));
            lemma_reaches_further(adj, p, v, w);
            lemma_reaches_further(adj, w, v, p);
        }
    }
    assert forall|x: int| 0 <= x < n && #[trigger] is_open(s, x) implies low_ok(adj, s, x) by {
        assert(low_ok(adj, t, x));
        if x == p && s.low[p] != t.low[p] {
            let z = t.order[t.low[v] as int] as int;
            lemma_reaches_further(adj, p, v, z);
        }
    }
    assert forall|a: int, b: int|
        0 <= a < n && 0 <= b < n && assigned(s, a) && assigned(s, b) && s.component[a]
            == s.component[b] implies #[trigger] reaches(adj, a, b) by {
        assert(assigned(t, a) && assigned(t, b));
    }
}

/// Closing a component keeps what holds of the walks.
pub proof fn lemma_close_walks(adj: Seq<Seq<usize>>, t: Trace)
    requires
        inv(adj, t),
        inv_walks(adj, t),
        t.path.len() > 0,
        t.cursor[t.path.last() as int] == adj[t.path.last() as int].len(),
        t.low[t.path.last() as int] == t.index[t.path.last() as int],
    ensures
        inv_walks(adj, closed(t)),
{
    reveal(inv_walks);
    lemma_close(adj, t);
    lemma_counter_bound(adj, t);
    let s = closed(t);
    let n = adj.len();
    let top = t.path.len() - 1;
    let v = t.path.last() as int;
    assert(t.path[top] < n && is_open(t, t.path[top] as int));
    assert(forall|w: int|
        0 <= w < n ==> assigned(s, w) == (assigned(t, w) || closes_with_top(t, w)) && is_open(s, w) == (
        is_open(t, w) && !closes_with_top(t, w)));
    assert forall|i: int, j: int| 0 <= i <= j < s.path.len() implies #[trigger] reaches(
        adj,
        s.path[i] as int,
        s.path[j] as int,
    ) by {
        assert(reaches(adj, t.path[i] as int, t.path[j] as int));
    }
    assert forall|i: int, w: int|
        0 <= i < s.path.len() && 0 <= w < n && #[trigger] in_segment(s, i, w) implies reaches(
        adj,
        s.path[i] as int,
        w,
    ) && reaches(adj, w, s.path[i] as int) by {
        assert(s.path[i] == t.path[i]);
        if i + 1 < s.path.len() {
            assert(s.path[i + 1] == t.path[i + 1]);
        }
        assert(in_segment(t, i, w));
    }
    assert forall|x: int| 0 <= x < n && #[trigger] is_open(s, x) implies low_ok(adj, s, x) by {
        assert(low_ok(adj, t, x));
        let z = t.order[t.low[x] as int] as int;
        assert(t.order[t.low[x] as int] < n);
        assert(t.index[z] == t.low[x]);
        assert(seen(t, x));
    }
    assert forall|a: int, b: int|
        0 <= a < n && 0 <= b < n && assigned(s, a) && assigned(s, b) && s.component[a]
            == s.component[b] implies #[trigger] reaches(adj, a, b) by {
        if assigned(t, a) && assigned(t, b) {
        } else if closes_with_top(t, a) && closes_with_top(t, b) {
            assert(in_segment(t, top, a));
            assert(in_segment(t, top, b));
            lemma_reaches_further(adj, a, v, b);
        } else {
            if assigned(t, a) {
                assert(t.component[a] < t.emitted);
            }
            if assigned(t, b) {
                assert(t.component[b] < t.emitted);
            }
        }
    }
}

/// Before the visit has entered a node, all holds of the walks.
pub proof fn lemma_walks_begin(adj: Seq<Seq<usize>>, t: Trace)
    requires
        inv(adj, t),
        t.path.len() == 0,
        forall|v: int| 0 <= v < adj.len() ==> !seen(t, v),
    ensures
        inv_walks(adj, t),
{
    reveal(inv_walks);
}

/// Once every node has its component, two nodes of one component reach
/// each other.
pub proof fn lemma_walks_end(adj: Seq<Seq<usize>>, t: Trace, a: int, b: int)
    requires
        inv(adj, t),
        inv_walks(adj, t),
        0 <= a < adj.len(),
        0 <= b < adj.len(),
        assigned(t, a),
        assigned(t, b),
        t.component[a] == t.component[b],
    ensures
        reaches(adj, a, b),
        reaches(adj, b, a),
{
    reveal(inv_walks);
}

} // verus!
