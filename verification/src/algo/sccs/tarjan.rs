//! Tarjan's algorithm for the strongly connected components.
//!
//! One depth-first visit numbers the nodes in the order in which it enters
//! them and keeps for every node the smallest number that it has seen the
//! node reach (its low link). The nodes that are entered and not yet in a
//! component stand on a stack, in the order of their numbers. When the
//! visit leaves a node whose low link is its own number, the nodes from it
//! to the top of the stack form a component.
//!
//! The components close in reverse topological order. They are numbered
//! from the last to the first: the component that closes first gets the
//! largest index, so that every arc leads from a component to itself or to
//! one with a larger index.
use crate::algo::sccs::basic::{is_scc_table, lemma_connected_together, BasicSccs};
use crate::algo::sccs::tarjan_walks::{
    inv_walks, lemma_close_walks, lemma_enter_walks, lemma_follow_walks, lemma_leave_open_walks,
    lemma_walks_begin, lemma_walks_end,
};
use crate::algo::visits::breadth_first::lemma_distinct_below;
use crate::algo::visits::depth_first::{lemma_work_left_frame, lemma_work_left_positive, work_left};
use crate::graph::{strongly_connected, successors_in_range, Graph};
use vstd::prelude::*;

verus! {

/// Marks a node that the visit has not entered, and a node without a
/// component.
pub const NONE: usize = usize::MAX;

/// What the visit knows at one moment.
pub struct Trace {
    /// For every node the number in the order of entering, or `NONE`.
    pub index: Seq<usize>,
    /// For every entered node its low link.
    pub low: Seq<usize>,
    /// For every node the number of its component in the order of closing,
    /// or `NONE`.
    pub component: Seq<usize>,
    /// For every node the number of its arcs that the visit has followed.
    pub cursor: Seq<usize>,
    /// The entered nodes without a component, in the order of entering.
    pub open: Seq<usize>,
    /// The nodes that the visit has entered and not left, from the root.
    pub path: Seq<usize>,
    /// The number of entered nodes.
    pub counter: nat,
    /// The number of closed components.
    pub emitted: nat,
    /// The entered nodes in the order of entering.
    pub order: Seq<usize>,
    /// For every closed component the node at which it closed.
    pub roots: Seq<usize>,
}

/// The visit has entered node `v`.
pub open spec fn seen(t: Trace, v: int) -> bool {
    t.index[v] != NONE
}

/// Node `v` has its component.
pub open spec fn assigned(t: Trace, v: int) -> bool {
    t.component[v] != NONE
}

/// Node `v` is entered and has no component yet.
pub open spec fn is_open(t: Trace, v: int) -> bool {
    seen(t, v) && !assigned(t, v)
}

/// The followed arc number `j` of node `v` leads to an entered node, and
/// where both are open, the low link of `v` is at most the number of the
/// target.
pub open spec fn explored_ok(adj: Seq<Seq<usize>>, t: Trace, v: int, j: int) -> bool {
    let b = adj[v][j] as int;
    seen(t, b) && (is_open(t, v) && is_open(t, b) ==> t.low[v] <= t.index[b])
}

/// The arc number `j` of the node `a`, which has its component, leads to a
/// node whose component closed no later.
pub open spec fn closed_ok(adj: Seq<Seq<usize>>, t: Trace, a: int, j: int) -> bool {
    let b = adj[a][j] as int;
    assigned(t, b) && t.component[b] <= t.component[a]
}

/// An open node `w` that was entered after the node at position `i` of the
/// path, and before the next node of the path, has a low link that is at
/// least the low link of that node.
pub open spec fn segment_ok(t: Trace, i: int, w: int) -> bool {
    (is_open(t, w) && t.index[t.path[i] as int] < t.index[w] && (i + 1 < t.path.len()
        ==> t.index[w] < t.index[t.path[i + 1] as int])) ==> t.low[w] >= t.low[t.path[i] as int]
}

/// What holds of the tables.
pub open spec fn inv_tables(adj: Seq<Seq<usize>>, t: Trace) -> bool {
    let n = adj.len();
    &&& n < usize::MAX
    &&& successors_in_range(adj)
    &&& t.index.len() == n
    &&& t.low.len() == n
    &&& t.component.len() == n
    &&& t.cursor.len() == n
    &&& forall|v: int| 0 <= v < n && #[trigger] assigned(t, v) ==> seen(t, v) && t.component[v] < t.emitted
    &&& forall|v: int|
        0 <= v < n && #[trigger] seen(t, v) ==> t.index[v] < t.counter && t.cursor[v] <= adj[v].len()
            && t.low[v] <= t.index[v] && t.order[t.index[v] as int] == v
    &&& t.order.len() == t.counter
    &&& forall|i: int|
        0 <= i < t.counter ==> (#[trigger] t.order[i]) < n && t.index[t.order[i] as int] == i
    &&& t.emitted + t.open.len() <= t.counter
    &&& t.roots.len() == t.emitted
    &&& forall|c: int|
        0 <= c < t.emitted ==> (#[trigger] t.roots[c]) < n && t.component[t.roots[c] as int] == c
}

/// What holds of the stack of open nodes.
pub open spec fn inv_open(adj: Seq<Seq<usize>>, t: Trace) -> bool {
    let n = adj.len();
    &&& forall|i: int| 0 <= i < t.open.len() ==> (#[trigger] t.open[i]) < n && is_open(t, t.open[i] as int)
    &&& forall|i: int, j: int|
        0 <= i < j < t.open.len() ==> t.index[#[trigger] t.open[i] as int] < t.index[
        #[trigger] t.open[j] as int]
    &&& forall|v: int| 0 <= v < n && is_open(t, v) ==> #[trigger] t.open.contains(v as usize)
    &&& forall|v: int|
        0 <= v < n && is_open(t, v) ==> (#[trigger] t.low[v]) >= t.index[t.open[0] as int]
}

/// What holds of the path of the visit.
pub open spec fn inv_path(adj: Seq<Seq<usize>>, t: Trace) -> bool {
    let n = adj.len();
    &&& forall|i: int| 0 <= i < t.path.len() ==> (#[trigger] t.path[i]) < n && is_open(t, t.path[i] as int)
    &&& forall|i: int, j: int|
        0 <= i < j < t.path.len() ==> t.index[#[trigger] t.path[i] as int] < t.index[
        #[trigger] t.path[j] as int]
    &&& t.open.len() > 0 ==> t.path.len() > 0 && t.path[0] == t.open[0]
    &&& forall|v: int|
        0 <= v < n && is_open(t, v) && !(#[trigger] t.path.contains(v as usize)) ==> t.cursor[v]
            == adj[v].len()
}

/// What holds of the arcs.
pub open spec fn inv_arcs(adj: Seq<Seq<usize>>, t: Trace) -> bool {
    let n = adj.len();
    &&& forall|v: int, j: int|
        0 <= v < n && seen(t, v) && 0 <= j < t.cursor[v] ==> #[trigger] explored_ok(adj, t, v, j)
    &&& forall|a: int, j: int|
        0 <= a < n && assigned(t, a) && 0 <= j < adj[a].len() ==> #[trigger] closed_ok(adj, t, a, j)
    &&& forall|i: int, w: int| 0 <= i < t.path.len() && 0 <= w < n ==> #[trigger] segment_ok(t, i, w)
}

/// The invariant of the visit.
pub open spec fn inv(adj: Seq<Seq<usize>>, t: Trace) -> bool {
    inv_tables(adj, t) && inv_open(adj, t) && inv_path(adj, t) && inv_arcs(adj, t)
}

/// Entered nodes are at most as many as there are nodes.
pub proof fn lemma_counter_bound(adj: Seq<Seq<usize>>, t: Trace)
    requires
        inv_tables(adj, t),
    ensures
        t.counter <= adj.len(),
{
    assert forall|i: int, j: int| 0 <= i < t.order.len() && 0 <= j < t.order.len()
        && i != j implies t.order[i]
        != t.order[j] by {
        assert(t.index[t.order[i] as int] == i);
        assert(t.index[t.order[j] as int] == j);
    }
    lemma_distinct_below(t.order, adj.len());
}

/// The trace after the visit has entered node `v`: from the top of the
/// path through its next arc, or as a new root where the path is empty.
pub open spec fn entered(adj: Seq<Seq<usize>>, t: Trace, v: int) -> Trace {
    let cursor = if t.path.len() > 0 {
        t.cursor.update(t.path.last() as int, (t.cursor[t.path.last() as int] + 1) as usize)
    } else {
        t.cursor
    };
    Trace {
        index: t.index.update(v, t.counter as usize),
        low: t.low.update(v, t.counter as usize),
        component: t.component,
        cursor: cursor.update(v, 0),
        open: t.open.push(v as usize),
        path: t.path.push(v as usize),
        counter: t.counter + 1,
        emitted: t.emitted,
        order: t.order.push(v as usize),
        roots: t.roots,
    }
}

/// Entering a node keeps the invariant.
pub proof fn lemma_enter(adj: Seq<Seq<usize>>, t: Trace, v: int)
    requires
        inv(adj, t),
        0 <= v < adj.len(),
        !seen(t, v),
        t.path.len() > 0 ==> t.cursor[t.path.last() as int] < adj[t.path.last() as int].len()
            && adj[t.path.last() as int][t.cursor[t.path.last() as int] as int] == v,
        t.path.len() == 0 ==> t.open.len() == 0,
    ensures
        inv(adj, entered(adj, t, v)),
{
    let s = entered(adj, t, v);
    let n = adj.len();
    lemma_counter_bound(adj, t);
    assert(forall|w: int| 0 <= w < n && w != v ==> seen(s, w) == seen(t, w)
        && assigned(s, w) == assigned(t, w)
        && s.index[w] == t.index[w] && s.low[w] == t.low[w]);
    assert(!assigned(t, v));
    assert(is_open(s, v));
    // the tables
    assert(inv_tables(adj, s)) by {
        assert forall|i: int| 0 <= i < s.counter implies (#[trigger] s.order[i]) < n
            && s.index[s.order[i] as int]
            == i by {
            if i < t.counter {
                assert(t.order[i] < n && t.index[t.order[i] as int] == i);
                assert(seen(t, t.order[i] as int));
            }
        }
        assert forall|w: int| 0 <= w < n && #[trigger] seen(s, w) implies s.index[w] < s.counter
            && s.cursor[w] <= adj[w].len() && s.low[w] <= s.index[w] && s.order[s.index[w] as int]
            == w by {
            if w != v {
                assert(seen(t, w));
            }
        }
        assert forall|w: int| 0 <= w < n && #[trigger] assigned(s, w) implies seen(s, w) && s.component[w]
            < s.emitted by {
            assert(assigned(t, w));
        }
    }
    // the open nodes
    assert(inv_open(adj, s)) by {
        assert forall|i: int| 0 <= i < s.open.len() implies (#[trigger] s.open[i]) < n && is_open(
            s,
            s.open[i] as int,
        ) by {
            if i < t.open.len() {
                assert(t.open[i] < n && is_open(t, t.open[i] as int));
            }
        }
        assert forall|i: int, j: int| 0 <= i < j < s.open.len() implies s.index[#[trigger] s.open[i] as int]
            < s.index[#[trigger] s.open[j] as int] by {
            assert(is_open(t, t.open[i] as int));
            assert(seen(t, t.open[i] as int));
            if j < t.open.len() {
                assert(is_open(t, t.open[j] as int));
            }
        }
        assert forall|w: int| 0 <= w < n && is_open(s, w) implies #[trigger] s.open.contains(w as usize) by {
            if w == v {
                assert(s.open[s.open.len() - 1] == v as usize);
            } else {
                assert(t.open.contains(w as usize));
                let i = choose|i: int| 0 <= i < t.open.len() && t.open[i] == w as usize;
                assert(s.open[i] == w as usize);
            }
        }
        assert forall|w: int| 0 <= w < n
            && is_open(s, w) implies (#[trigger] s.low[w]) >= s.index[s.open[0] as int] by {
            if t.open.len() > 0 {
                assert(is_open(t, t.open[0] as int));
                assert(seen(t, t.open[0] as int));
                if w != v {
                    assert(t.low[w] >= t.index[t.open[0] as int]);
                }
            } else {
                if w != v {
                    assert(t.open.contains(w as usize));
                }
            }
        }
    }
    // the path
    assert(inv_path(adj, s)) by {
        assert forall|i: int| 0 <= i < s.path.len() implies (#[trigger] s.path[i]) < n && is_open(
            s,
            s.path[i] as int,
        ) by {
            if i < t.path.len() {
                assert(t.path[i] < n && is_open(t, t.path[i] as int));
            }
        }
        assert forall|i: int, j: int| 0 <= i < j < s.path.len() implies s.index[#[trigger] s.path[i] as int]
            < s.index[#[trigger] s.path[j] as int] by {
            assert(is_open(t, t.path[i] as int));
            assert(seen(t, t.path[i] as int));
            if j < t.path.len() {
                assert(is_open(t, t.path[j] as int));
            }
        }
        assert forall|w: int|
            0 <= w < n && is_open(s, w) && !(#[trigger] s.path.contains(w as usize)) implies s.cursor[w]
            == adj[w].len() by {
            if w == v {
                assert(s.path[s.path.len() - 1] == v as usize);
            } else {
                if t.path.contains(w as usize) {
                    let i = choose|i: int| 0 <= i < t.path.len() && t.path[i] == w as usize;
                    assert(s.path[i] == w as usize);
                }
                if t.path.len() > 0 && w == t.path.last() {
                    assert(t.path[t.path.len() - 1] == w as usize);
                }
            }
        }
    }
    // the arcs
    assert(inv_arcs(adj, s)) by {
        assert forall|w: int, j: int| 0 <= w < n && seen(s, w)
            && 0 <= j < s.cursor[w] implies #[trigger] explored_ok(
            adj,
            s,
            w,
            j,
        ) by {
            let b = adj[w][j] as int;
            assert(0 <= b < n);
            if t.path.len() > 0 && w == t.path.last() && j == t.cursor[w] {
                assert(is_open(t, t.path[t.path.len() - 1] as int));
                assert(seen(t, w));
            } else {
                assert(seen(t, w));
                assert(explored_ok(adj, t, w, j));
            }
        }
        assert forall|a: int, j: int| 0 <= a < n && assigned(s, a)
            && 0 <= j < adj[a].len() implies #[trigger] closed_ok(
            adj,
            s,
            a,
            j,
        ) by {
            assert(closed_ok(adj, t, a, j));
        }
        assert forall|i: int, w: int| 0 <= i < s.path.len() && 0 <= w < n implies #[trigger] segment_ok(
            s,
            i,
            w,
        ) by {
            if i < t.path.len() {
                assert(is_open(t, t.path[i] as int));
                assert(seen(t, t.path[i] as int));
                if w != v {
                    assert(segment_ok(t, i, w));
                    if i + 1 < t.path.len() {
                        assert(is_open(t, t.path[i + 1] as int));
                    }
                }
            } else {
                if w != v && is_open(s, w) {
                    assert(seen(t, w));
                }
            }
        }
    }
}


/// The smaller of two numbers.
pub open spec fn min_of(a: usize, b: usize) -> usize {
    if a <= b {
        a
    } else {
        b
    }
}

/// The trace after the visit has followed the next arc of the top of the
/// path to a node that it had entered before: where that node is open, the
/// low link of the top takes its number if that is smaller.
pub open spec fn followed(adj: Seq<Seq<usize>>, t: Trace) -> Trace {
    let u = t.path.last() as int;
    let b = adj[u][t.cursor[u] as int] as int;
    Trace {
        cursor: t.cursor.update(u, (t.cursor[u] + 1) as usize),
        low: if is_open(t, b) {
            t.low.update(u, min_of(t.low[u], t.index[b]))
        } else {
            t.low
        },
        ..t
    }
}

/// Following an arc to an entered node keeps the invariant.
pub proof fn lemma_follow(adj: Seq<Seq<usize>>, t: Trace)
    requires
        inv(adj, t),
        t.path.len() > 0,
        t.cursor[t.path.last() as int] < adj[t.path.last() as int].len(),
        seen(t, adj[t.path.last() as int][t.cursor[t.path.last() as int] as int] as int),
    ensures
        inv(adj, followed(adj, t)),
{
    let s = followed(adj, t);
    let n = adj.len();
    let top = t.path.len() - 1;
    let u = t.path.last() as int;
    let k = t.cursor[u] as int;
    let b = adj[u][k] as int;
    assert(t.path[top] < n && is_open(t, t.path[top] as int));
    assert(seen(t, u));
    assert(0 <= b < n);
    assert(forall|w: int| 0 <= w < n ==> seen(s, w) == seen(t, w) && assigned(s, w) == assigned(t, w));
    assert(forall|w: int| 0 <= w < n && w != u ==> s.low[w] == t.low[w] && s.cursor[w] == t.cursor[w]);
    assert(s.low[u] <= t.low[u]);
    assert(inv_tables(adj, s)) by {
        assert forall|w: int| 0 <= w < n && #[trigger] seen(s, w) implies s.index[w] < s.counter
            && s.cursor[w] <= adj[w].len() && s.low[w] <= s.index[w] && s.order[s.index[w] as int]
            == w by {
            assert(seen(t, w));
        }
        assert forall|w: int| 0 <= w < n && #[trigger] assigned(s, w) implies seen(s, w) && s.component[w]
            < s.emitted by {
            assert(assigned(t, w));
        }
    }
    assert(inv_open(adj, s)) by {
        assert forall|w: int| 0 <= w < n
            && is_open(s, w) implies (#[trigger] s.low[w]) >= s.index[s.open[0] as int] by {
            assert(t.low[w] >= t.index[t.open[0] as int]);
            if w == u && is_open(t, b) {
                assert(t.open.contains(b as usize));
                let i = choose|i: int| 0 <= i < t.open.len() && t.open[i] == b as usize;
                if i > 0 {
                    assert(t.index[t.open[0] as int] < t.index[t.open[i] as int]);
                }
            }
        }
    }
    assert(inv_path(adj, s)) by {
        assert forall|w: int|
            0 <= w < n && is_open(s, w) && !(#[trigger] s.path.contains(w as usize)) implies s.cursor[w]
            == adj[w].len() by {
            if w == u {
                assert(t.path[top] == w as usize);
            }
        }
    }
    assert(inv_arcs(adj, s)) by {
        assert forall|w: int, j: int| 0 <= w < n && seen(s, w)
            && 0 <= j < s.cursor[w] implies #[trigger] explored_ok(
            adj,
            s,
            w,
            j,
        ) by {
            if w == u && j == k {
            } else {
                assert(explored_ok(adj, t, w, j));
            }
        }
        assert forall|a: int, j: int| 0 <= a < n && assigned(s, a)
            && 0 <= j < adj[a].len() implies #[trigger] closed_ok(
            adj,
            s,
            a,
            j,
        ) by {
            assert(closed_ok(adj, t, a, j));
        }
        assert forall|i: int, w: int| 0 <= i < s.path.len() && 0 <= w < n implies #[trigger] segment_ok(
            s,
            i,
            w,
        ) by {
            assert(segment_ok(t, i, w));
            assert(is_open(t, t.path[i] as int));
            if w == u && i < top {
                // the top of the path lies in no segment below it
                assert(t.index[t.path[i] as int] < t.index[t.path[top] as int]);
                if i + 1 < top {
                    assert(t.index[t.path[i + 1] as int] < t.index[t.path[top] as int]);
                }
            }
        }
    }
}

/// The trace after the visit has left the top of the path, a node whose
/// low link is below its number: the node stays open, and the node below it
/// on the path takes its low link if that is smaller.
pub open spec fn left_open(t: Trace) -> Trace {
    let u = t.path.last() as int;
    let p = t.path[t.path.len() - 2] as int;
    Trace { path: t.path.drop_last(), low: t.low.update(p, min_of(t.low[p], t.low[u])), ..t }
}

/// Leaving a node that stays open keeps the invariant; such a node is not
/// the root of the visit.
pub proof fn lemma_leave_open(adj: Seq<Seq<usize>>, t: Trace)
    requires
        inv(adj, t),
        t.path.len() > 0,
        t.cursor[t.path.last() as int] == adj[t.path.last() as int].len(),
        t.low[t.path.last() as int] != t.index[t.path.last() as int],
    ensures
        t.path.len() >= 2,
        inv(adj, left_open(t)),
{
    let n = adj.len();
    let top = t.path.len() - 1;
    let u = t.path.last() as int;
    assert(t.path[top] < n && is_open(t, t.path[top] as int));
    assert(seen(t, u));
    assert(t.open.contains(u as usize));
    if t.path.len() < 2 {
        assert(t.path[0] == t.open[0]);
        assert(t.low[u] >= t.index[t.open[0] as int]);
        assert(false);
    }
    let s = left_open(t);
    let p = t.path[top - 1] as int;
    assert(t.path[top - 1] < n && is_open(t, t.path[top - 1] as int));
    assert(seen(t, p));
    assert(t.index[t.path[top - 1] as int] < t.index[t.path[top] as int]);
    assert(forall|w: int| 0 <= w < n ==> seen(s, w) == seen(t, w) && assigned(s, w) == assigned(t, w));
    assert(forall|w: int| 0 <= w < n && w != p ==> s.low[w] == t.low[w]);
    assert(s.low[p] <= t.low[p]);
    assert(inv_tables(adj, s)) by {
        assert forall|w: int| 0 <= w < n && #[trigger] seen(s, w) implies s.index[w] < s.counter
            && s.cursor[w] <= adj[w].len() && s.low[w] <= s.index[w] && s.order[s.index[w] as int]
            == w by {
            assert(seen(t, w));
        }
        assert forall|w: int| 0 <= w < n && #[trigger] assigned(s, w) implies seen(s, w) && s.component[w]
            < s.emitted by {
            assert(assigned(t, w));
        }
    }
    assert(inv_open(adj, s)) by {
        assert forall|w: int| 0 <= w < n
            && is_open(s, w) implies (#[trigger] s.low[w]) >= s.index[s.open[0] as int] by {
            assert(t.low[w] >= t.index[t.open[0] as int]);
            assert(t.low[u] >= t.index[t.open[0] as int]);
        }
    }
    assert(inv_path(adj, s)) by {
        assert forall|i: int| 0 <= i < s.path.len() implies (#[trigger] s.path[i]) < n && is_open(
            s,
            s.path[i] as int,
        ) by {
            assert(t.path[i] < n && is_open(t, t.path[i] as int));
        }
        assert forall|i: int, j: int| 0 <= i < j < s.path.len() implies s.index[#[trigger] s.path[i] as int]
            < s.index[#[trigger] s.path[j] as int] by {
            assert(t.index[t.path[i] as int] < t.index[t.path[j] as int]);
        }
        assert(t.path[0] == s.path[0]);
        assert forall|w: int|
            0 <= w < n && is_open(s, w) && !(#[trigger] s.path.contains(w as usize)) implies s.cursor[w]
            == adj[w].len() by {
            if w != u {
                if t.path.contains(w as usize) {
                    let i = choose|i: int| 0 <= i < t.path.len() && t.path[i] == w as usize;
                    assert(s.path[i] == w as usize);
                }
            }
        }
    }
    assert(inv_arcs(adj, s)) by {
        assert forall|w: int, j: int| 0 <= w < n && seen(s, w)
            && 0 <= j < s.cursor[w] implies #[trigger] explored_ok(
            adj,
            s,
            w,
            j,
        ) by {
            assert(explored_ok(adj, t, w, j));
        }
        assert forall|a: int, j: int| 0 <= a < n && assigned(s, a)
            && 0 <= j < adj[a].len() implies #[trigger] closed_ok(
            adj,
            s,
            a,
            j,
        ) by {
            assert(closed_ok(adj, t, a, j));
        }
        assert forall|i: int, w: int| 0 <= i < s.path.len() && 0 <= w < n implies #[trigger] segment_ok(
            s,
            i,
            w,
        ) by {
            assert(is_open(t, t.path[i] as int));
            if i < top - 1 {
                assert(segment_ok(t, i, w));
                assert(t.index[t.path[i] as int] < t.index[t.path[top - 1] as int]);
                assert(t.path[i] as int != p);
                assert(s.path[i + 1] == t.path[i + 1]);
                if i + 1 < top - 1 {
                    assert(t.index[t.path[i + 1] as int] < t.index[t.path[top - 1] as int]);
                }
            } else {
                // the segment of the new top: its old segment, the node
                // that was left, and the segment of that node
                assert(segment_ok(t, top - 1, w));
                assert(segment_ok(t, top, w));
                if is_open(t, w) && t.index[w] == t.index[u] {
                    assert(seen(t, w));
                    assert(t.order[t.index[w] as int] == w);
                    assert(t.order[t.index[u] as int] == u);
                }
            }
        }
    }
}


/// Node `w` is open and was entered no earlier than the top of the path.
pub open spec fn closes_with_top(t: Trace, w: int) -> bool {
    is_open(t, w) && t.index[w] >= t.index[t.path.last() as int]
}

/// The position of the top of the path on the stack of open nodes.
pub open spec fn top_position(t: Trace) -> int {
    choose|i: int| 0 <= i < t.open.len() && t.open[i] == t.path.last()
}

/// The trace after the visit has left the top of the path, a node whose
/// low link is its own number: the node and all open nodes that were
/// entered after it form the next component.
pub open spec fn closed(t: Trace) -> Trace {
    Trace {
        component: Seq::new(
            t.component.len(),
            |w: int|
                if closes_with_top(t, w) {
                    t.emitted as usize
                } else {
                    t.component[w]
                },
        ),
        open: t.open.subrange(0, top_position(t)),
        path: t.path.drop_last(),
        emitted: t.emitted + 1,
        roots: t.roots.push(t.path.last()),
        ..t
    }
}

/// Closing a component keeps the invariant.
pub proof fn lemma_close(adj: Seq<Seq<usize>>, t: Trace)
    requires
        inv(adj, t),
        t.path.len() > 0,
        t.cursor[t.path.last() as int] == adj[t.path.last() as int].len(),
        t.low[t.path.last() as int] == t.index[t.path.last() as int],
    ensures
        inv(adj, closed(t)),
        0 <= top_position(t) < t.open.len(),
        t.open[top_position(t)] == t.path.last(),
        forall|i: int| 0 <= i < t.open.len()
            ==> (i >= top_position(t) <==> closes_with_top(t, #[trigger] t.open[i] as int)),
{
    let s = closed(t);
    let n = adj.len();
    let top = t.path.len() - 1;
    let u = t.path.last() as int;
    lemma_counter_bound(adj, t);
    assert(t.path[top] < n && is_open(t, t.path[top] as int));
    assert(seen(t, u));
    assert(t.open.contains(u as usize));
    let pos = top_position(t);
    assert(0 <= pos < t.open.len() && t.open[pos] == u as usize);
    assert forall|i: int| 0 <= i < t.open.len() implies (i >= pos <==> closes_with_top(
        t,
        #[trigger] t.open[i] as int,
    )) by {
        assert(is_open(t, t.open[i] as int));
        if i < pos {
            assert(t.index[t.open[i] as int] < t.index[t.open[pos] as int]);
        } else if i > pos {
            assert(t.index[t.open[pos] as int] < t.index[t.open[i] as int]);
        }
    }
    assert(forall|w: int| 0 <= w < n ==> seen(s, w) == seen(t, w));
    assert(forall|w: int| 0 <= w < n ==> (assigned(s, w) <==> assigned(t, w) || closes_with_top(t, w)));
    assert(forall|w: int| 0 <= w < n ==> (is_open(s, w) <==> is_open(t, w) && t.index[w] < t.index[u]));
    assert(inv_tables(adj, s)) by {
        assert forall|w: int| 0 <= w < n && #[trigger] seen(s, w) implies s.index[w] < s.counter
            && s.cursor[w] <= adj[w].len() && s.low[w] <= s.index[w] && s.order[s.index[w] as int]
            == w by {
            assert(seen(t, w));
        }
        assert forall|w: int| 0 <= w < n && #[trigger] assigned(s, w) implies seen(s, w) && s.component[w]
            < s.emitted by {
            if assigned(t, w) {
            }
        }
        assert forall|c: int| 0 <= c < s.emitted implies (#[trigger] s.roots[c]) < n
            && s.component[s.roots[c] as int]
            == c by {
            if c < t.emitted {
                assert(t.roots[c] < n && t.component[t.roots[c] as int] == c);
                assert(assigned(t, t.roots[c] as int));
            } else {
                assert(closes_with_top(t, u));
            }
        }
    }
    assert(inv_open(adj, s)) by {
        assert forall|i: int| 0 <= i < s.open.len() implies (#[trigger] s.open[i]) < n && is_open(
            s,
            s.open[i] as int,
        ) by {
            assert(t.open[i] < n && is_open(t, t.open[i] as int));
            assert(!closes_with_top(t, t.open[i] as int));
        }
        assert forall|i: int, j: int| 0 <= i < j < s.open.len() implies s.index[#[trigger] s.open[i] as int]
            < s.index[#[trigger] s.open[j] as int] by {
            assert(t.index[t.open[i] as int] < t.index[t.open[j] as int]);
        }
        assert forall|w: int| 0 <= w < n && is_open(s, w) implies #[trigger] s.open.contains(w as usize) by {
            assert(t.open.contains(w as usize));
            let i = choose|i: int| 0 <= i < t.open.len() && t.open[i] == w as usize;
            assert(!closes_with_top(t, t.open[i] as int));
            assert(s.open[i] == w as usize);
        }
        assert forall|w: int| 0 <= w < n
            && is_open(s, w) implies (#[trigger] s.low[w]) >= s.index[s.open[0] as int] by {
            assert(t.low[w] >= t.index[t.open[0] as int]);
            assert(t.open.contains(w as usize));
            let i = choose|i: int| 0 <= i < t.open.len() && t.open[i] == w as usize;
            assert(!closes_with_top(t, t.open[i] as int));
            assert(s.open[0] == t.open[0]);
        }
    }
    assert(inv_path(adj, s)) by {
        assert forall|i: int| 0 <= i < s.path.len() implies (#[trigger] s.path[i]) < n && is_open(
            s,
            s.path[i] as int,
        ) by {
            assert(t.path[i] < n && is_open(t, t.path[i] as int));
            assert(t.index[t.path[i] as int] < t.index[t.path[top] as int]);
        }
        assert forall|i: int, j: int| 0 <= i < j < s.path.len() implies s.index[#[trigger] s.path[i] as int]
            < s.index[#[trigger] s.path[j] as int] by {
            assert(t.index[t.path[i] as int] < t.index[t.path[j] as int]);
        }
        if s.open.len() > 0 {
            assert(s.open[0] == t.open[0]);
            assert(!closes_with_top(t, t.open[0] as int));
            assert(t.path[0] == t.open[0]);
            assert(s.path[0] == t.path[0]);
        }
        assert forall|w: int|
            0 <= w < n && is_open(s, w) && !(#[trigger] s.path.contains(w as usize)) implies s.cursor[w]
            == adj[w].len() by {
            if t.path.contains(w as usize) {
                let i = choose|i: int| 0 <= i < t.path.len() && t.path[i] == w as usize;
                assert(s.path[i] == w as usize);
            }
        }
    }
    assert(inv_arcs(adj, s)) by {
        assert forall|w: int, j: int| 0 <= w < n && seen(s, w)
            && 0 <= j < s.cursor[w] implies #[trigger] explored_ok(
            adj,
            s,
            w,
            j,
        ) by {
            assert(explored_ok(adj, t, w, j));
            assert(adj[w][j] < n);
        }
        assert forall|a: int, j: int| 0 <= a < n && assigned(s, a)
            && 0 <= j < adj[a].len() implies #[trigger] closed_ok(
            adj,
            s,
            a,
            j,
        ) by {
            let b = adj[a][j] as int;
            assert(0 <= b < n);
            if assigned(t, a) {
                assert(closed_ok(adj, t, a, j));
                assert(assigned(t, b));
            } else {
                assert(closes_with_top(t, a));
                assert(seen(t, a));
                if a != u {
                    if t.path.contains(a as usize) {
                        let i = choose|i: int| 0 <= i < t.path.len() && t.path[i] == a as usize;
                        if i < top {
                            assert(t.index[t.path[i] as int] < t.index[t.path[top] as int]);
                        }
                    }
                    assert(segment_ok(t, top, a));
                    if t.index[a] == t.index[u] {
                        assert(t.order[t.index[a] as int] == a);
                        assert(t.order[t.index[u] as int] == u);
                    }
                }
                assert(t.cursor[a] == adj[a].len());
                assert(explored_ok(adj, t, a, j));
                assert(t.low[a] >= t.index[u]);
                if assigned(t, b) {
                    assert(t.component[b] < t.emitted);
                } else {
                    assert(is_open(t, b));
                    assert(closes_with_top(t, b));
                }
            }
        }
        assert forall|i: int, w: int| 0 <= i < s.path.len() && 0 <= w < n implies #[trigger] segment_ok(
            s,
            i,
            w,
        ) by {
            assert(segment_ok(t, i, w));
            assert(is_open(t, t.path[i] as int));
            assert(s.path[i] == t.path[i]);
            if i + 1 < s.path.len() {
                assert(s.path[i + 1] == t.path[i + 1]);
            }
        }
    }
}

/// One arc more followed from the top of the path is one unit of work
/// less.
pub proof fn lemma_work_left_step(adj: Seq<Seq<usize>>, t: Trace, cursor: Seq<usize>)
    requires
        inv(adj, t),
        t.path.len() > 0,
        cursor == t.cursor.update(
            t.path.last() as int,
            (t.cursor[t.path.last() as int] + 1) as usize,
        ),
        t.cursor[t.path.last() as int] < adj[t.path.last() as int].len(),
        adj[t.path.last() as int].len() <= usize::MAX,
    ensures
        work_left(adj, t.path, cursor) == work_left(adj, t.path, t.cursor) - 1,
{
    let top = t.path.len() - 1;
    let u = t.path.last() as int;
    assert(t.path[top] < adj.len());
    assert(t.path[top] == t.path.last());
    assert forall|i: int| 0 <= i < t.path.drop_last().len() implies cursor[
    #[trigger] t.path.drop_last()[i] as int] == t.cursor[t.path.drop_last()[i] as int] by {
        assert(t.path.drop_last()[i] == t.path[i]);
        assert(t.path[i] < adj.len());
        assert(t.index[t.path[i] as int] < t.index[t.path[top] as int]);
    }
    lemma_work_left_frame(adj, t.path.drop_last(), cursor, t.cursor);
    assert(cursor[u] == t.cursor[u] + 1);
    assert(work_left(adj, t.path, cursor) == work_left(adj, t.path.drop_last(), cursor)
        + adj[u].len() - cursor[u] + 1);
    assert(work_left(adj, t.path, t.cursor) == work_left(adj, t.path.drop_last(), t.cursor)
        + adj[u].len() - t.cursor[u] + 1);
}

/// The strongly connected components of `graph` by Tarjan's algorithm.
///
/// Every arc leads from a component to itself or to a component with a
/// larger index: the component that closed first has the largest index.
pub fn tarjan(graph: &Graph) -> (sccs: BasicSccs)
    requires
        graph.wf(),
    ensures
        sccs.wf(),
        sccs.components().len() == graph@.len(),
        graph@.len() == 0 ==> sccs.spec_num_components() == 0,
        sccs.inhabited(),
        crate::algo::sccs::basic::in_topological_order(sccs.components(), graph@),
        is_scc_table(sccs.components(), graph@),
{
    let n: usize = graph.num_nodes();
    let ghost adj = graph@;
    let mut index: Vec<usize> = vec![NONE; n];
    let mut low: Vec<usize> = vec![0usize; n];
    let mut component: Vec<usize> = vec![NONE; n];
    let mut cursor: Vec<usize> = vec![0usize; n];
    let mut open: Vec<usize> = Vec::new();
    let mut path: Vec<usize> = Vec::new();
    let mut counter: usize = 0;
    let mut emitted: usize = 0;
    let ghost mut order: Seq<usize> = Seq::empty();
    let ghost mut roots: Seq<usize> = Seq::empty();
    proof {
        graph.lemma_wf();
        lemma_walks_begin(
            adj,
            Trace {
                index: index@,
                low: low@,
                component: component@,
                cursor: cursor@,
                open: open@,
                path: path@,
                counter: counter as nat,
                emitted: emitted as nat,
                order,
                roots,
            },
        );
    }
    let mut root: usize = 0;
    while root < n
        invariant
            root <= n,
            n == adj.len(),
            adj == graph@,
            path@.len() == 0,
            inv(
                adj,
                Trace {
                    index: index@,
                    low: low@,
                    component: component@,
                    cursor: cursor@,
                    open: open@,
                    path: path@,
                    counter: counter as nat,
                    emitted: emitted as nat,
                    order,
                    roots,
                },
            ),
            inv_walks(
                adj,
                Trace {
                    index: index@,
                    low: low@,
                    component: component@,
                    cursor: cursor@,
                    open: open@,
                    path: path@,
                    counter: counter as nat,
                    emitted: emitted as nat,
                    order,
                    roots,
                },
            ),
            forall|v: int| 0 <= v < root ==> index@[v] != NONE,
        decreases n - root,
    {
        if index[root] == NONE {
            let ghost t = Trace {
                index: index@,
                low: low@,
                component: component@,
                cursor: cursor@,
                open: open@,
                path: path@,
                counter: counter as nat,
                emitted: emitted as nat,
                order,
                roots,
            };
            proof {
                lemma_enter(adj, t, root as int);
                lemma_enter_walks(adj, t, root as int);
                lemma_counter_bound(adj, entered(adj, t, root as int));
            }
            index.set(root, counter);
            low.set(root, counter);
            cursor.set(root, 0);
            open.push(root);
            path.push(root);
            counter = counter + 1;
            proof {
                order = order.push(root);
            }
            while path.len() > 0
                invariant
                    n == adj.len(),
                    adj == graph@,
                    root < n,
                    inv(
                        adj,
                        Trace {
                            index: index@,
                            low: low@,
                            component: component@,
                            cursor: cursor@,
                            open: open@,
                            path: path@,
                            counter: counter as nat,
                            emitted: emitted as nat,
                            order,
                            roots,
                        },
                    ),
                    inv_walks(
                        adj,
                        Trace {
                            index: index@,
                            low: low@,
                            component: component@,
                            cursor: cursor@,
                            open: open@,
                            path: path@,
                            counter: counter as nat,
                            emitted: emitted as nat,
                            order,
                            roots,
                        },
                    ),
                    forall|v: int| 0 <= v <= root ==> index@[v] != NONE,
                decreases n - counter, work_left(adj, path@, cursor@),
            {
                let ghost t = Trace {
                    index: index@,
                    low: low@,
                    component: component@,
                    cursor: cursor@,
                    open: open@,
                    path: path@,
                    counter: counter as nat,
                    emitted: emitted as nat,
                    order,
                    roots,
                };
                proof {
                    lemma_counter_bound(adj, t);
                    assert forall|i: int| 0 <= i < path@.len() implies cursor@[
                    #[trigger] path@[i] as int] <= adj[path@[i] as int].len() by {
                        assert(t.path[i] < n && is_open(t, t.path[i] as int));
                        assert(seen(t, t.path[i] as int));
                    }
                    lemma_work_left_positive(adj, path@, cursor@);
                    assert(t.path[t.path.len() - 1] < n && is_open(t, t.path[t.path.len() - 1] as int));
                    assert(seen(t, t.path.last() as int));
                }
                let u: usize = path[path.len() - 1];
                let k: usize = cursor[u];
                let successors: &Vec<usize> = graph.successors(u);
                if k < successors.len() {
                    let v: usize = successors[k];
                    assert(v < n) by {
                        assert(adj[u as int][k as int] < adj.len());
                    }
                    cursor.set(u, k + 1);
                    if index[v] == NONE {
                        proof {
                            lemma_enter(adj, t, v as int);
                            lemma_enter_walks(adj, t, v as int);
                            lemma_counter_bound(adj, entered(adj, t, v as int));
                        }
                        index.set(v, counter);
                        low.set(v, counter);
                        cursor.set(v, 0);
                        open.push(v);
                        path.push(v);
                        counter = counter + 1;
                        proof {
                            order = order.push(v);
                        }
                    } else {
                        proof {
                            assert(adj[u as int].len() == successors@.len());
                            lemma_follow(adj, t);
                            lemma_follow_walks(adj, t);
                            lemma_work_left_step(adj, t, cursor@);
                        }
                        if component[v] == NONE {
                            let reached: usize = index[v];
                            if reached < low[u] {
                                low.set(u, reached);
                            }
                        }
                        proof {
                            let s = followed(adj, t);
                            assert(low@ =~= s.low);
                            assert(cursor@ =~= s.cursor);
                        }
                    }
                } else {
                    let _ = path.pop();
                    if low[u] == index[u] {
                        proof {
                            lemma_close(adj, t);
                            lemma_close_walks(adj, t);
                        }
                        let ghost pos = top_position(t);
                        loop
                            invariant_except_break
                                open@.len() > pos,
                            invariant
                                0 <= pos < t.open.len(),
                                t.open[pos] == u,
                                n == adj.len(),
                                component@.len() == n,
                                inv(adj, t),
                                open@.len() <= t.open.len(),
                                open@ == t.open.subrange(0, open@.len() as int),
                                forall|x: int|
                                    0 <= x < n ==> #[trigger] component@[x] == (if exists|i: int|
                                        open@.len() <= i < t.open.len() && t.open[i] == x {
                                        emitted
                                    } else {
                                        t.component[x]
                                    }),
                            ensures
                                open@.len() == pos,
                            decreases open@.len(),
                        {
                            let ghost previous = component@;
                            let ghost m = open@.len() - 1;
                            let w: usize = open.pop().unwrap();
                            assert(w == t.open[m]);
                            assert(t.open[m] < n);
                            component.set(w, emitted);
                            proof {
                                assert(open@ =~= t.open.subrange(0, m));
                                assert forall|x: int| 0 <= x < n implies #[trigger] component@[x] == (if exists|
                                    i: int,
                                |
                                    m <= i < t.open.len() && t.open[i] == x {
                                    emitted
                                } else {
                                    t.component[x]
                                }) by {
                                    if x == w {
                                        assert(t.open[m] == x);
                                    } else {
                                        if exists|i: int| m <= i < t.open.len() && t.open[i] == x {
                                            let i = choose|i: int|
                                                m <= i < t.open.len() && t.open[i] == x;
                                            assert(m + 1 <= i < t.open.len() && t.open[i] == x);
                                        }
                                    }
                                }
                            }
                            if w == u {
                                proof {
                                    if m != pos {
                                        assert(t.index[t.open[pos] as int] < t.index[t.open[m] as int]);
                                    }
                                }
                                break ;
                            }
                            proof {
                                if m == pos {
                                    assert(false);
                                }
                            }
                        }
                        emitted = emitted + 1;
                        proof {
                            roots = roots.push(u);
                            let s = closed(t);
                            lemma_counter_bound(adj, s);
                            assert(component@ =~= s.component) by {
                                assert forall|x: int| 0 <= x < n implies component@[x]
                                    == s.component[x] by {
                                    if closes_with_top(t, x) {
                                        assert(t.open.contains(x as usize));
                                        let i = choose|i: int|
                                            0 <= i < t.open.len() && t.open[i] == x as usize;
                                        assert(closes_with_top(t, t.open[i] as int));
                                        assert(pos <= i < t.open.len() && t.open[i] == x);
                                    } else {
                                        if exists|i: int| pos <= i < t.open.len() && t.open[i] == x {
                                            let i = choose|i: int|
                                                pos <= i < t.open.len() && t.open[i] == x;
                                            assert(closes_with_top(t, t.open[i] as int));
                                        }
                                    }
                                }
                            }
                            assert(path@ =~= s.path);
                        }
                    } else {
                        proof {
                            lemma_leave_open(adj, t);
                            lemma_leave_open_walks(adj, t);
                        }
                        let p: usize = path[path.len() - 1];
                        assert(p < n) by {
                            assert(t.path[t.path.len() - 2] < n);
                        }
                        if low[u] < low[p] {
                            let reached: usize = low[u];
                            low.set(p, reached);
                        }
                        proof {
                            let s = left_open(t);
                            assert(low@ =~= s.low);
                            assert(path@ =~= s.path);
                        }
                    }
                }
            }
        }
        root += 1;
    }
    let ghost t = Trace {
        index: index@,
        low: low@,
        component: component@,
        cursor: cursor@,
        open: open@,
        path: path@,
        counter: counter as nat,
        emitted: emitted as nat,
        order,
        roots,
    };
    proof {
        lemma_counter_bound(adj, t);
        assert forall|w: int| 0 <= w < n implies (#[trigger] t.component[w]) < emitted by {
            if !assigned(t, w) {
                assert(seen(t, w));
                assert(is_open(t, w));
                assert(t.open.contains(w as usize));
            }
            assert(assigned(t, w));
        }
        if n == 0 {
            assert(t.order.len() == 0);
        }
    }
    let mut v: usize = 0;
    while v < n
        invariant
            v <= n,
            n == adj.len(),
            component@.len() == n,
            t.component.len() == n,
            t.roots.len() == emitted,
            forall|c: int|
                0 <= c < emitted ==> (#[trigger] t.roots[c]) < n && t.component[t.roots[c] as int]
                    == c,
            forall|w: int| 0 <= w < n ==> (#[trigger] t.component[w]) < emitted,
            forall|w: int| 0 <= w < v ==> component@[w] == emitted - 1 - t.component[w],
            forall|w: int| v <= w < n ==> component@[w] == t.component[w],
        decreases n - v,
    {
        let closing: usize = component[v];
        assert(t.component[v as int] < emitted);
        component.set(v, emitted - 1 - closing);
        v += 1;
    }
    proof {
        assert forall|c: int| 0 <= c < emitted implies #[trigger] crate::algo::sccs::basic::has_member(
            component@,
            c,
        ) by {
            let w = t.roots[emitted - 1 - c] as int;
            assert(t.roots[emitted - 1 - c] < n);
            assert(component@[w] == c);
        }
        assert forall|u: int, j: int| 0 <= u < adj.len() && 0 <= j < adj[u].len() implies component@[u]
            <= component@[#[trigger] adj[u][j] as int] by {
            assert(t.component[u] < emitted);
            assert(assigned(t, u));
            assert(closed_ok(adj, t, u, j));
            assert(adj[u][j] < n);
            assert(t.component[adj[u][j] as int] < emitted);
        }
        assert forall|a: int, b: int| 0 <= a < n && 0 <= b < n implies (component@[a] == component@[b]
            <==> #[trigger] strongly_connected(adj, a, b)) by {
            assert(t.component[a] < emitted && t.component[b] < emitted);
            if component@[a] == component@[b] {
                lemma_walks_end(adj, t, a, b);
            }
            if strongly_connected(adj, a, b) {
                lemma_connected_together(component@, adj, a, b);
            }
        }
    }
    BasicSccs::new(emitted, component)
}

} // verus!
