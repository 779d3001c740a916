//! How the times at which a depth-first visit enters and leaves the nodes
//! nest.
//!
//! A node that is entered after a node `a` and no later than a node that
//! was left before `a` is itself left before `a`. And a node `a` reaches
//! every node that it encloses: every node that was entered no earlier
//! than `a` and left no later.
use crate::algo::visits::depth_first::{
    after_enter, after_leave, after_skip, encloses, entered, fresh, left, on_path, tables_wf,
    Tables,
};
use crate::graph::{
    has_arc, lemma_reaches_by_arc, lemma_reaches_further, lemma_reaches_itself, reaches,
};
use vstd::prelude::*;

verus! {

/// Node `b` was left before node `a`.
pub open spec fn left_before(t: Tables, b: int, a: int) -> bool {
    left(t, b) && t.completion[b] < t.completion[a]
}

/// Where `b` was entered after `a` and no later than `c`, which was left
/// before `a`, `b` was left before `a` too.
pub open spec fn nested(t: Tables, a: int, b: int, c: int) -> bool {
    entered(t, b) && left(t, a) && left(t, c) && t.discovery[a] < t.discovery[b] <= t.discovery[c]
        && t.completion[c] < t.completion[a] ==> left_before(t, b, a)
}

/// Where `a` encloses `b`, it reaches `b`.
pub open spec fn enclosed_reached(adj: Seq<Seq<usize>>, t: Tables, a: int, b: int) -> bool {
    entered(t, a) && entered(t, b) && encloses(t, a, b) ==> reaches(adj, a, b)
}

/// The times of entering and leaving nest, and a node reaches what it
/// encloses.
#[verifier::opaque]
pub open spec fn nesting_ok(adj: Seq<Seq<usize>>, t: Tables) -> bool {
    let n = adj.len();
    &&& forall|a: int, b: int, c: int|
        0 <= a < n && 0 <= b < n && 0 <= c < n ==> #[trigger] nested(t, a, b, c)
    &&& forall|a: int, b: int| 0 <= a < n && 0 <= b < n ==> #[trigger] enclosed_reached(adj, t, a, b)
}

/// What the nesting says of three nodes.
pub proof fn lemma_nested(adj: Seq<Seq<usize>>, t: Tables, a: int, b: int, c: int)
    requires
        nesting_ok(adj, t),
        0 <= a < adj.len(),
        0 <= b < adj.len(),
        0 <= c < adj.len(),
    ensures
        nested(t, a, b, c),
{
    reveal(nesting_ok);
}

/// What the nesting says of two nodes.
pub proof fn lemma_enclosed_reached(adj: Seq<Seq<usize>>, t: Tables, a: int, b: int)
    requires
        nesting_ok(adj, t),
        0 <= a < adj.len(),
        0 <= b < adj.len(),
    ensures
        enclosed_reached(adj, t, a, b),
{
    reveal(nesting_ok);
}

/// Tables in which no node is entered nest.
pub proof fn lemma_nesting_fresh(adj: Seq<Seq<usize>>)
    ensures
        nesting_ok(adj, fresh(adj.len())),
{
    reveal(nesting_ok);
}

/// Following an arc without entering its target leaves the nesting alone.
pub proof fn lemma_nesting_skip(adj: Seq<Seq<usize>>, t: Tables, closes: bool)
    requires
        nesting_ok(adj, t),
    ensures
        nesting_ok(adj, after_skip(t, closes)),
{
    reveal(nesting_ok);
    let s = after_skip(t, closes);
    assert forall|a: int, b: int, c: int|
        0 <= a < adj.len() && 0 <= b < adj.len() && 0 <= c < adj.len() implies #[trigger] nested(
        s,
        a,
        b,
        c,
    ) by {
        assert(nested(t, a, b, c));
    }
    assert forall|a: int, b: int| 0 <= a < adj.len()
        && 0 <= b < adj.len() implies #[trigger] enclosed_reached(
        adj,
        s,
        a,
        b,
    ) by {
        assert(enclosed_reached(adj, t, a, b));
    }
}

/// A node that is entered and not left is on the path, no later than its
/// top.
proof fn lemma_below_top(adj: Seq<Seq<usize>>, t: Tables, a: int)
    requires
        tables_wf(adj, t),
        0 <= a < adj.len(),
        on_path(t, a),
    ensures
        t.path.len() > 0,
        t.path.last() < adj.len(),
        on_path(t, t.path.last() as int),
        t.discovery[a] <= t.discovery[t.path.last() as int],
{
    assert(t.path.contains(a as usize));
    let i = choose|i: int| 0 <= i < t.path.len() && t.path[i] == a as usize;
    let top = t.path.len() - 1;
    assert(t.path[top] < adj.len() && on_path(t, t.path[top] as int));
    if i < top {
        assert(t.discovery[t.path[i] as int] < t.discovery[t.path[top] as int]);
    }
}

/// Entering a node keeps the nesting.
pub proof fn lemma_nesting_enter(adj: Seq<Seq<usize>>, t: Tables, v: int)
    requires
        tables_wf(adj, t),
        nesting_ok(adj, t),
        0 <= v < adj.len(),
        !entered(t, v),
        t.path.len() > 0 ==> has_arc(adj, t.path.last() as int, v),
    ensures
        nesting_ok(adj, after_enter(t, v)),
{
    reveal(nesting_ok);
    let s = after_enter(t, v);
    let n = adj.len();
    assert(!left(t, v));
    assert(forall|w: int|
        0 <= w < n && w != v ==> entered(s, w) == entered(t, w) && s.discovery[w] == t.discovery[w]);
    assert(forall|w: int| 0 <= w < n ==> left(s, w) == left(t, w) && s.completion[w] == t.completion[w]);
    assert(s.discovery[v] == t.preorder.len());
    assert forall|w: int| 0 <= w < n && entered(t, w) implies t.discovery[w] < t.preorder.len() by {}
    assert forall|a: int, b: int, c: int| 0 <= a < n && 0 <= b < n && 0 <= c < n implies #[trigger] nested(
        s,
        a,
        b,
        c,
    ) by {
        assert(nested(t, a, b, c));
        if left(s, a) && left(s, c) {
            assert(entered(t, a) && entered(t, c));
        }
    }
    assert forall|a: int, b: int| 0 <= a < n && 0 <= b < n implies #[trigger] enclosed_reached(
        adj,
        s,
        a,
        b,
    ) by {
        if entered(s, a) && entered(s, b) && encloses(s, a, b) {
            if b == v {
                if a == v {
                    lemma_reaches_itself(adj, v);
                } else {
                    lemma_below_top(adj, t, a);
                    let u = t.path.last() as int;
                    assert(enclosed_reached(adj, t, a, u));
                    lemma_reaches_by_arc(adj, u, v);
                    lemma_reaches_further(adj, a, u, v);
                }
            } else {
                assert(a != v);
                assert(enclosed_reached(adj, t, a, b));
            }
        }
    }
}

/// Leaving the top of the path keeps the nesting.
pub proof fn lemma_nesting_leave(adj: Seq<Seq<usize>>, t: Tables)
    requires
        tables_wf(adj, t),
        nesting_ok(adj, t),
        t.path.len() > 0,
    ensures
        nesting_ok(adj, after_leave(t)),
{
    reveal(nesting_ok);
    let s = after_leave(t);
    let n = adj.len();
    let top = t.path.len() - 1;
    let u = t.path.last() as int;
    assert(t.path[top] < n && on_path(t, t.path[top] as int));
    assert(forall|w: int|
        0 <= w < n ==> entered(s, w) == entered(t, w) && s.discovery[w] == t.discovery[w]);
    assert(forall|w: int|
        0 <= w < n && w != u ==> left(s, w) == left(t, w) && s.completion[w] == t.completion[w]);
    assert(left(s, u) && s.completion[u] == t.postorder.len());
    assert forall|w: int| 0 <= w < n && left(t, w) implies t.completion[w] < t.postorder.len() by {}
    // a node that was entered after the top of the path is left
    assert forall|w: int| 0 <= w < n && entered(t, w) && t.discovery[u] < t.discovery[w] implies left(
        t,
        w,
    ) by {
        if !left(t, w) {
            lemma_below_top(adj, t, w);
        }
    }
    assert forall|a: int, b: int, c: int| 0 <= a < n && 0 <= b < n && 0 <= c < n implies #[trigger] nested(
        s,
        a,
        b,
        c,
    ) by {
        assert(nested(t, a, b, c));
    }
    assert forall|a: int, b: int| 0 <= a < n && 0 <= b < n implies #[trigger] enclosed_reached(
        adj,
        s,
        a,
        b,
    ) by {
        assert(enclosed_reached(adj, t, a, b));
    }
}

} // verus!
