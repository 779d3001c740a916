//! Distances in a graph: the number of arcs of the shortest walks, and the
//! eccentricity of a node, which is the largest distance from it to a node
//! that it reaches.
use crate::graph::{has_arc, holds_reversed, is_walk, reaches, turned};
use vstd::prelude::*;

verus! {

/// A walk with at most `k` arcs leads from `u` to `v`.
#[verifier::opaque]
pub open spec fn within(adj: Seq<Seq<usize>>, u: int, v: int, k: int) -> bool {
    exists|w: Seq<int>| #[trigger] is_walk(adj, w) && w[0] == u && w.last() == v && w.len() - 1 <= k
}

/// The shortest walk from `u` to `v` has `d` arcs.
pub open spec fn is_distance(adj: Seq<Seq<usize>>, u: int, v: int, d: int) -> bool {
    within(adj, u, v, d) && !within(adj, u, v, d - 1)
}

/// Every node that `u` reaches is within `h` arcs of it.
pub open spec fn ecc_at_most(adj: Seq<Seq<usize>>, u: int, h: int) -> bool {
    forall|v: int| 0 <= v < adj.len() && #[trigger] reaches(adj, u, v) ==> within(adj, u, v, h)
}

/// Node `v` is reached from `u`, and not with fewer than `l` arcs.
pub open spec fn is_far(adj: Seq<Seq<usize>>, u: int, v: int, l: int) -> bool {
    0 <= v < adj.len() && reaches(adj, u, v) && !within(adj, u, v, l - 1)
}

/// Some node that `u` reaches is not within fewer than `l` arcs of it.
pub open spec fn ecc_at_least(adj: Seq<Seq<usize>>, u: int, l: int) -> bool {
    exists|v: int| #[trigger] is_far(adj, u, v, l)
}

/// The eccentricity of `u` is `e`: the largest distance from `u` to a node
/// that it reaches.
pub open spec fn is_eccentricity(adj: Seq<Seq<usize>>, u: int, e: int) -> bool {
    ecc_at_most(adj, u, e) && ecc_at_least(adj, u, e)
}

/// A node is within no arcs of itself.
pub proof fn lemma_within_itself(adj: Seq<Seq<usize>>, u: int, k: int)
    requires
        0 <= u < adj.len(),
        0 <= k,
    ensures
        within(adj, u, u, k),
{
    reveal(within);
    let w = seq![u];
    assert(is_walk(adj, w) && w[0] == u && w.last() == u);
}

/// No walk has fewer than no arcs, and a walk without arcs stays where it
/// is.
pub proof fn lemma_within_none(adj: Seq<Seq<usize>>, u: int, v: int, k: int)
    requires
        within(adj, u, v, k),
    ensures
        0 <= k,
        k == 0 ==> u == v,
        0 <= u < adj.len(),
        0 <= v < adj.len(),
{
    reveal(within);
    let w = choose|w: Seq<int>| #[trigger]
        is_walk(adj, w) && w[0] == u && w.last() == v && w.len() - 1 <= k;
    assert(0 <= w[0] < adj.len());
    assert(0 <= w[w.len() - 1] < adj.len());
}

/// What is within `k` arcs is within more.
pub proof fn lemma_within_more(adj: Seq<Seq<usize>>, u: int, v: int, k: int, m: int)
    requires
        within(adj, u, v, k),
        k <= m,
    ensures
        within(adj, u, v, m),
{
    reveal(within);
    let w = choose|w: Seq<int>| #[trigger]
        is_walk(adj, w) && w[0] == u && w.last() == v && w.len() - 1 <= k;
    assert(is_walk(adj, w) && w[0] == u && w.last() == v && w.len() - 1 <= m);
}

/// One arc more leads one arc further.
pub proof fn lemma_within_step(adj: Seq<Seq<usize>>, u: int, p: int, v: int, k: int)
    requires
        within(adj, u, p, k),
        has_arc(adj, p, v),
        0 <= v < adj.len(),
    ensures
        within(adj, u, v, k + 1),
{
    reveal(within);
    let a = choose|w: Seq<int>| #[trigger]
        is_walk(adj, w) && w[0] == u && w.last() == p && w.len() - 1 <= k;
    let w = a.push(v);
    assert forall|i: int| 0 <= i < w.len() implies 0 <= #[trigger] w[i] < adj.len() by {
        if i < a.len() {
            assert(w[i] == a[i]);
        }
    }
    assert forall|i: int| 0 <= i < w.len() - 1 implies has_arc(adj, #[trigger] w[i], w[i + 1]) by {
        assert(w[i] == a[i]);
        if i + 1 < a.len() {
            assert(w[i + 1] == a[i + 1]);
            assert(has_arc(adj, a[i], a[i + 1]));
        }
    }
    assert(is_walk(adj, w) && w[0] == u && w.last() == v && w.len() - 1 <= k + 1);
}

/// A walk to another node comes through an arc from a node that is one
/// arc closer.
pub proof fn lemma_within_last_arc(adj: Seq<Seq<usize>>, u: int, v: int, k: int) -> (p: int)
    requires
        within(adj, u, v, k),
        u != v,
    ensures
        within(adj, u, p, k - 1),
        has_arc(adj, p, v),
{
    reveal(within);
    let w = choose|w: Seq<int>| #[trigger]
        is_walk(adj, w) && w[0] == u && w.last() == v && w.len() - 1 <= k;
    let a = w.drop_last();
    assert(w.len() >= 2);
    assert forall|i: int| 0 <= i < a.len() implies 0 <= #[trigger] a[i] < adj.len() by {
        assert(a[i] == w[i]);
    }
    assert forall|i: int| 0 <= i < a.len() - 1 implies has_arc(adj, #[trigger] a[i], a[i + 1]) by {
        assert(a[i] == w[i] && a[i + 1] == w[i + 1]);
        assert(has_arc(adj, w[i], w[i + 1]));
    }
    let p = w[w.len() - 2];
    assert(a[0] == w[0]);
    assert(a.last() == p);
    assert(is_walk(adj, a) && a[0] == u && a.last() == p && a.len() - 1 <= k - 1);
    assert(has_arc(adj, w[w.len() - 2], w[w.len() - 2 + 1]));
    p
}

/// What is within some number of arcs is reached.
pub proof fn lemma_within_reaches(adj: Seq<Seq<usize>>, u: int, v: int, k: int)
    requires
        within(adj, u, v, k),
    ensures
        reaches(adj, u, v),
{
    reveal(within);
    reveal(reaches);
}

/// What is reached is within some number of arcs.
pub proof fn lemma_reaches_within(adj: Seq<Seq<usize>>, u: int, v: int) -> (k: int)
    requires
        reaches(adj, u, v),
    ensures
        0 <= k,
        within(adj, u, v, k),
{
    reveal(within);
    reveal(reaches);
    let w = choose|w: Seq<int>| #[trigger] is_walk(adj, w) && w[0] == u && w.last() == v;
    assert(is_walk(adj, w) && w[0] == u && w.last() == v && w.len() - 1 <= w.len() - 1);
    w.len() - 1
}

/// Two walks, one after the other, have the arcs of both.
pub proof fn lemma_within_join(adj: Seq<Seq<usize>>, u: int, v: int, x: int, a: int, b: int)
    requires
        within(adj, u, v, a),
        within(adj, v, x, b),
    ensures
        within(adj, u, x, a + b),
    decreases b,
{
    lemma_within_none(adj, v, x, b);
    if v == x {
        lemma_within_more(adj, u, v, a, a + b);
    } else {
        let p = lemma_within_last_arc(adj, v, x, b);
        lemma_within_join(adj, u, v, p, a, b - 1);
        lemma_within_step(adj, u, p, x, a + b - 1);
    }
}

/// Where a graph holds the arcs of another turned round, its walks back
/// are as short as the walks of the other.
pub proof fn lemma_within_reversed(
    adj: Seq<Seq<usize>>,
    radj: Seq<Seq<usize>>,
    u: int,
    v: int,
    k: int,
)
    requires
        holds_reversed(adj, radj),
        within(adj, u, v, k),
    ensures
        within(radj, v, u, k),
{
    reveal(within);
    let w = choose|w: Seq<int>| #[trigger]
        is_walk(adj, w) && w[0] == u && w.last() == v && w.len() - 1 <= k;
    let r = turned(w);
    assert forall|i: int| 0 <= i < r.len() - 1 implies has_arc(radj, #[trigger] r[i], r[i + 1]) by {
        let x = w.len() - 2 - i;
        assert(r[i] == w[x + 1] && r[i + 1] == w[x]);
        assert(has_arc(adj, w[x], w[x + 1]));
        let j = choose|j: int| 0 <= j < adj[w[x]].len() && #[trigger] adj[w[x]][j] == w[x + 1];
        assert(has_arc(radj, adj[w[x]][j] as int, w[x]));
    }
    assert forall|i: int| 0 <= i < r.len() implies 0 <= #[trigger] r[i] < radj.len() by {
        assert(0 <= w[w.len() - 1 - i] < adj.len());
    }
    assert(is_walk(radj, r) && r[0] == v && r.last() == u && r.len() - 1 <= k);
}

/// A node has one distance from another.
pub proof fn lemma_distance_unique(adj: Seq<Seq<usize>>, u: int, v: int, a: int, b: int)
    requires
        is_distance(adj, u, v, a),
        is_distance(adj, u, v, b),
    ensures
        a == b,
{
    if a < b {
        lemma_within_more(adj, u, v, a, b - 1);
    }
    if b < a {
        lemma_within_more(adj, u, v, b, a - 1);
    }
}

/// A node has one eccentricity.
pub proof fn lemma_eccentricity_unique(adj: Seq<Seq<usize>>, u: int, a: int, b: int)
    requires
        is_eccentricity(adj, u, a),
        is_eccentricity(adj, u, b),
    ensures
        a == b,
{
    if a < b {
        let v = choose|v: int| #[trigger] is_far(adj, u, v, b);
        assert(within(adj, u, v, a));
        lemma_within_more(adj, u, v, a, b - 1);
    }
    if b < a {
        let v = choose|v: int| #[trigger] is_far(adj, u, v, a);
        assert(within(adj, u, v, b));
        lemma_within_more(adj, u, v, b, a - 1);
    }
}

/// Distinct nodes among `n` are at most `n`.
proof fn lemma_distinct_nodes(s: Seq<int>, n: nat)
    requires
        s.no_duplicates(),
        forall|i: int| 0 <= i < s.len() ==> 0 <= #[trigger] s[i] < n,
    ensures
        s.len() <= n,
    decreases n,
{
    if s.len() > 0 {
        if n == 0 {
            assert(s[0] < n);
        } else {
            if exists|i: int| 0 <= i < s.len() && #[trigger] s[i] == n - 1 {
                let i = choose|i: int| 0 <= i < s.len() && #[trigger] s[i] == n - 1;
                let rest = s.remove(i);
                assert forall|a: int, b: int|
                    0 <= a < rest.len() && 0 <= b < rest.len() && a != b implies rest[a]
                    != rest[b] by {
                    let a2 = if a < i {
                        a
                    } else {
                        a + 1
                    };
                    let b2 = if b < i {
                        b
                    } else {
                        b + 1
                    };
                    assert(s[a2] != s[b2]);
                }
                assert forall|k: int| 0 <= k < rest.len() implies 0 <= #[trigger] rest[k] < n - 1 by {
                    let k2 = if k < i {
                        k
                    } else {
                        k + 1
                    };
                    assert(s[k2] != s[i]);
                    assert(0 <= s[k2] < n);
                }
                lemma_distinct_nodes(rest, (n - 1) as nat);
            } else {
                assert forall|k: int| 0 <= k < s.len() implies 0 <= #[trigger] s[k] < n - 1 by {
                    assert(0 <= s[k] < n);
                }
                lemma_distinct_nodes(s, (n - 1) as nat);
            }
        }
    }
}

/// More nodes than there are hold one node twice.
proof fn lemma_repeat(n: nat, nodes: Seq<int>) -> (at: (int, int))
    requires
        forall|i: int| 0 <= i < nodes.len() ==> 0 <= #[trigger] nodes[i] < n,
        nodes.len() > n,
    ensures
        0 <= at.0 < at.1 < nodes.len(),
        nodes[at.0] == nodes[at.1],
{
    if nodes.no_duplicates() {
        lemma_distinct_nodes(nodes, n);
    }
    let (i, j) = choose|i: int, j: int|
        0 <= i < nodes.len() && 0 <= j < nodes.len() && i != j && nodes[i] == nodes[j];
    if i < j {
        (i, j)
    } else {
        (j, i)
    }
}

/// The walk `w` without what lies between its positions `a` and `b`.
spec fn spliced(w: Seq<int>, a: int, b: int) -> Seq<int> {
    Seq::new(
        (w.len() - (b - a)) as nat,
        |x: int|
            if x <= a {
                w[x]
            } else {
                w[x + (b - a)]
            },
    )
}

/// A walk that comes twice through one node is a walk without what lies
/// between, and a shorter one.
proof fn lemma_shorten(adj: Seq<Seq<usize>>, w: Seq<int>) -> (s: Seq<int>)
    requires
        is_walk(adj, w),
        w.len() > adj.len(),
    ensures
        is_walk(adj, s),
        s[0] == w[0],
        s.last() == w.last(),
        s.len() < w.len(),
{
    let (a, b) = lemma_repeat(adj.len(), w);
    let s = spliced(w, a, b);
    let gap = b - a;
    assert forall|x: int| 0 <= x < s.len() implies 0 <= #[trigger] s[x] < adj.len() by {
        if x <= a {
            assert(0 <= w[x] < adj.len());
        } else {
            assert(0 <= w[x + gap] < adj.len());
        }
    }
    assert forall|x: int| 0 <= x < s.len() - 1 implies has_arc(adj, #[trigger] s[x], s[x + 1]) by {
        if x < a {
            assert(has_arc(adj, w[x], w[x + 1]));
        } else if x == a {
            assert(has_arc(adj, w[b], w[b + 1]));
        } else {
            assert(has_arc(adj, w[x + gap], w[x + gap + 1]));
        }
    }
    s
}

/// What is within some number of arcs is within one arc per node but one.
pub proof fn lemma_within_nodes(adj: Seq<Seq<usize>>, u: int, v: int, k: int)
    requires
        within(adj, u, v, k),
    ensures
        within(adj, u, v, adj.len() - 1),
    decreases k,
{
    reveal(within);
    let w = choose|w: Seq<int>| #[trigger]
        is_walk(adj, w) && w[0] == u && w.last() == v && w.len() - 1 <= k;
    if w.len() > adj.len() {
        let s = lemma_shorten(adj, w);
        assert(is_walk(adj, s) && s[0] == u && s.last() == v && s.len() - 1 <= s.len() - 1);
        assert(within(adj, u, v, s.len() - 1));
        lemma_within_nodes(adj, u, v, s.len() - 1);
    }
}

/// The eccentricity of a node is below the number of nodes.
pub proof fn lemma_ecc_below_nodes(adj: Seq<Seq<usize>>, u: int, h: int)
    requires
        h >= adj.len() - 1,
    ensures
        ecc_at_most(adj, u, h),
{
    assert forall|v: int| 0 <= v < adj.len() && #[trigger] reaches(adj, u, v) implies within(
        adj,
        u,
        v,
        h,
    ) by {
        let k = lemma_reaches_within(adj, u, v);
        lemma_within_nodes(adj, u, v, k);
        lemma_within_more(adj, u, v, adj.len() - 1, h);
    }
}

/// Every node is as far from itself as no arcs.
pub proof fn lemma_ecc_at_least_none(adj: Seq<Seq<usize>>, u: int)
    requires
        0 <= u < adj.len(),
    ensures
        ecc_at_least(adj, u, 0),
{
    crate::graph::lemma_reaches_itself(adj, u);
    if within(adj, u, u, -1) {
        lemma_within_none(adj, u, u, -1);
    }
    assert(is_far(adj, u, u, 0));
}

/// A node that is far is farther than any smaller number of arcs.
pub proof fn lemma_ecc_at_least_less(adj: Seq<Seq<usize>>, u: int, l: int, m: int)
    requires
        ecc_at_least(adj, u, l),
        m <= l,
    ensures
        ecc_at_least(adj, u, m),
{
    let v = choose|v: int| #[trigger] is_far(adj, u, v, l);
    if within(adj, u, v, m - 1) {
        lemma_within_more(adj, u, v, m - 1, l - 1);
    }
    assert(is_far(adj, u, v, m));
}

/// What is within `h` arcs is within any larger number.
pub proof fn lemma_ecc_at_most_more(adj: Seq<Seq<usize>>, u: int, h: int, m: int)
    requires
        ecc_at_most(adj, u, h),
        h <= m,
    ensures
        ecc_at_most(adj, u, m),
{
    assert forall|v: int| 0 <= v < adj.len() && #[trigger] reaches(adj, u, v) implies within(
        adj,
        u,
        v,
        m,
    ) by {
        lemma_within_more(adj, u, v, h, m);
    }
}

/// No lower bound of an eccentricity is above an upper bound of it.
pub proof fn lemma_ecc_bounds_in_order(adj: Seq<Seq<usize>>, u: int, l: int, h: int)
    requires
        ecc_at_least(adj, u, l),
        ecc_at_most(adj, u, h),
    ensures
        l <= h,
{
    let v = choose|v: int| #[trigger] is_far(adj, u, v, l);
    assert(within(adj, u, v, h));
    if h < l {
        lemma_within_more(adj, u, v, h, l - 1);
    }
}

/// A walk to another node goes through an arc to a successor that is one
/// arc closer to the end.
pub proof fn lemma_within_first_arc(adj: Seq<Seq<usize>>, u: int, v: int, k: int) -> (i: int)
    requires
        within(adj, u, v, k),
        u != v,
    ensures
        0 <= u < adj.len(),
        0 <= i < adj[u].len(),
        within(adj, adj[u][i] as int, v, k - 1),
{
    reveal(within);
    let w = choose|w: Seq<int>| #[trigger]
        is_walk(adj, w) && w[0] == u && w.last() == v && w.len() - 1 <= k;
    assert(w.len() >= 2);
    assert(0 <= w[0] < adj.len());
    assert(has_arc(adj, w[0int], w[0int + 1]));
    let i = choose|i: int| 0 <= i < adj[u].len() && #[trigger] adj[u][i] == w[1];
    crate::graph::lemma_walk_suffix(adj, w, 1);
    let rest = w.subrange(1, w.len() as int);
    assert(is_walk(adj, rest) && rest[0] == adj[u][i] as int && rest.last() == v && rest.len() - 1
        <= k - 1);
    i
}

/// An arc before a walk makes a walk with one arc more.
pub proof fn lemma_within_prepend(adj: Seq<Seq<usize>>, u: int, s: int, v: int, k: int)
    requires
        0 <= u < adj.len(),
        has_arc(adj, u, s),
        within(adj, s, v, k),
    ensures
        within(adj, u, v, k + 1),
{
    lemma_within_none(adj, s, v, k);
    lemma_within_itself(adj, u, 0);
    lemma_within_step(adj, u, u, s, 0);
    lemma_within_join(adj, u, s, v, 1, k);
}

} // verus!
