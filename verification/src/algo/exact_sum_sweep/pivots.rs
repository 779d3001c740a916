//! Why the bounds that the move on the graph of the components finds for
//! the pivots are upper bounds of their eccentricities.
//!
//! A node reaches the pivot of its component and is reached from it
//! through the component. What a pivot reaches outside its component it
//! reaches through an arc that leaves the component, and so through the
//! connection that stands for the arcs to the component at the end of that
//! arc, and through the pivot of that component.
use crate::algo::exact_sum_sweep::computer::{
    backward_pass, forward_pass, is_largest_in_component, is_pivot_distance_table, largest_in,
    lemma_largest_unique, reached_within, relaxed, through, zeroed,
};
use crate::algo::exact_sum_sweep::scc_graph::{has_target, is_bridge, SccGraphConnection};
use crate::algo::sccs::basic::{in_topological_order, is_scc_table, lemma_walk_ascends};
use crate::algo::visits::breadth_first::UNREACHED;
use crate::distance::{
    ecc_at_most, lemma_within_itself, lemma_within_join, lemma_within_more,
    lemma_within_reversed, lemma_within_step, within,
};
use crate::graph::{
    has_arc, is_transpose, is_walk, lemma_reverse_walk, lemma_walk_prefix, lemma_walk_reaches,
    lemma_walk_suffix, reaches, strongly_connected, successors_in_range, turned,
};
use vstd::prelude::*;

verus! {

/// What the move on the graph of the components works with.
pub struct Setting {
    /// The lists of successors of the graph.
    pub adj: Seq<Seq<usize>>,
    /// The lists of successors of the transposed graph.
    pub radj: Seq<Seq<usize>>,
    /// The component of every node.
    pub comp: Seq<usize>,
    /// The pivot of every component.
    pub pivot: Seq<usize>,
    /// The connections of every component.
    pub children: Seq<Seq<SccGraphConnection>>,
    /// The distance of every node from the pivot of its component.
    pub fd: Seq<usize>,
    /// The distance of every node to the pivot of its component.
    pub bd: Seq<usize>,
}

/// The graphs are transposed to each other, the components are the
/// strongly connected components in topological order, every component has
/// its pivot, the tables hold the distances from and to the pivots through
/// the components, and the connections stand for the arcs between the
/// components.
pub open spec fn setting_ok(s: Setting) -> bool {
    let n = s.adj.len();
    let k = s.pivot.len();
    &&& successors_in_range(s.adj)
    &&& successors_in_range(s.radj)
    &&& is_transpose(s.adj, s.radj)
    &&& s.comp.len() == n
    &&& forall|v: int| 0 <= v < n ==> (#[trigger] s.comp[v]) < k
    &&& is_scc_table(s.comp, s.adj)
    &&& in_topological_order(s.comp, s.adj)
    &&& forall|c: int| 0 <= c < k ==> (#[trigger] s.pivot[c]) < n && s.comp[s.pivot[c] as int] == c
    &&& is_pivot_distance_table(s.adj, s.comp, s.pivot, s.fd, k as int)
    &&& is_pivot_distance_table(s.radj, s.comp, s.pivot, s.bd, k as int)
    &&& s.children.len() == k
    &&& forall|c: int, i: int|
        0 <= c < k && 0 <= i < s.children[c].len() ==> is_bridge(
            s.adj,
            s.comp,
            c,
            #[trigger] s.children[c][i],
        )
    &&& forall|u: int, j: int|
        0 <= u < n && 0 <= j < s.adj[u].len() && s.comp[u] != s.comp[(#[trigger] s.adj[u][j]) as int]
            ==> has_target(s.children[s.comp[u] as int], s.comp[s.adj[u][j] as int] as int)
}

/// A walk between two nodes of one component stays in the component.
pub proof fn lemma_walk_in_component(
    adj: Seq<Seq<usize>>,
    comp: Seq<usize>,
    w: Seq<int>,
    i: int,
)
    requires
        successors_in_range(adj),
        in_topological_order(comp, adj),
        is_walk(adj, w),
        comp[w[0]] == comp[w.last()],
        0 <= i < w.len(),
    ensures
        comp[w[i]] == comp[w[0]],
{
    lemma_walk_prefix(adj, w, i);
    lemma_walk_suffix(adj, w, i);
    lemma_walk_ascends(comp, adj, w.subrange(0, i + 1));
    lemma_walk_ascends(comp, adj, w.subrange(i, w.len() as int));
}

/// A table of the distances through the components has a distance for
/// every node of a walk that starts at a pivot and stays in its component.
pub proof fn lemma_table_along(
    graph: Seq<Seq<usize>>,
    comp: Seq<usize>,
    pivot: Seq<usize>,
    dist: Seq<usize>,
    k: int,
    c: int,
    w: Seq<int>,
    i: int,
)
    requires
        is_pivot_distance_table(graph, comp, pivot, dist, k),
        0 <= c < k,
        is_walk(graph, w),
        w[0] == pivot[c],
        forall|j: int| 0 <= j < w.len() ==> comp[#[trigger] w[j]] == c,
        0 <= i < w.len(),
    ensures
        dist[w[i]] != UNREACHED,
    decreases i,
{
    if i > 0 {
        lemma_table_along(graph, comp, pivot, dist, k, c, w, i - 1);
        let u = w[i - 1];
        assert(0 <= w[i - 1] < graph.len());
        assert(has_arc(graph, w[i - 1], w[i - 1 + 1]));
        let j = choose|j: int| 0 <= j < graph[u].len() && #[trigger] graph[u][j] == w[i];
        assert(comp[w[i - 1]] == c && comp[w[i]] == c);
        assert(dist[graph[u][j] as int] != UNREACHED);
    } else {
        assert(dist[pivot[c] as int] == 0);
    }
}

/// A node at distance `d` in a table of the distances through the
/// components is within `d` arcs of the pivot of its component.
pub proof fn lemma_table_to_pivot(
    graph: Seq<Seq<usize>>,
    comp: Seq<usize>,
    pivot: Seq<usize>,
    dist: Seq<usize>,
    k: int,
    v: int,
    d: nat,
)
    requires
        is_pivot_distance_table(graph, comp, pivot, dist, k),
        forall|c: int| 0 <= c < k ==> (#[trigger] pivot[c]) < graph.len(),
        0 <= v < graph.len(),
        dist[v] == d,
        dist[v] != UNREACHED,
    ensures
        within(graph, pivot[comp[v] as int] as int, v, d as int),
    decreases d,
{
    let c = comp[v] as int;
    assert(0 <= c < k);
    assert(pivot[c] < graph.len());
    if v == pivot[c] {
        lemma_within_itself(graph, v, d as int);
    } else {
        assert(reached_within(graph, comp, dist, v));
        let p = choose|p: int|
            0 <= p < graph.len() && comp[p] == comp[v] && dist[p] != UNREACHED && has_arc(
                graph,
                p,
                v,
            ) && #[trigger] dist[p] + 1 == dist[v];
        lemma_table_to_pivot(graph, comp, pivot, dist, k, p, (d - 1) as nat);
        lemma_within_step(graph, pivot[c] as int, p, v, d - 1);
    }
}

/// Every node is within its distance of the pivot of its component, from
/// it and to it.
pub proof fn lemma_near_pivot(s: Setting, v: int)
    requires
        setting_ok(s),
        0 <= v < s.adj.len(),
    ensures
        s.comp[v] < s.pivot.len(),
        s.pivot[s.comp[v] as int] < s.adj.len(),
        s.fd[v] != UNREACHED,
        s.bd[v] != UNREACHED,
        within(s.adj, s.pivot[s.comp[v] as int] as int, v, s.fd[v] as int),
        within(s.adj, v, s.pivot[s.comp[v] as int] as int, s.bd[v] as int),
        strongly_connected(s.adj, s.pivot[s.comp[v] as int] as int, v),
{
    let c = s.comp[v] as int;
    let k = s.pivot.len() as int;
    assert(s.comp[v] < k);
    let p = s.pivot[c] as int;
    assert(s.pivot[c] < s.adj.len() && s.comp[s.pivot[c] as int] == c);
    assert(strongly_connected(s.adj, p, v));
    reveal(reaches);
    // from the pivot to the node
    let there = choose|w: Seq<int>| #[trigger] is_walk(s.adj, w) && w[0] == p && w.last() == v;
    assert forall|j: int| 0 <= j < there.len() implies s.comp[#[trigger] there[j]] == c by {
        lemma_walk_in_component(s.adj, s.comp, there, j);
    }
    lemma_table_along(s.adj, s.comp, s.pivot, s.fd, k, c, there, there.len() - 1);
    lemma_table_to_pivot(s.adj, s.comp, s.pivot, s.fd, k, v, s.fd[v] as nat);
    // from the node to the pivot
    let back = choose|w: Seq<int>| #[trigger] is_walk(s.adj, w) && w[0] == v && w.last() == p;
    let round = turned(back);
    lemma_turned_walk(s.adj, s.radj, back);
    assert forall|j: int| 0 <= j < round.len() implies s.comp[#[trigger] round[j]] == c by {
        lemma_walk_in_component(s.adj, s.comp, back, back.len() - 1 - j);
    }
    lemma_table_along(s.radj, s.comp, s.pivot, s.bd, k, c, round, round.len() - 1);
    assert(round[round.len() - 1] == v);
    lemma_table_to_pivot(s.radj, s.comp, s.pivot, s.bd, k, v, s.bd[v] as nat);
    lemma_within_reversed(s.radj, s.adj, p, v, s.bd[v] as int);
}

/// A walk turned round is a walk of the graph with the arcs turned round.
pub proof fn lemma_turned_walk(adj: Seq<Seq<usize>>, radj: Seq<Seq<usize>>, w: Seq<int>)
    requires
        crate::graph::holds_reversed(adj, radj),
        is_walk(adj, w),
    ensures
        is_walk(radj, turned(w)),
        turned(w)[0] == w.last(),
        turned(w).last() == w[0],
{
    let r = turned(w);
    assert forall|i: int| 0 <= i < r.len() - 1 implies has_arc(radj, #[trigger] r[i], r[i + 1]) by {
        let x = w.len() - 2 - i;
        assert(r[i] == w[x + 1] && r[i + 1] == w[x]);
        assert(has_arc(adj, w[x], w[x + 1]));
        let j = choose|j: int| 0 <= j < adj[w[x]].len() && #[trigger] adj[w[x]][j] == w[x + 1];
        assert(has_arc(radj, adj[w[x]][j] as int, w[x]));
    }
    assert forall|i: int| 0 <= i < r.len() implies 0 <= #[trigger] r[i] < radj.len() by {
        assert(0 <= w[w.len() - 1 - i] < adj.len());
    }
}

/// Among the first `m` nodes, those of component `c` that have a distance
/// have a largest distance.
proof fn lemma_largest_among(comp: Seq<usize>, dist: Seq<usize>, c: int, m: int) -> (e: usize)
    requires
        0 <= m <= dist.len(),
        exists|v: int| 0 <= v < m && comp[v] == c && #[trigger] dist[v] != UNREACHED,
    ensures
        exists|v: int| 0 <= v < m && comp[v] == c && dist[v] != UNREACHED && #[trigger] dist[v] == e,
        forall|v: int| 0 <= v < m && comp[v] == c && dist[v] != UNREACHED ==> (#[trigger] dist[v]) <= e,
    decreases m,
{
    let last = m - 1;
    if exists|v: int| 0 <= v < m - 1 && comp[v] == c && #[trigger] dist[v] != UNREACHED {
        let before = lemma_largest_among(comp, dist, c, m - 1);
        let at = choose|v: int|
            0 <= v < m - 1 && comp[v] == c && dist[v] != UNREACHED && #[trigger] dist[v] == before;
        if comp[last] == c && dist[last] != UNREACHED && dist[last] > before {
            assert(dist[last] == dist[last]);
            dist[last]
        } else {
            assert(0 <= at < m && dist[at] == before);
            before
        }
    } else {
        let v = choose|v: int| 0 <= v < m && comp[v] == c && #[trigger] dist[v] != UNREACHED;
        assert(v == last);
        dist[last]
    }
}

/// No node of a component is further from or to its pivot than the largest
/// distance of the component.
pub proof fn lemma_largest_covers(comp: Seq<usize>, dist: Seq<usize>, c: int, v: int)
    requires
        0 <= v < dist.len(),
        comp[v] == c,
        dist[v] != UNREACHED,
    ensures
        dist[v] <= largest_in(comp, dist, c),
{
    let e = lemma_largest_among(comp, dist, c, dist.len() as int);
    assert(is_largest_in_component(comp, dist, c, e));
    lemma_largest_unique(comp, dist, c, e);
}

/// A walk that starts in a component and ends outside has an arc that
/// leaves the component, at position `k` or later.
pub proof fn lemma_exit(comp: Seq<usize>, w: Seq<int>, c: int, k: int) -> (i: int)
    requires
        0 <= k < w.len(),
        comp[w[k]] == c,
        comp[w.last()] != c,
    ensures
        k <= i < w.len() - 1,
        comp[w[i]] == c,
        comp[w[i + 1]] != c,
    decreases w.len() - k,
{
    if comp[w[k + 1]] != c {
        k
    } else {
        lemma_exit(comp, w, c, k + 1)
    }
}

/// A walk that starts outside a component and ends in it has an arc that
/// enters the component, before position `k`.
pub proof fn lemma_entry(comp: Seq<usize>, w: Seq<int>, c: int, k: int) -> (i: int)
    requires
        0 <= k < w.len(),
        comp[w[k]] == c,
        comp[w[0]] != c,
    ensures
        0 <= i < k,
        comp[w[i]] != c,
        comp[w[i + 1]] == c,
    decreases k,
{
    if comp[w[k - 1]] != c {
        k - 1
    } else {
        lemma_entry(comp, w, c, k - 1)
    }
}

/// Every bound in `caps` is an upper bound of the eccentricity of the
/// pivot of its component in `graph`.
pub open spec fn caps_ok(graph: Seq<Seq<usize>>, pivot: Seq<usize>, caps: Seq<usize>) -> bool {
    &&& caps.len() == pivot.len()
    &&& forall|c: int|
        0 <= c < pivot.len() ==> ecc_at_most(graph, pivot[c] as int, (#[trigger] caps[c]) as int)
}

/// The largest distance from the pivot in every component.
pub open spec fn largest_of(comp: Seq<usize>, dist: Seq<usize>, k: nat) -> Seq<usize> {
    Seq::new(k, |c: int| largest_in(comp, dist, c))
}

/// The pivot of the target of connection number `j` of component `c`
/// reaches `w`.
pub open spec fn reached_by_child(s: Setting, c: int, j: int, w: int) -> bool {
    reaches(s.adj, s.pivot[s.children[c][j].target as int] as int, w)
}

/// Node `w` is in component `c`, or the pivot of the target of one of the
/// first `i` connections of `c` reaches it.
pub open spec fn reached_through(s: Setting, c: int, i: int, w: int) -> bool {
    ||| s.comp[w] == c
    ||| exists|j: int| 0 <= j < i && #[trigger] reached_by_child(s, c, j, w)
}

/// The bounds `t` when a forward pass has done the components after `c`
/// and the first `i` connections of `c`: the bounds of the components after
/// `c` are upper bounds of the eccentricities of their pivots, and the
/// bound of `c` is at least the distance from its pivot to every node that
/// the pivot reaches in the component or through these connections.
pub open spec fn forward_ok(s: Setting, t: Seq<usize>, c: int, i: int) -> bool {
    let k = s.pivot.len();
    &&& t.len() == k
    &&& forall|c2: int| c < c2 < k ==> ecc_at_most(s.adj, s.pivot[c2] as int, (#[trigger] t[c2]) as int)
    &&& forall|w: int|
        0 <= w < s.adj.len() && reaches(s.adj, s.pivot[c] as int, w) && #[trigger] reached_through(
            s,
            c,
            i,
            w,
        ) ==> within(s.adj, s.pivot[c] as int, w, t[c] as int)
}

/// A forward pass keeps the number of the bounds and leaves alone the
/// bounds of the components before the one that it is at.
pub proof fn lemma_forward_frame(
    children: Seq<Seq<SccGraphConnection>>,
    df: Seq<usize>,
    db: Seq<usize>,
    caps: Seq<usize>,
    start: Seq<usize>,
    c: int,
    i: int,
    x: int,
)
    requires
        children.len() == start.len(),
    ensures
        forward_pass(children, df, db, caps, start, c, i).len() == start.len(),
        0 <= x < c ==> forward_pass(children, df, db, caps, start, c, i)[x] == start[x],
    decreases children.len() - c, i,
{
    if c < 0 || c >= children.len() || i < 0 {
    } else if i == 0 {
        if c + 1 < children.len() {
            lemma_forward_frame(
                children,
                df,
                db,
                caps,
                start,
                c + 1,
                children[c + 1].len() as int,
                x,
            );
        }
    } else {
        lemma_forward_frame(children, df, db, caps, start, c, i - 1, x);
    }
}

/// What the pivot of a component reaches, it reaches in the component or
/// through one of the connections of the component.
pub proof fn lemma_all_through(s: Setting, c: int, w: int)
    requires
        setting_ok(s),
        0 <= c < s.pivot.len(),
        reaches(s.adj, s.pivot[c] as int, w),
    ensures
        0 <= w < s.adj.len(),
        reached_through(s, c, s.children[c].len() as int, w),
{
    let p = s.pivot[c] as int;
    assert(s.pivot[c] < s.adj.len() && s.comp[s.pivot[c] as int] == c);
    crate::graph::lemma_reaches_nodes(s.adj, p, w);
    if s.comp[w] != c {
        let walk = {
            reveal(reaches);
            choose|x: Seq<int>| #[trigger] is_walk(s.adj, x) && x[0] == p && x.last() == w
        };
        assert(is_walk(s.adj, walk) && walk[0] == p && walk.last() == w) by {
            reveal(reaches);
        }
        let i = lemma_exit(s.comp, walk, c, 0);
        let a = walk[i];
        let b = walk[i + 1];
        assert(0 <= walk[i] < s.adj.len() && 0 <= walk[i + 1] < s.adj.len());
        assert(has_arc(s.adj, walk[i], walk[i + 1]));
        let j = choose|j: int| 0 <= j < s.adj[a].len() && #[trigger] s.adj[a][j] == b;
        let t = s.comp[b] as int;
        assert(has_target(s.children[s.comp[a] as int], s.comp[s.adj[a][j] as int] as int));
        let x = choose|x: int| 0 <= x < s.children[c].len() && (#[trigger] s.children[c][x]).target == t;
        lemma_near_pivot(s, b);
        lemma_walk_reaches(s.adj, walk, i + 1);
        crate::graph::lemma_reaches_further(s.adj, s.pivot[t] as int, b, w);
        assert(reached_by_child(s, c, x, w));
    }
}

/// A forward pass finds upper bounds: see [`forward_ok`].
pub proof fn lemma_forward_pass(s: Setting, caps: Seq<usize>, c: int, i: int)
    requires
        setting_ok(s),
        caps_ok(s.adj, s.pivot, caps),
        0 <= c < s.pivot.len(),
        0 <= i <= s.children[c].len(),
    ensures
        forward_ok(
            s,
            forward_pass(
                s.children,
                zeroed(s.fd),
                zeroed(s.bd),
                caps,
                largest_of(s.comp, s.fd, s.pivot.len()),
                c,
                i,
            ),
            c,
            i,
        ),
    decreases s.pivot.len() - c, i,
{
    let k = s.pivot.len() as int;
    let n = s.adj.len() as int;
    let start = largest_of(s.comp, s.fd, s.pivot.len());
    let df = zeroed(s.fd);
    let db = zeroed(s.bd);
    let t = forward_pass(s.children, df, db, caps, start, c, i);
    let p = s.pivot[c] as int;
    assert(s.pivot[c] < n && s.comp[s.pivot[c] as int] == c);
    lemma_forward_frame(s.children, df, db, caps, start, c, i, 0);
    if i == 0 {
        if c + 1 < k {
            let m = s.children[c + 1].len() as int;
            lemma_forward_pass(s, caps, c + 1, m);
            lemma_forward_frame(s.children, df, db, caps, start, c + 1, m, c);
            assert(t == forward_pass(s.children, df, db, caps, start, c + 1, m));
            assert forall|c2: int| c < c2 < k implies ecc_at_most(
                s.adj,
                s.pivot[c2] as int,
                (#[trigger] t[c2]) as int,
            ) by {
                if c2 == c + 1 {
                    assert forall|w: int|
                        0 <= w < n && #[trigger] reaches(s.adj, s.pivot[c2] as int, w) implies within(
                        s.adj,
                        s.pivot[c2] as int,
                        w,
                        t[c2] as int,
                    ) by {
                        lemma_all_through(s, c2, w);
                    }
                }
            }
        }
        assert(t[c] == start[c]);
        assert forall|w: int|
            0 <= w < n && reaches(s.adj, p, w) && #[trigger] reached_through(s, c, i, w) implies within(
            s.adj,
            p,
            w,
            t[c] as int,
        ) by {
            assert(s.comp[w] == c);
            lemma_near_pivot(s, w);
            lemma_largest_covers(s.comp, s.fd, c, w);
            lemma_within_more(s.adj, p, w, s.fd[w] as int, t[c] as int);
        }
    } else {
        lemma_forward_pass(s, caps, c, i - 1);
        let before = forward_pass(s.children, df, db, caps, start, c, i - 1);
        lemma_forward_frame(s.children, df, db, caps, start, c, i - 1, 0);
        let x = s.children[c][i - 1];
        assert(is_bridge(s.adj, s.comp, c, s.children[c][i - 1]));
        let a = x.start as int;
        let b = x.end as int;
        let target = x.target as int;
        // the target comes after the component
        let j = choose|j: int| 0 <= j < s.adj[a].len() && #[trigger] s.adj[a][j] == b;
        assert(s.comp[a] <= s.comp[s.adj[a][j] as int]);
        assert(s.comp[b] < k);
        assert(c < target < k);
        let reach = through(x, df, db) + before[target];
        assert(t == before.update(c, relaxed(before[c], reach, caps[c])));
        assert(ecc_at_most(s.adj, p, caps[c] as int));
        lemma_near_pivot(s, a);
        lemma_near_pivot(s, b);
        assert(df[a] == s.fd[a] && db[b] == s.bd[b]);
        assert forall|c2: int| c < c2 < k implies ecc_at_most(
            s.adj,
            s.pivot[c2] as int,
            (#[trigger] t[c2]) as int,
        ) by {
            assert(t[c2] == before[c2]);
        }
        assert forall|w: int|
            0 <= w < n && reaches(s.adj, p, w) && #[trigger] reached_through(s, c, i, w) implies within(
            s.adj,
            p,
            w,
            t[c] as int,
        ) by {
            if t[c] == caps[c] {
                assert(within(s.adj, p, w, caps[c] as int));
            } else {
                assert(t[c] >= before[c] && t[c] >= reach);
                if reached_through(s, c, i - 1, w) {
                    lemma_within_more(s.adj, p, w, before[c] as int, t[c] as int);
                } else {
                    let y = choose|y: int| 0 <= y < i && #[trigger] reached_by_child(s, c, y, w);
                    if y < i - 1 {
                        assert(reached_by_child(s, c, y, w));
                        assert(reached_through(s, c, i - 1, w));
                    }
                    let q = s.pivot[target] as int;
                    assert(reaches(s.adj, q, w));
                    assert(ecc_at_most(s.adj, q, before[target] as int));
                    assert(within(s.adj, q, w, before[target] as int));
                    lemma_within_step(s.adj, p, a, b, s.fd[a] as int);
                    lemma_within_join(s.adj, p, b, q, s.fd[a] + 1, s.bd[b] as int);
                    lemma_within_join(
                        s.adj,
                        p,
                        q,
                        w,
                        s.fd[a] + 1 + s.bd[b],
                        before[target] as int,
                    );
                    lemma_within_more(s.adj, p, w, reach, t[c] as int);
                }
            }
        }
    }
}

/// The bounds that a forward pass leaves are upper bounds of the forward
/// eccentricities of the pivots.
pub proof fn lemma_forward_bounds(s: Setting, caps: Seq<usize>, c: int)
    requires
        setting_ok(s),
        caps_ok(s.adj, s.pivot, caps),
        0 <= c < s.pivot.len(),
    ensures
        ecc_at_most(
            s.adj,
            s.pivot[c] as int,
            forward_pass(
                s.children,
                zeroed(s.fd),
                zeroed(s.bd),
                caps,
                largest_of(s.comp, s.fd, s.pivot.len()),
                0,
                s.children[0].len() as int,
            )[c] as int,
        ),
{
    let m = s.children[0].len() as int;
    lemma_forward_pass(s, caps, 0, m);
    let t = forward_pass(
        s.children,
        zeroed(s.fd),
        zeroed(s.bd),
        caps,
        largest_of(s.comp, s.fd, s.pivot.len()),
        0,
        m,
    );
    if c == 0 {
        assert forall|w: int|
            0 <= w < s.adj.len() && #[trigger] reaches(s.adj, s.pivot[0] as int, w) implies within(
            s.adj,
            s.pivot[0] as int,
            w,
            t[0] as int,
        ) by {
            lemma_all_through(s, 0, w);
        }
    }
}

/// Connection number `j` of component `c0` leads to component `c2`, and
/// `w` reaches the pivot of `c0`.
pub open spec fn enters(s: Setting, c0: int, j: int, c2: int, w: int) -> bool {
    &&& 0 <= c0 < s.pivot.len()
    &&& 0 <= j < s.children[c0].len()
    &&& s.children[c0][j].target == c2
    &&& reaches(s.radj, s.pivot[c0] as int, w)
}

/// Connection number `j` of component `c0` comes before connection number
/// `i` of component `c`.
pub open spec fn comes_before(c0: int, j: int, c: int, i: int) -> bool {
    c0 < c || (c0 == c && j < i)
}

/// Node `w` is in component `c2`, or it reaches the pivot of a component
/// with a connection to `c2` that comes before connection number `i` of
/// component `c`.
pub open spec fn entered_through(s: Setting, c: int, i: int, c2: int, w: int) -> bool {
    ||| s.comp[w] == c2
    ||| exists|c0: int, j: int| comes_before(c0, j, c, i) && #[trigger] enters(s, c0, j, c2, w)
}

/// The bounds `t` when a backward pass has done the components before `c`
/// and the first `i` connections of `c`: the bounds of the components up
/// to `c` are upper bounds of the backward eccentricities of their pivots,
/// and the bound of a later component is at least the distance to its
/// pivot from every node of the component and from every node that reaches
/// it through a connection that was done.
pub open spec fn backward_ok(s: Setting, t: Seq<usize>, c: int, i: int) -> bool {
    let k = s.pivot.len();
    &&& t.len() == k
    &&& forall|c2: int| 0 <= c2 <= c ==> ecc_at_most(s.radj, s.pivot[c2] as int, (#[trigger] t[c2]) as int)
    &&& forall|c2: int, w: int|
        c < c2 < k && 0 <= w < s.adj.len() && reaches(s.radj, s.pivot[c2] as int, w)
            && #[trigger] entered_through(s, c, i, c2, w) ==> within(
            s.radj,
            s.pivot[c2] as int,
            w,
            t[c2] as int,
        )
}

/// Every connection leads to a component.
pub open spec fn targets_in_range(children: Seq<Seq<SccGraphConnection>>) -> bool {
    forall|c: int, i: int|
        0 <= c < children.len() && 0 <= i < children[c].len() ==> (#[trigger] children[c][i]).target
            < children.len()
}

/// The connections of a setting lead to components.
pub proof fn lemma_targets(s: Setting)
    requires
        setting_ok(s),
    ensures
        targets_in_range(s.children),
{
    assert forall|c: int, i: int|
        0 <= c < s.children.len() && 0 <= i < s.children[c].len() implies (
    #[trigger] s.children[c][i]).target < s.children.len() by {
        assert(is_bridge(s.adj, s.comp, c, s.children[c][i]));
        assert(s.comp[s.children[c][i].end as int] < s.pivot.len());
    }
}

/// A backward pass keeps the number of the bounds.
pub proof fn lemma_backward_frame(
    children: Seq<Seq<SccGraphConnection>>,
    df: Seq<usize>,
    db: Seq<usize>,
    caps: Seq<usize>,
    start: Seq<usize>,
    c: int,
    i: int,
)
    requires
        children.len() == start.len(),
        targets_in_range(children),
        0 <= c < children.len() ==> i <= children[c].len(),
    ensures
        backward_pass(children, df, db, caps, start, c, i).len() == start.len(),
    decreases c, i,
{
    if c < 0 || c >= children.len() || i < 0 {
    } else if i == 0 {
        if c > 0 {
            lemma_backward_frame(children, df, db, caps, start, c - 1, children[c - 1].len() as int);
        }
    } else {
        lemma_backward_frame(children, df, db, caps, start, c, i - 1);
    }
}

/// What reaches the pivot of a component is in the component or reaches
/// the pivot of an earlier component with a connection to it.
pub proof fn lemma_all_entered(s: Setting, c: int, w: int)
    requires
        setting_ok(s),
        0 <= c < s.pivot.len(),
        reaches(s.radj, s.pivot[c] as int, w),
    ensures
        0 <= w < s.adj.len(),
        entered_through(s, c, 0, c, w),
{
    let p = s.pivot[c] as int;
    assert(s.pivot[c] < s.adj.len() && s.comp[s.pivot[c] as int] == c);
    crate::graph::lemma_reaches_nodes(s.radj, p, w);
    if s.comp[w] != c {
        lemma_reverse_walk(s.radj, s.adj, p, w);
        let walk = {
            reveal(reaches);
            choose|x: Seq<int>| #[trigger] is_walk(s.adj, x) && x[0] == w && x.last() == p
        };
        assert(is_walk(s.adj, walk) && walk[0] == w && walk.last() == p) by {
            reveal(reaches);
        }
        let i = lemma_entry(s.comp, walk, c, walk.len() - 1);
        let a = walk[i];
        let b = walk[i + 1];
        assert(0 <= walk[i] < s.adj.len() && 0 <= walk[i + 1] < s.adj.len());
        assert(has_arc(s.adj, walk[i], walk[i + 1]));
        let j = choose|j: int| 0 <= j < s.adj[a].len() && #[trigger] s.adj[a][j] == b;
        let c0 = s.comp[a] as int;
        assert(s.comp[a] <= s.comp[s.adj[a][j] as int]);
        assert(has_target(s.children[s.comp[a] as int], s.comp[s.adj[a][j] as int] as int));
        let x = choose|x: int| 0 <= x < s.children[c0].len() && (#[trigger] s.children[c0][x]).target == c;
        lemma_near_pivot(s, a);
        lemma_walk_reaches(s.adj, walk, i);
        crate::graph::lemma_reaches_further(s.adj, w, a, s.pivot[c0] as int);
        lemma_reverse_walk(s.adj, s.radj, w, s.pivot[c0] as int);
        assert(comes_before(c0, x, c, 0));
        assert(enters(s, c0, x, c, w));
    }
}

/// The pivot of a component is within the largest backward distance of
/// the component of every node of it, in the transposed graph.
pub proof fn lemma_back_in_component(s: Setting, w: int)
    requires
        setting_ok(s),
        0 <= w < s.adj.len(),
    ensures
        within(
            s.radj,
            s.pivot[s.comp[w] as int] as int,
            w,
            largest_in(s.comp, s.bd, s.comp[w] as int) as int,
        ),
{
    let c2 = s.comp[w] as int;
    lemma_near_pivot(s, w);
    lemma_largest_covers(s.comp, s.bd, c2, w);
    lemma_within_reversed(s.adj, s.radj, w, s.pivot[c2] as int, s.bd[w] as int);
    lemma_within_more(
        s.radj,
        s.pivot[c2] as int,
        w,
        s.bd[w] as int,
        largest_in(s.comp, s.bd, c2) as int,
    );
}

/// A backward pass finds upper bounds: see [`backward_ok`].
pub proof fn lemma_backward_pass(s: Setting, caps: Seq<usize>, c: int, i: int)
    requires
        setting_ok(s),
        caps_ok(s.radj, s.pivot, caps),
        0 <= c < s.pivot.len(),
        0 <= i <= s.children[c].len(),
    ensures
        backward_ok(
            s,
            backward_pass(
                s.children,
                zeroed(s.fd),
                zeroed(s.bd),
                caps,
                largest_of(s.comp, s.bd, s.pivot.len()),
                c,
                i,
            ),
            c,
            i,
        ),
    decreases c, i,
{
    let k = s.pivot.len() as int;
    let n = s.adj.len() as int;
    let start = largest_of(s.comp, s.bd, s.pivot.len());
    let df = zeroed(s.fd);
    let db = zeroed(s.bd);
    let t = backward_pass(s.children, df, db, caps, start, c, i);
    lemma_targets(s);
    lemma_backward_frame(s.children, df, db, caps, start, c, i);
    if i == 0 {
        if c > 0 {
            let m = s.children[c - 1].len() as int;
            lemma_backward_pass(s, caps, c - 1, m);
            assert(t == backward_pass(s.children, df, db, caps, start, c - 1, m));
        }
        assert forall|c2: int, w: int|
            c <= c2 < k && 0 <= w < n && reaches(s.radj, s.pivot[c2] as int, w) && entered_through(
                s,
                c,
                0,
                c2,
                w,
            ) implies within(s.radj, s.pivot[c2] as int, w, t[c2] as int) by {
            if c == 0 {
                assert(t[c2] == start[c2]);
                if s.comp[w] != c2 {
                    let (c0, j) = choose|c0: int, j: int|
                        comes_before(c0, j, c, 0) && #[trigger] enters(s, c0, j, c2, w);
                    assert(false);
                }
                lemma_back_in_component(s, w);
            } else {
                let m = s.children[c - 1].len() as int;
                if s.comp[w] != c2 {
                    let (c0, j) = choose|c0: int, j: int|
                        comes_before(c0, j, c, 0) && #[trigger] enters(s, c0, j, c2, w);
                    assert(comes_before(c0, j, c - 1, m));
                    assert(enters(s, c0, j, c2, w));
                }
                assert(entered_through(s, c - 1, m, c2, w));
            }
        }
        assert forall|c2: int| 0 <= c2 <= c implies ecc_at_most(
            s.radj,
            s.pivot[c2] as int,
            (#[trigger] t[c2]) as int,
        ) by {
            if c2 == c {
                assert forall|w: int|
                    0 <= w < n && #[trigger] reaches(s.radj, s.pivot[c] as int, w) implies within(
                    s.radj,
                    s.pivot[c] as int,
                    w,
                    t[c] as int,
                ) by {
                    lemma_all_entered(s, c, w);
                }
            }
        }
    } else {
        lemma_backward_pass(s, caps, c, i - 1);
        let before = backward_pass(s.children, df, db, caps, start, c, i - 1);
        lemma_backward_frame(s.children, df, db, caps, start, c, i - 1);
        let x = s.children[c][i - 1];
        assert(is_bridge(s.adj, s.comp, c, s.children[c][i - 1]));
        let a = x.start as int;
        let b = x.end as int;
        let target = x.target as int;
        let j = choose|j: int| 0 <= j < s.adj[a].len() && #[trigger] s.adj[a][j] == b;
        assert(s.comp[a] <= s.comp[s.adj[a][j] as int]);
        assert(s.comp[b] < k);
        assert(c < target < k);
        assert(has_arc(s.radj, s.adj[a][j] as int, a));
        let reach = through(x, df, db) + before[c];
        assert(t == before.update(target, relaxed(before[target], reach, caps[target])));
        let p = s.pivot[c] as int;
        let q = s.pivot[target] as int;
        assert(s.pivot[c] < n && s.pivot[target] < n);
        assert(ecc_at_most(s.radj, q, caps[target] as int));
        lemma_near_pivot(s, a);
        lemma_near_pivot(s, b);
        assert(df[a] == s.fd[a] && db[b] == s.bd[b]);
        lemma_within_reversed(s.adj, s.radj, b, q, s.bd[b] as int);
        lemma_within_reversed(s.adj, s.radj, p, a, s.fd[a] as int);
        lemma_within_step(s.radj, q, b, a, s.bd[b] as int);
        lemma_within_join(s.radj, q, a, p, s.bd[b] + 1, s.fd[a] as int);
        assert forall|c2: int| 0 <= c2 <= c implies ecc_at_most(
            s.radj,
            s.pivot[c2] as int,
            (#[trigger] t[c2]) as int,
        ) by {
            assert(t[c2] == before[c2]);
        }
        assert forall|c2: int, w: int|
            c < c2 < k && 0 <= w < n && reaches(s.radj, s.pivot[c2] as int, w)
                && #[trigger] entered_through(s, c, i, c2, w) implies within(
            s.radj,
            s.pivot[c2] as int,
            w,
            t[c2] as int,
        ) by {
            let fresh = s.comp[w] != c2 && !entered_through(s, c, i - 1, c2, w);
            if fresh {
                let (c0, y) = choose|c0: int, y: int|
                    comes_before(c0, y, c, i) && #[trigger] enters(s, c0, y, c2, w);
                if !(c0 == c && y == i - 1) {
                    assert(comes_before(c0, y, c, i - 1));
                    assert(enters(s, c0, y, c2, w));
                    assert(false);
                }
                assert(c2 == target);
                assert(reaches(s.radj, p, w));
                assert(ecc_at_most(s.radj, p, before[c] as int));
                assert(within(s.radj, p, w, before[c] as int));
                lemma_within_join(s.radj, q, p, w, s.bd[b] + 1 + s.fd[a], before[c] as int);
                if t[c2] == caps[c2] {
                    assert(within(s.radj, q, w, caps[c2] as int));
                } else {
                    lemma_within_more(s.radj, q, w, reach, t[c2] as int);
                }
            } else {
                assert(entered_through(s, c, i - 1, c2, w));
                if c2 == target {
                    if t[c2] == caps[c2] {
                        assert(within(s.radj, q, w, caps[c2] as int));
                    } else {
                        lemma_within_more(s.radj, q, w, before[c2] as int, t[c2] as int);
                    }
                } else {
                    assert(t[c2] == before[c2]);
                }
            }
        }
    }
}

/// The bounds that a backward pass leaves are upper bounds of the backward
/// eccentricities of the pivots.
pub proof fn lemma_backward_bounds(s: Setting, caps: Seq<usize>, c: int)
    requires
        setting_ok(s),
        caps_ok(s.radj, s.pivot, caps),
        0 <= c < s.pivot.len(),
    ensures
        ecc_at_most(
            s.radj,
            s.pivot[c] as int,
            backward_pass(
                s.children,
                zeroed(s.fd),
                zeroed(s.bd),
                caps,
                largest_of(s.comp, s.bd, s.pivot.len()),
                s.pivot.len() - 1,
                s.children[s.pivot.len() - 1].len() as int,
            )[c] as int,
        ),
{
    let k = s.pivot.len() as int;
    lemma_backward_pass(s, caps, k - 1, s.children[k - 1].len() as int);
}

} // verus!
