//! Components by depth-first visits from a list of roots.
//!
//! The roots are taken in their order. The nodes that the visit from a
//! root enters, where the root was not entered before, form the next
//! component, of which the root is the head. Every node of a component is
//! reached from its head through nodes of the component, and no arc leads
//! from a component to one that was found later.
use crate::algo::sccs::basic::{has_member, in_reverse_topological_order, BasicSccs};
use crate::algo::visits::depth_first::{
    arc_seen, entered, entered_through, event_in_range, left, lemma_new_node, lemma_order_short,
    on_path, stopped_at, tables_wf, visit_done, visit_inv, Event, SingleThreadedDepthFirstVisit,
    Tables,
};
use crate::graph::{has_arc, is_walk, reaches, Graph};
use vstd::prelude::*;

verus! {

/// The component of a node that has none yet.
pub const NONE: usize = usize::MAX;

/// The walk `w` goes through nodes of component `c`.
pub open spec fn is_walk_in(adj: Seq<Seq<usize>>, comp: Seq<usize>, c: int, w: Seq<int>) -> bool {
    &&& is_walk(adj, w)
    &&& forall|i: int| 0 <= i < w.len() ==> comp[#[trigger] w[i]] == c
}

/// A walk through nodes of component `c` leads from `u` to `v`.
#[verifier::opaque]
pub open spec fn reaches_in(adj: Seq<Seq<usize>>, comp: Seq<usize>, c: int, u: int, v: int) -> bool {
    exists|w: Seq<int>| #[trigger] is_walk_in(adj, comp, c, w) && w[0] == u && w.last() == v
}

/// A node of a component reaches itself through the component.
pub proof fn lemma_reaches_in_itself(adj: Seq<Seq<usize>>, comp: Seq<usize>, c: int, u: int)
    requires
        0 <= u < adj.len(),
        comp[u] == c,
    ensures
        reaches_in(adj, comp, c, u, u),
{
    reveal(reaches_in);
    let w = seq![u];
    assert(is_walk_in(adj, comp, c, w) && w[0] == u && w.last() == u);
}

/// What reaches a node through a component reaches the targets of its arcs
/// in the component too.
pub proof fn lemma_reaches_in_step(
    adj: Seq<Seq<usize>>,
    comp: Seq<usize>,
    c: int,
    u: int,
    p: int,
    v: int,
)
    requires
        reaches_in(adj, comp, c, u, p),
        has_arc(adj, p, v),
        0 <= v < adj.len(),
        comp[v] == c,
    ensures
        reaches_in(adj, comp, c, u, v),
{
    reveal(reaches_in);
    let a = choose|w: Seq<int>| #[trigger] is_walk_in(adj, comp, c, w) && w[0] == u && w.last() == p;
    let w = a.push(v);
    assert forall|i: int| 0 <= i < w.len() implies 0 <= #[trigger] w[i] < adj.len() && comp[w[i]]
        == c by {
        if i < a.len() {
            assert(w[i] == a[i]);
        }
    }
    assert forall|i: int| 0 <= i < w.len() - 1 implies has_arc(adj, #[trigger] w[i], w[i + 1]) by {
        assert(w[i] == a[i]);
        if i + 1 < a.len() {
            assert(w[i + 1] == a[i + 1]);
            assert(has_arc(adj, a[i], a[i + 1]));
        }
    }
    assert(is_walk_in(adj, comp, c, w) && w[0] == u && w.last() == v);
}

/// A walk through a component stays one where the component keeps its
/// nodes.
pub proof fn lemma_reaches_in_kept(
    adj: Seq<Seq<usize>>,
    comp: Seq<usize>,
    next: Seq<usize>,
    c: int,
    u: int,
    v: int,
)
    requires
        reaches_in(adj, comp, c, u, v),
        forall|x: int| 0 <= x < adj.len() && comp[x] == c ==> #[trigger] next[x] == c,
    ensures
        reaches_in(adj, next, c, u, v),
{
    reveal(reaches_in);
    let w = choose|w: Seq<int>| #[trigger] is_walk_in(adj, comp, c, w) && w[0] == u && w.last() == v;
    assert forall|i: int| 0 <= i < w.len() implies next[#[trigger] w[i]] == c by {
        assert(comp[w[i]] == c);
    }
    assert(is_walk_in(adj, next, c, w));
}

/// A walk through a component is a walk.
pub proof fn lemma_reaches_in_reaches(
    adj: Seq<Seq<usize>>,
    comp: Seq<usize>,
    c: int,
    u: int,
    v: int,
)
    requires
        reaches_in(adj, comp, c, u, v),
    ensures
        reaches(adj, u, v),
{
    reveal(reaches_in);
    reveal(reaches);
    let w = choose|w: Seq<int>| #[trigger] is_walk_in(adj, comp, c, w) && w[0] == u && w.last() == v;
    assert(is_walk(adj, w));
}

/// The root of the visit number `x`: the entry number `x` of the list of
/// roots, or node `x` where there is no list.
pub open spec fn root_at(roots: Option<Seq<usize>>, x: int) -> int {
    match roots {
        Some(list) => list[x] as int,
        None => x,
    }
}

/// Node `v` is listed among the roots.
pub open spec fn is_root(roots: Seq<usize>, v: int) -> bool {
    exists|i: int| 0 <= i < roots.len() && #[trigger] roots[i] == v
}

/// Every node is listed among the roots, and every root is a node.
pub open spec fn roots_cover(roots: Seq<usize>, n: nat) -> bool {
    &&& roots.len() == n
    &&& forall|i: int| 0 <= i < roots.len() ==> (#[trigger] roots[i]) < n
    &&& forall|v: int| 0 <= v < n ==> #[trigger] is_root(roots, v)
}

/// For every component its head and the number of the visit that found it.
pub struct Forest {
    /// The head of every component.
    pub heads: Seq<usize>,
    /// For every component the number of the visit from its head.
    pub turns: Seq<int>,
}

/// The head of component `c` is a node of it and the root of the visit
/// number `turns[c]`, one of the first `done` visits, and the roots of the
/// visits before that are in components found earlier.
pub open spec fn head_ok(
    adj: Seq<Seq<usize>>,
    roots: Option<Seq<usize>>,
    comp: Seq<usize>,
    f: Forest,
    c: int,
    done: int,
) -> bool {
    &&& f.heads[c] < adj.len()
    &&& comp[f.heads[c] as int] == c
    &&& 0 <= f.turns[c] < done
    &&& root_at(roots, f.turns[c]) == f.heads[c]
    &&& forall|x: int| 0 <= x < f.turns[c] ==> comp[#[trigger] root_at(roots, x)] < c
}

/// Node `v`, if it has a component, is reached from the head of the
/// component through the component.
pub open spec fn hangs_on_head(adj: Seq<Seq<usize>>, comp: Seq<usize>, f: Forest, v: int) -> bool {
    comp[v] != NONE ==> comp[v] < f.heads.len() && reaches_in(
        adj,
        comp,
        comp[v] as int,
        f.heads[comp[v] as int] as int,
        v,
    )
}

/// The first `done` visits have found the components of `comp`, with the
/// heads of `f`.
pub open spec fn forest_ok(
    adj: Seq<Seq<usize>>,
    roots: Option<Seq<usize>>,
    comp: Seq<usize>,
    f: Forest,
    done: int,
) -> bool {
    let n = adj.len();
    &&& comp.len() == n
    &&& f.heads.len() == f.turns.len()
    &&& f.heads.len() < NONE
    &&& forall|c: int| 0 <= c < f.heads.len() ==> #[trigger] head_ok(adj, roots, comp, f, c, done)
    &&& forall|v: int| 0 <= v < n ==> #[trigger] hangs_on_head(adj, comp, f, v)
    &&& forall|u: int, j: int|
        0 <= u < n && comp[u] != NONE && 0 <= j < adj[u].len() ==> comp[(#[trigger] adj[u][j]) as int]
            <= comp[u]
}

/// The nodes with a component are those that the visit has entered.
pub open spec fn numbers_entered(t: Tables, comp: Seq<usize>) -> bool {
    forall|v: int| 0 <= v < comp.len() ==> (#[trigger] entered(t, v) <==> comp[v] != NONE)
}

/// Every node that a visit has entered is reached from the root of the
/// visit through the nodes that the visit has entered.
proof fn lemma_tree_reached<F: Fn(Event) -> bool>(
    adj: Seq<Seq<usize>>,
    t: Tables,
    s: Tables,
    root: int,
    filter: &F,
    next: Seq<usize>,
    c: int,
    i: int,
)
    requires
        visit_inv(adj, t, s, root, filter),
        next.len() == adj.len(),
        forall|v: int| 0 <= v < adj.len() && entered(s, v) && !entered(t, v) ==> #[trigger] next[v] == c,
        t.preorder.len() <= i < s.preorder.len(),
    ensures
        reaches_in(adj, next, c, root, s.preorder[i] as int),
    decreases i,
{
    let first = t.preorder.len() as int;
    let v = s.preorder[i] as int;
    assert(s.preorder[i] < adj.len() && s.discovery[s.preorder[i] as int] == i);
    assert(entered(s, v));
    assert(!entered(t, v));
    if i == first {
        lemma_reaches_in_itself(adj, next, c, root);
    } else {
        assert(entered_through(adj, t, s, root, filter, s.preorder[i] as int));
        let p = s.parent[v] as int;
        lemma_new_node(adj, t, s, root, filter, p);
        lemma_tree_reached(adj, t, s, root, filter, next, c, s.discovery[p] as int);
        lemma_reaches_in_step(adj, next, c, root, p, v);
    }
}

/// The nodes that one more visit has entered form the next component.
proof fn lemma_next_tree<F: Fn(Event) -> bool>(
    adj: Seq<Seq<usize>>,
    roots: Option<Seq<usize>>,
    t: Tables,
    s: Tables,
    comp: Seq<usize>,
    next: Seq<usize>,
    f: Forest,
    done: int,
    filter: &F,
)
    requires
        tables_wf(adj, t),
        t.path.len() == 0,
        forest_ok(adj, roots, comp, f, done),
        numbers_entered(t, comp),
        0 <= done,
        0 <= root_at(roots, done) < adj.len(),
        forall|x: int| 0 <= x < done ==> 0 <= #[trigger] root_at(roots, x) < adj.len() && entered(
            t,
            root_at(roots, x),
        ),
        visit_done(adj, t, s, root_at(roots, done), filter),
        forall|e: Event| !#[trigger] call_ensures(*filter, (e,), false),
        s != t,
        f.heads.len() + 1 < NONE,
        next.len() == adj.len(),
        forall|v: int|
            0 <= v < adj.len() ==> (#[trigger] next[v]) == if entered(s, v) && !entered(t, v) {
                f.heads.len() as usize
            } else {
                comp[v]
            },
    ensures
        forest_ok(
            adj,
            roots,
            next,
            Forest { heads: f.heads.push(root_at(roots, done) as usize), turns: f.turns.push(done) },
            done + 1,
        ),
        numbers_entered(s, next),
        entered(s, root_at(roots, done)),
{
    let n = adj.len();
    let root = root_at(roots, done);
    let count = f.heads.len() as int;
    let g = Forest { heads: f.heads.push(root as usize), turns: f.turns.push(done) };
    let first = t.preorder.len() as int;
    assert(visit_inv(adj, t, s, root, filter));
    assert(s.discovery[s.preorder[first] as int] == first);
    assert(entered(s, root));
    assert(!entered(t, root));
    assert forall|u: int| 0 <= u < n && entered(t, u) implies entered(s, u) && next[u] == comp[u] by {
        assert(s.discovery[u] == t.discovery[u]);
    }
    assert forall|v: int| 0 <= v < n implies (#[trigger] entered(s, v) <==> next[v] != NONE) by {
        if entered(t, v) {
            assert(entered(s, v));
        }
    }
    assert forall|v: int| 0 <= v < n && comp[v] != NONE implies comp[v] < count by {
        assert(hangs_on_head(adj, comp, f, v));
    }
    assert forall|c: int| 0 <= c < g.heads.len() implies #[trigger] head_ok(
        adj,
        roots,
        next,
        g,
        c,
        done + 1,
    ) by {
        if c < count {
            assert(head_ok(adj, roots, comp, f, c, done));
            assert(g.heads[c] == f.heads[c] && g.turns[c] == f.turns[c]);
            assert(entered(t, f.heads[c] as int));
            assert forall|x: int| 0 <= x < g.turns[c] implies next[#[trigger] root_at(roots, x)] < c by {
                assert(entered(t, root_at(roots, x)));
                assert(comp[root_at(roots, x)] < c);
            }
        } else {
            assert forall|x: int| 0 <= x < g.turns[c] implies next[#[trigger] root_at(roots, x)] < c by {
                assert(entered(t, root_at(roots, x)));
            }
        }
    }
    assert forall|v: int| 0 <= v < n implies #[trigger] hangs_on_head(adj, next, g, v) by {
        if next[v] != NONE {
            if entered(t, v) {
                assert(hangs_on_head(adj, comp, f, v));
                let c = comp[v] as int;
                assert(g.heads[c] == f.heads[c]);
                assert forall|x: int| 0 <= x < n && comp[x] == c implies #[trigger] next[x] == c by {
                    assert(entered(t, x));
                }
                lemma_reaches_in_kept(adj, comp, next, c, f.heads[c] as int, v);
            } else {
                assert(entered(s, v));
                lemma_new_node(adj, t, s, root, filter, v);
                lemma_tree_reached(adj, t, s, root, filter, next, count, s.discovery[v] as int);
            }
        }
    }
    assert forall|u: int, j: int|
        0 <= u < n && next[u] != NONE && 0 <= j < adj[u].len() implies next[(#[trigger] adj[u][j]) as int]
        <= next[u] by {
        let v = adj[u][j] as int;
        assert(adj[u][j] < n);
        assert(entered(s, u));
        if entered(t, u) {
            assert(comp[adj[u][j] as int] <= comp[u]);
            assert(entered(t, v));
        } else {
            lemma_new_node(adj, t, s, root, filter, u);
            let i = s.discovery[u] as int;
            if on_path(s, u) {
                assert(s.path.contains(u as usize));
            }
            assert(left(s, u));
            assert(arc_seen(adj, s, root, filter, s.preorder[i] as int, j));
            if entered(t, v) {
                assert(comp[v] < count);
            }
        }
    }
}

/// Numbers the nodes of `graph` by depth-first visits from the roots in
/// the order of `roots`, or from every node in turn where there is no such
/// list: the nodes that the visit from one root enters get one index.
pub(crate) fn components_of_visits(graph: &Graph, roots: Option<&Vec<usize>>) -> (res: (
    BasicSccs,
    Ghost<Forest>,
))
    requires
        graph.wf(),
        roots matches Some(list) ==> roots_cover(list@, graph@.len()),
    ensures
        res.0.wf(),
        res.0.components().len() == graph@.len(),
        res.0.spec_num_components() == res.1@.heads.len(),
        graph@.len() == 0 ==> res.0.spec_num_components() == 0,
        res.0.inhabited(),
        in_reverse_topological_order(res.0.components(), graph@),
        forest_ok(
            graph@,
            match roots {
                Some(list) => Some(list@),
                None => None,
            },
            res.0.components(),
            res.1@,
            graph@.len() as int,
        ),
{
    let n: usize = graph.num_nodes();
    let ghost adj = graph@;
    let ghost order: Option<Seq<usize>> = match roots {
        Some(list) => Some(list@),
        None => None,
    };
    let mut visit = SingleThreadedDepthFirstVisit::with_two_states(graph);
    let mut component: Vec<usize> = vec![NONE; n];
    let mut count: usize = 0;
    let ghost mut forest = Forest { heads: Seq::empty(), turns: Seq::empty() };
    let callback = |e: Event| -> (go: bool)
        ensures
            go,
        { true };
    let filter = |e: Event| -> (ok: bool)
        ensures
            ok,
        { true };
    proof {
        visit.lemma_wf();
    }
    let mut i: usize = 0;
    while i < n
        invariant
            i <= n,
            n == adj.len(),
            n < usize::MAX,
            order == (match roots {
                Some(list) => Some(list@),
                None => None,
            }),
            roots matches Some(list) ==> roots_cover(list@, n as nat),
            visit.wf(),
            visit.idle(),
            visit.adjacency() == adj,
            tables_wf(adj, visit.tables()),
            forest_ok(adj, order, component@, forest, i as int),
            numbers_entered(visit.tables(), component@),
            count == forest.heads.len(),
            count <= visit.tables().preorder.len(),
            forall|x: int|
                0 <= x < i ==> 0 <= #[trigger] root_at(order, x) < n && entered(
                    visit.tables(),
                    root_at(order, x),
                ),
            forall|e: Event| event_in_range(e, n as nat) ==> #[trigger] call_requires(callback, (e,)),
            forall|e: Event| event_in_range(e, n as nat) ==> #[trigger] call_requires(filter, (e,)),
            forall|e: Event| !#[trigger] call_ensures(filter, (e,), false),
            forall|e: Event| !#[trigger] call_ensures(callback, (e,), false),
        decreases n - i,
    {
        let root: usize = match roots {
            Some(list) => list[i],
            None => i,
        };
        assert(root == root_at(order, i as int));
        let ghost t = visit.tables();
        let ghost comp = component@;
        let first: usize = visit.preorder().len();
        let completed = visit.visit_from_node(root, &callback, &filter);
        let ghost s = visit.tables();
        proof {
            visit.lemma_wf();
            lemma_order_short(s.preorder, s.discovery);
            if !completed {
                assert(stopped_at(&callback, s, n as nat));
            }
        }
        let entered_now: &Vec<usize> = visit.preorder();
        let end: usize = entered_now.len();
        if end > first {
            let mut x: usize = first;
            while x < end
                invariant
                    first <= x <= end,
                    end == s.preorder.len(),
                    first == t.preorder.len(),
                    entered_now@ == s.preorder,
                    n == adj.len(),
                    tables_wf(adj, s),
                    component@.len() == n,
                    forall|v: int|
                        0 <= v < n ==> (#[trigger] component@[v]) == if entered(s, v) && first
                            <= s.discovery[v] < x {
                            count
                        } else {
                            comp[v]
                        },
                decreases end - x,
            {
                let w: usize = entered_now[x];
                assert(s.preorder[x as int] < n && s.discovery[s.preorder[x as int] as int] == x);
                component.set(w, count);
                x = x + 1;
            }
            proof {
                assert(s != t);
                assert(visit_inv(adj, t, s, root as int, &filter));
                assert forall|v: int| 0 <= v < n implies (#[trigger] component@[v]) == if entered(s, v)
                    && !entered(t, v) {
                    count
                } else {
                    comp[v]
                } by {
                    if entered(s, v) && !entered(t, v) {
                        lemma_new_node(adj, t, s, root as int, &filter, v);
                    }
                    if entered(t, v) {
                        assert(s.discovery[v] == t.discovery[v]);
                        assert(t.discovery[v] < t.preorder.len());
                    }
                }
                lemma_next_tree(adj, order, t, s, comp, component@, forest, i as int, &filter);
                assert forall|x: int| 0 <= x < i implies entered(s, #[trigger] root_at(order, x)) by {
                    assert(entered(t, root_at(order, x)));
                    assert(s.discovery[root_at(order, x)] == t.discovery[root_at(order, x)]);
                }
                forest = Forest { heads: forest.heads.push(root), turns: forest.turns.push(i as int) };
            }
            count = count + 1;
        } else {
            proof {
                assert(s.preorder.len() == t.preorder.len());
                assert(s == t);
                assert forall|c: int| 0 <= c < forest.heads.len() implies #[trigger] head_ok(
                    adj,
                    order,
                    component@,
                    forest,
                    c,
                    i + 1,
                ) by {
                    assert(head_ok(adj, order, component@, forest, c, i as int));
                }
            }
        }
        i = i + 1;
    }
    proof {
        let t = visit.tables();
        assert forall|v: int| 0 <= v < n implies entered(t, v) by {
            match roots {
                Some(list) => {
                    assert(is_root(list@, v));
                    let x = choose|x: int| 0 <= x < list@.len() && #[trigger] list@[x] == v;
                    assert(entered(t, root_at(order, x)));
                },
                None => {
                    assert(entered(t, root_at(order, v)));
                },
            }
        }
        assert forall|v: int| 0 <= v < n implies (#[trigger] component@[v]) < count by {
            assert(entered(t, v));
            assert(hangs_on_head(adj, component@, forest, v));
        }
        assert forall|c: int| 0 <= c < count implies #[trigger] has_member(component@, c) by {
            assert(head_ok(adj, order, component@, forest, c, n as int));
        }
        assert forall|u: int, j: int| 0 <= u < n && 0 <= j < adj[u].len() implies component@[
        #[trigger] adj[u][j] as int] <= component@[u] by {
            assert(component@[u] < count);
        }
        if n == 0 {
            lemma_order_short(t.preorder, t.discovery);
        }
    }
    (BasicSccs::new(count, component), Ghost(forest))
}

} // verus!
