//! Why the bounds of a computation are bounds of the eccentricities.
//!
//! Where the transposed graph is the transposed graph, every move keeps
//! the bounds sound. A visit raises the lower bound of a node to a distance
//! from or to that node, settles the eccentricity of its start at the
//! largest distance that it finds, and raises the lower bound of the
//! diameter to that eccentricity. The move on the graph of the components
//! lowers the upper bound of a node to the length of a walk through the
//! pivot of its component to everything that the node reaches. So when the
//! bounds have met, they are the eccentricities, and the bounds of the
//! radius and of the diameter are the radius and the diameter.
use crate::algo::exact_sum_sweep::computer::{
    goes_forward, has_most_successors, is_marked_choice, largest_in, lower_bounds_raised,
    newly_tight, raised, tightened, zeroed, Bounds, DirExactSumSweepComputer,
};
use crate::algo::exact_sum_sweep::pivots::{
    caps_ok, largest_of, lemma_backward_bounds, lemma_forward_bounds, lemma_near_pivot,
    setting_ok, Setting,
};
use crate::algo::visits::breadth_first::{
    is_distance_table, is_largest_distance, lemma_table_eccentricity, lemma_table_holds_distances,
    UNREACHED,
};
use crate::distance::{
    ecc_at_least, ecc_at_most, is_distance, is_eccentricity, is_far, lemma_ecc_at_least_less,
    lemma_ecc_at_least_none, lemma_ecc_at_most_more, lemma_ecc_below_nodes,
    lemma_ecc_bounds_in_order, lemma_within_join, lemma_within_reaches, lemma_within_reversed,
    within,
};
use crate::graph::{is_transpose, lemma_reaches_further, lemma_reverse_walk, reaches};
use vstd::prelude::*;

verus! {

/// The lower bounds in `low` are below the eccentricities of the nodes.
pub open spec fn lows_below(adj: Seq<Seq<usize>>, low: Seq<usize>) -> bool {
    forall|v: int| 0 <= v < adj.len() ==> ecc_at_least(adj, v, (#[trigger] low[v]) as int)
}

/// The upper bounds in `high` are above the eccentricities of the nodes.
pub open spec fn highs_above(adj: Seq<Seq<usize>>, high: Seq<usize>) -> bool {
    forall|v: int| 0 <= v < adj.len() ==> ecc_at_most(adj, v, (#[trigger] high[v]) as int)
}

/// No lower bound in `low` is above `top`.
pub open spec fn all_at_most(low: Seq<usize>, top: usize) -> bool {
    forall|v: int| 0 <= v < low.len() ==> (#[trigger] low[v]) <= top
}

/// The lower bounds of the computation are lower bounds: those of the
/// forward eccentricities in the graph and those of the backward
/// eccentricities in the transposed graph; the lower bound of the diameter
/// is at most the eccentricity of its node, forward or backward, and no
/// lower bound of an eccentricity is above it.
pub open spec fn lower_sound(c: &DirExactSumSweepComputer) -> bool {
    let adj = c.adjacency();
    let radj = c.transposed_adjacency();
    &&& is_transpose(adj, radj)
    &&& lows_below(adj, c.forward().low)
    &&& lows_below(radj, c.backward().low)
    &&& all_at_most(c.forward().low, c.spec_diameter().0)
    &&& all_at_most(c.backward().low, c.spec_diameter().0)
    &&& adj.len() > 0 ==> c.spec_diameter().1 < adj.len() && (ecc_at_least(
        adj,
        c.spec_diameter().1 as int,
        c.spec_diameter().0 as int,
    ) || ecc_at_least(radj, c.spec_diameter().1 as int, c.spec_diameter().0 as int))
}

/// The upper bounds of the computation are upper bounds, and the upper
/// bound of the radius is at least the forward eccentricity of its node,
/// which is radial.
pub open spec fn upper_sound(c: &DirExactSumSweepComputer) -> bool {
    let adj = c.adjacency();
    let radj = c.transposed_adjacency();
    &&& is_transpose(adj, radj)
    &&& highs_above(adj, c.forward().high)
    &&& highs_above(radj, c.backward().high)
    &&& c.spec_radius().0 == usize::MAX
        || (c.spec_radius().1 < adj.len() && c.radial()[c.spec_radius().1 as int]
        && ecc_at_most(adj, c.spec_radius().1 as int, c.spec_radius().0 as int))
    &&& radius_covers(c.radial(), c.forward(), c.spec_radius().0)
}

/// The upper bound of the radius is at most the forward eccentricity of
/// every radial node whose bounds have met.
pub open spec fn radius_covers(radial: Seq<bool>, forward: Bounds, radius: usize) -> bool {
    forall|v: int|
        0 <= v < forward.high.len() && radial[v] && (#[trigger] forward.high[v]) == forward.low[v]
            ==> radius <= forward.high[v]
}

/// The bounds of no forward eccentricity have met.
pub open spec fn all_open(forward: Bounds) -> bool {
    forall|v: int| 0 <= v < forward.high.len() ==> (#[trigger] forward.high[v]) != forward.low[v]
}

/// A node at distance `d` from the root of a visit is at least `d` arcs
/// from the root in the graph with the arcs turned round.
pub proof fn lemma_far_from_root(
    adj: Seq<Seq<usize>>,
    radj: Seq<Seq<usize>>,
    root: int,
    dist: Seq<usize>,
    v: int,
)
    requires
        is_transpose(adj, radj),
        is_distance_table(adj, root, dist),
        0 <= v < adj.len(),
        dist[v] != UNREACHED,
    ensures
        ecc_at_least(radj, v, dist[v] as int),
{
    lemma_table_holds_distances(adj, root, dist);
    let d = dist[v] as int;
    assert(is_distance(adj, root, v, d));
    lemma_within_reversed(adj, radj, root, v, d);
    lemma_within_reaches(radj, v, root, d);
    if within(radj, v, root, d - 1) {
        lemma_within_reversed(radj, adj, v, root, d - 1);
    }
    assert(is_far(radj, v, root, d));
}

/// A visit keeps the lower bounds that it raises below the eccentricities.
pub proof fn lemma_raised_lows(
    adj: Seq<Seq<usize>>,
    radj: Seq<Seq<usize>>,
    root: int,
    dist: Seq<usize>,
    before: Bounds,
    after: Bounds,
    ecc: usize,
    top: usize,
)
    requires
        is_transpose(adj, radj),
        is_distance_table(adj, root, dist),
        is_largest_distance(dist, ecc),
        lower_bounds_raised(before, after, dist),
        before.low.len() == adj.len(),
        lows_below(radj, before.low),
        all_at_most(before.low, top),
    ensures
        lows_below(radj, after.low),
        all_at_most(after.low, if top < ecc {
            ecc
        } else {
            top
        }),
{
    assert forall|v: int| 0 <= v < radj.len() implies ecc_at_least(
        radj,
        v,
        (#[trigger] after.low[v]) as int,
    ) by {
        assert(ecc_at_least(radj, v, before.low[v] as int));
        if dist[v] != UNREACHED {
            lemma_far_from_root(adj, radj, root, dist, v);
            let r = raised(before.low[v], before.high[v], dist[v]);
            if r != before.low[v] {
                lemma_ecc_at_least_less(radj, v, dist[v] as int, r as int);
            }
        }
    }
    assert forall|v: int| 0 <= v < after.low.len() implies (#[trigger] after.low[v]) <= (if top
        < ecc {
        ecc
    } else {
        top
    }) by {
        assert(before.low[v] <= top);
        if dist[v] != UNREACHED {
            assert(dist[v] <= ecc);
        }
    }
}

/// A forward visit keeps the lower bounds sound.
pub proof fn lemma_forward_visit_lower(
    a: &DirExactSumSweepComputer,
    b: &DirExactSumSweepComputer,
    start: usize,
)
    requires
        a.wf(),
        lower_sound(a),
        b.forward_visited(a, start),
        start < a.spec_num_nodes(),
    ensures
        lower_sound(b),
{
    a.lemma_wf();
    let adj = a.adjacency();
    let radj = a.transposed_adjacency();
    let dist = b.forward_distances();
    let ecc = choose|ecc: usize| #[trigger]
        is_largest_distance(dist, ecc) && b.forward() == (Bounds {
            low: a.forward().low.update(start as int, ecc),
            high: a.forward().high.update(start as int, ecc),
            tot: a.forward().tot,
        }) && b.spec_diameter() == DirExactSumSweepComputer::diameter_raised(
            a.spec_diameter(),
            start,
            ecc,
        );
    lemma_table_eccentricity(adj, start as int, dist, ecc);
    lemma_raised_lows(
        adj,
        radj,
        start as int,
        dist,
        a.backward(),
        b.backward(),
        ecc,
        a.spec_diameter().0,
    );
    assert forall|v: int| 0 <= v < adj.len() implies ecc_at_least(
        adj,
        v,
        (#[trigger] b.forward().low[v]) as int,
    ) by {
        assert(ecc_at_least(adj, v, a.forward().low[v] as int));
    }
    assert forall|v: int| 0 <= v < b.forward().low.len() implies (#[trigger] b.forward().low[v])
        <= b.spec_diameter().0 by {
        assert(a.forward().low[v] <= a.spec_diameter().0);
    }
}

/// A backward visit keeps the lower bounds sound.
pub proof fn lemma_backward_visit_lower(
    a: &DirExactSumSweepComputer,
    b: &DirExactSumSweepComputer,
    start: usize,
)
    requires
        a.wf(),
        lower_sound(a),
        b.backward_visited(a, start),
        start < a.spec_num_nodes(),
    ensures
        lower_sound(b),
{
    a.lemma_wf();
    let adj = a.adjacency();
    let radj = a.transposed_adjacency();
    let dist = b.backward_distances();
    let ecc = choose|ecc: usize| #[trigger]
        is_largest_distance(dist, ecc) && b.backward() == (Bounds {
            low: a.backward().low.update(start as int, ecc),
            high: a.backward().high.update(start as int, ecc),
            tot: a.backward().tot,
        }) && b.spec_diameter() == DirExactSumSweepComputer::diameter_raised(
            a.spec_diameter(),
            start,
            ecc,
        );
    lemma_table_eccentricity(radj, start as int, dist, ecc);
    lemma_raised_lows(
        radj,
        adj,
        start as int,
        dist,
        a.forward(),
        b.forward(),
        ecc,
        a.spec_diameter().0,
    );
    assert forall|v: int| 0 <= v < radj.len() implies ecc_at_least(
        radj,
        v,
        (#[trigger] b.backward().low[v]) as int,
    ) by {
        assert(ecc_at_least(radj, v, a.backward().low[v] as int));
    }
    assert forall|v: int| 0 <= v < b.backward().low.len() implies (#[trigger] b.backward().low[v])
        <= b.spec_diameter().0 by {
        assert(a.backward().low[v] <= a.spec_diameter().0);
    }
}

/// A forward visit keeps the upper bounds sound.
pub proof fn lemma_forward_visit_upper(
    a: &DirExactSumSweepComputer,
    b: &DirExactSumSweepComputer,
    start: usize,
)
    requires
        a.wf(),
        upper_sound(a),
        b.forward_visited(a, start),
        start < a.spec_num_nodes(),
    ensures
        upper_sound(b),
{
    a.lemma_wf();
    let adj = a.adjacency();
    let radj = a.transposed_adjacency();
    let dist = b.forward_distances();
    let ecc = choose|ecc: usize| #[trigger]
        is_largest_distance(dist, ecc) && b.forward() == (Bounds {
            low: a.forward().low.update(start as int, ecc),
            high: a.forward().high.update(start as int, ecc),
            tot: a.forward().tot,
        }) && b.spec_radius() == (if a.radial()[start as int] && a.spec_radius().0 > ecc {
            (ecc, start)
        } else {
            a.spec_radius()
        });
    lemma_table_eccentricity(adj, start as int, dist, ecc);
    assert forall|v: int| 0 <= v < adj.len() implies ecc_at_most(
        adj,
        v,
        (#[trigger] b.forward().high[v]) as int,
    ) by {
        assert(ecc_at_most(adj, v, a.forward().high[v] as int));
    }
    assert forall|v: int| 0 <= v < radj.len() implies ecc_at_most(
        radj,
        v,
        (#[trigger] b.backward().high[v]) as int,
    ) by {
        assert(ecc_at_most(radj, v, a.backward().high[v] as int));
    }
}

/// A backward visit keeps the upper bounds sound.
pub proof fn lemma_backward_visit_upper(
    a: &DirExactSumSweepComputer,
    b: &DirExactSumSweepComputer,
    start: usize,
)
    requires
        a.wf(),
        upper_sound(a),
        b.backward_visited(a, start),
        start < a.spec_num_nodes(),
    ensures
        upper_sound(b),
{
    a.lemma_wf();
    let adj = a.adjacency();
    let radj = a.transposed_adjacency();
    let dist = b.backward_distances();
    let ecc = choose|ecc: usize| #[trigger]
        is_largest_distance(dist, ecc) && b.backward() == (Bounds {
            low: a.backward().low.update(start as int, ecc),
            high: a.backward().high.update(start as int, ecc),
            tot: a.backward().tot,
        });
    lemma_table_eccentricity(radj, start as int, dist, ecc);
    assert forall|v: int| 0 <= v < adj.len() implies ecc_at_most(
        adj,
        v,
        (#[trigger] b.forward().high[v]) as int,
    ) by {
        assert(ecc_at_most(adj, v, a.forward().high[v] as int));
    }
    assert forall|v: int| 0 <= v < radj.len() implies ecc_at_most(
        radj,
        v,
        (#[trigger] b.backward().high[v]) as int,
    ) by {
        assert(ecc_at_most(radj, v, a.backward().high[v] as int));
    }
    if b.spec_radius() != a.spec_radius() {
        let w = b.spec_radius().1 as int;
        assert(ecc_at_most(adj, w, a.forward().high[w] as int));
    }
    assert forall|v: int|
        0 <= v < b.forward().high.len() && b.radial()[v] && (#[trigger] b.forward().high[v])
            == b.forward().low[v] implies b.spec_radius().0 <= b.forward().high[v] by {
        if a.forward().high[v] == a.forward().low[v] {
            assert(a.spec_radius().0 <= a.forward().high[v]);
        } else {
            assert(newly_tight(a.forward(), a.radial(), dist, v));
        }
    }
}

/// The computation of the radial vertices keeps the bounds sound, where
/// the bounds of no forward eccentricity have met.
pub proof fn lemma_radial_sound(a: &DirExactSumSweepComputer, b: &DirExactSumSweepComputer)
    requires
        a.wf(),
        b.radial_computed(a),
        all_open(a.forward()),
    ensures
        lower_sound(a) ==> lower_sound(b),
        upper_sound(a) ==> upper_sound(b),
        all_open(b.forward()),
{
    a.lemma_wf();
}

/// The move on the graph of the components keeps the lower bounds sound.
pub proof fn lemma_components_move_lower(
    a: &DirExactSumSweepComputer,
    b: &DirExactSumSweepComputer,
    pivot: Seq<usize>,
)
    requires
        a.wf(),
        lower_sound(a),
        b.components_moved(a, pivot),
    ensures
        lower_sound(b),
{
}

/// A visit, or none, keeps the lower bounds sound.
pub proof fn lemma_step_lower(
    a: &DirExactSumSweepComputer,
    b: &DirExactSumSweepComputer,
    start: Option<usize>,
    forward: bool,
)
    requires
        a.wf(),
        lower_sound(a),
        b.stepped(a, start, forward),
        start matches Some(s) ==> s < a.spec_num_nodes(),
    ensures
        lower_sound(b),
{
    match start {
        Some(s) => {
            if forward {
                lemma_forward_visit_lower(a, b, s);
            } else {
                lemma_backward_visit_lower(a, b, s);
            }
        },
        None => {},
    }
}

/// A visit, or none, keeps the upper bounds sound.
pub proof fn lemma_step_upper(
    a: &DirExactSumSweepComputer,
    b: &DirExactSumSweepComputer,
    start: Option<usize>,
    forward: bool,
)
    requires
        a.wf(),
        upper_sound(a),
        b.stepped(a, start, forward),
        start matches Some(s) ==> s < a.spec_num_nodes(),
    ensures
        upper_sound(b),
{
    match start {
        Some(s) => {
            if forward {
                lemma_forward_visit_upper(a, b, s);
            } else {
                lemma_backward_visit_upper(a, b, s);
            }
        },
        None => {},
    }
}

/// Where both bounds of a node are sound and have met, they are the
/// eccentricity of the node.
pub proof fn lemma_met_bounds(c: &DirExactSumSweepComputer, v: int)
    requires
        c.wf(),
        lower_sound(c),
        upper_sound(c),
        0 <= v < c.spec_num_nodes(),
    ensures
        c.forward().low[v] == c.forward().high[v] ==> is_eccentricity(
            c.adjacency(),
            v,
            c.forward().low[v] as int,
        ),
        c.backward().low[v] == c.backward().high[v] ==> is_eccentricity(
            c.transposed_adjacency(),
            v,
            c.backward().low[v] as int,
        ),
{
    c.lemma_wf();
    assert(ecc_at_least(c.adjacency(), v, c.forward().low[v] as int));
    assert(ecc_at_most(c.adjacency(), v, c.forward().high[v] as int));
    assert(ecc_at_least(c.transposed_adjacency(), v, c.backward().low[v] as int));
    assert(ecc_at_most(c.transposed_adjacency(), v, c.backward().high[v] as int));
}

/// What the move on the graph of the components from the pivots `pivot`
/// works with, where it leads from `a` to `b`.
pub open spec fn setting_of(
    a: &DirExactSumSweepComputer,
    b: &DirExactSumSweepComputer,
    pivot: Seq<usize>,
) -> Setting {
    Setting {
        adj: a.adjacency(),
        radj: a.transposed_adjacency(),
        comp: a.components(),
        pivot,
        children: a.children_lists(),
        fd: b.forward_distances(),
        bd: b.backward_distances(),
    }
}

/// The setting of a move on the graph of the components is in order.
pub proof fn lemma_setting(
    a: &DirExactSumSweepComputer,
    b: &DirExactSumSweepComputer,
    pivot: Seq<usize>,
)
    requires
        a.wf(),
        is_transpose(a.adjacency(), a.transposed_adjacency()),
        a.is_pivot_table(pivot),
        b.components_moved(a, pivot),
    ensures
        setting_ok(setting_of(a, b, pivot)),
{
    a.lemma_wf();
    a.lemma_children();
}

/// An upper bound that has fallen to an upper bound, and not below a lower
/// bound, is an upper bound.
pub proof fn lemma_tightened(graph: Seq<Seq<usize>>, v: int, low: usize, high: usize, bound: int)
    requires
        ecc_at_least(graph, v, low as int),
        ecc_at_most(graph, v, high as int),
        ecc_at_most(graph, v, bound),
    ensures
        ecc_at_most(graph, v, tightened(low, high, bound) as int),
{
    let fallen = if bound <= high {
        bound
    } else {
        high as int
    };
    lemma_ecc_bounds_in_order(graph, v, low as int, fallen);
}

/// The move on the graph of the components keeps the upper bounds sound.
pub proof fn lemma_components_move_upper(
    a: &DirExactSumSweepComputer,
    b: &DirExactSumSweepComputer,
    pivot: Seq<usize>,
)
    requires
        a.wf(),
        lower_sound(a),
        upper_sound(a),
        a.is_pivot_table(pivot),
        b.components_moved(a, pivot),
    ensures
        upper_sound(b),
{
    a.lemma_wf();
    lemma_setting(a, b, pivot);
    let s = setting_of(a, b, pivot);
    let adj = a.adjacency();
    let radj = a.transposed_adjacency();
    let n = adj.len() as int;
    let k = pivot.len();
    let comp = a.components();
    let fd = b.forward_distances();
    let bd = b.backward_distances();
    let caps_f = Seq::new(k, |c: int| a.forward().high[pivot[c] as int]);
    let caps_b = Seq::new(k, |c: int| a.backward().high[pivot[c] as int]);
    assert(caps_ok(adj, pivot, caps_f)) by {
        assert forall|c: int| 0 <= c < pivot.len() implies ecc_at_most(
            adj,
            pivot[c] as int,
            (#[trigger] caps_f[c]) as int,
        ) by {
            assert(pivot[c] < n);
            assert(ecc_at_most(adj, pivot[c] as int, a.forward().high[pivot[c] as int] as int));
        }
    }
    assert(caps_ok(radj, pivot, caps_b)) by {
        assert forall|c: int| 0 <= c < pivot.len() implies ecc_at_most(
            radj,
            pivot[c] as int,
            (#[trigger] caps_b[c]) as int,
        ) by {
            assert(pivot[c] < n);
            assert(ecc_at_most(radj, pivot[c] as int, a.backward().high[pivot[c] as int] as int));
        }
    }
    let bound_f = a.pivot_bounds_forward(pivot, fd, bd);
    let bound_b = a.pivot_bounds_backward(pivot, fd, bd);
    assert(Seq::new(k, |c: int| largest_in(comp, fd, c)) =~= largest_of(comp, fd, k));
    assert(Seq::new(k, |c: int| largest_in(comp, bd, c)) =~= largest_of(comp, bd, k));
    assert forall|v: int| 0 <= v < n implies ecc_at_most(
        adj,
        v,
        (#[trigger] b.forward().high[v]) as int,
    ) by {
        let c = comp[v] as int;
        let p = pivot[c] as int;
        lemma_near_pivot(s, v);
        lemma_forward_bounds(s, caps_f, c);
        let reach = zeroed(bd)[v] + bound_f[c];
        assert forall|w: int| 0 <= w < n && #[trigger] reaches(adj, v, w) implies within(
            adj,
            v,
            w,
            reach,
        ) by {
            lemma_reaches_further(adj, p, v, w);
            assert(within(adj, p, w, bound_f[c] as int));
            lemma_within_join(adj, v, p, w, bd[v] as int, bound_f[c] as int);
        }
        assert(ecc_at_least(adj, v, a.forward().low[v] as int));
        assert(ecc_at_most(adj, v, a.forward().high[v] as int));
        lemma_tightened(adj, v, a.forward().low[v], a.forward().high[v], reach);
    }
    assert forall|v: int| 0 <= v < n implies ecc_at_most(
        radj,
        v,
        (#[trigger] b.backward().high[v]) as int,
    ) by {
        let c = comp[v] as int;
        let p = pivot[c] as int;
        lemma_near_pivot(s, v);
        lemma_backward_bounds(s, caps_b, c);
        let reach = zeroed(fd)[v] + bound_b[c];
        lemma_within_reversed(adj, radj, p, v, fd[v] as int);
        lemma_reverse_walk(adj, radj, v, p);
        assert forall|w: int| 0 <= w < n && #[trigger] reaches(radj, v, w) implies within(
            radj,
            v,
            w,
            reach,
        ) by {
            lemma_reaches_further(radj, p, v, w);
            assert(within(radj, p, w, bound_b[c] as int));
            lemma_within_join(radj, v, p, w, fd[v] as int, bound_b[c] as int);
        }
        assert(ecc_at_least(radj, v, a.backward().low[v] as int));
        assert(ecc_at_most(radj, v, a.backward().high[v] as int));
        lemma_tightened(radj, v, a.backward().low[v], a.backward().high[v], reach);
    }
    if b.spec_radius() != a.spec_radius() {
        let w = b.spec_radius().1 as int;
        assert(ecc_at_most(adj, w, b.forward().high[w] as int));
    }
}

/// The bounds of the computation are bounds of the eccentricities.
pub open spec fn sound(c: &DirExactSumSweepComputer) -> bool {
    lower_sound(c) && upper_sound(c)
}

/// The bounds of a computation that has made no move are sound, where the
/// transposed graph is the transposed graph; and none have met where the
/// graph has a node.
pub proof fn lemma_new_sound(c: &DirExactSumSweepComputer)
    requires
        c.wf(),
        is_transpose(c.adjacency(), c.transposed_adjacency()),
        c.spec_radius().0 == usize::MAX,
        c.spec_diameter().0 == 0,
        forall|v: int|
            0 <= v < c.spec_num_nodes() ==> (#[trigger] c.forward().low[v]) == 0
                && c.forward().high[v] == c.spec_num_nodes() && c.backward().low[v] == 0
                && c.backward().high[v] == c.spec_num_nodes(),
    ensures
        sound(c),
        all_open(c.forward()),
{
    c.lemma_wf();
    let adj = c.adjacency();
    let radj = c.transposed_adjacency();
    let n = adj.len() as int;
    assert forall|v: int| 0 <= v < n implies ecc_at_least(adj, v, (#[trigger] c.forward().low[v]) as int) by {
        lemma_ecc_at_least_none(adj, v);
    }
    assert forall|v: int| 0 <= v < n implies ecc_at_least(radj, v, (#[trigger] c.backward().low[v]) as int) by {
        assert(c.forward().low[v] == 0);
        lemma_ecc_at_least_none(radj, v);
    }
    assert forall|v: int| 0 <= v < n implies ecc_at_most(adj, v, (#[trigger] c.forward().high[v]) as int) by {
        assert(c.forward().low[v] == 0);
        lemma_ecc_below_nodes(adj, v, n);
    }
    assert forall|v: int| 0 <= v < n implies ecc_at_most(radj, v, (#[trigger] c.backward().high[v]) as int) by {
        assert(c.forward().low[v] == 0);
        lemma_ecc_below_nodes(radj, v, n);
    }
    assert forall|v: int| 0 <= v < n implies (#[trigger] c.backward().low[v]) <= c.spec_diameter().0 by {
        assert(c.forward().low[v] == 0);
    }
    if n > 0 {
        lemma_ecc_at_least_none(adj, c.spec_diameter().1 as int);
    }
    assert forall|v: int| 0 <= v < c.forward().high.len() implies (#[trigger] c.forward().high[v])
        != c.forward().low[v] by {
        assert(c.forward().low[v] == 0);
    }
}

/// A visit, or none, keeps the bounds sound.
pub proof fn lemma_step_sound(
    a: &DirExactSumSweepComputer,
    b: &DirExactSumSweepComputer,
    start: Option<usize>,
    forward: bool,
)
    requires
        a.wf(),
        sound(a),
        b.stepped(a, start, forward),
        start matches Some(s) ==> s < a.spec_num_nodes(),
    ensures
        sound(b),
{
    lemma_step_lower(a, b, start, forward);
    lemma_step_upper(a, b, start, forward);
}

/// The node that a move starts from is a node.
pub proof fn lemma_choice_is_node(
    c: &DirExactSumSweepComputer,
    values: Seq<usize>,
    ties: Seq<usize>,
    bounds: Bounds,
)
    requires
        c.wf(),
        values.len() == c.spec_num_nodes(),
    ensures
        c.choice(values, ties, bounds, true) matches Some(s) ==> s < c.spec_num_nodes(),
{
    c.lemma_wf();
}

/// A move of the main loop keeps the bounds sound.
pub proof fn lemma_move_sound(
    a: &DirExactSumSweepComputer,
    b: &DirExactSumSweepComputer,
    slot: usize,
)
    requires
        a.wf(),
        sound(a),
        slot < 5,
        b.moved(a, slot),
    ensures
        sound(b),
{
    a.lemma_wf();
    if slot == 0 {
        let pivot = choose|pivot: Seq<usize>| #[trigger]
            a.is_best_pivots(pivot) && b.components_moved(a, pivot);
        assert forall|c: int| 0 <= c < pivot.len() implies (#[trigger] pivot[c]) < a.spec_num_nodes()
            && a.components()[pivot[c] as int] == c by {
            assert(a.is_pivot_from(pivot[c] as int, 0));
        }
        lemma_components_move_lower(a, b, pivot);
        lemma_components_move_upper(a, b, pivot);
    } else if slot == 1 {
        lemma_choice_is_node(a, a.forward().high, a.forward().tot, a.forward());
        lemma_step_sound(
            a,
            b,
            a.choice(a.forward().high, a.forward().tot, a.forward(), true),
            true,
        );
    } else if slot == 2 {
        let next = choose|next: Option<usize>| #[trigger]
            is_marked_choice(a.forward().low, a.forward().tot, a.radial(), next) && b.stepped(
                a,
                next,
                true,
            );
        lemma_step_sound(a, b, next, true);
    } else if slot == 3 {
        lemma_choice_is_node(a, a.backward().high, a.backward().tot, a.backward());
        lemma_step_sound(
            a,
            b,
            a.choice(a.backward().high, a.backward().tot, a.backward(), true),
            false,
        );
    } else {
        lemma_choice_is_node(a, a.backward().tot, a.backward().high, a.backward());
        lemma_step_sound(
            a,
            b,
            a.choice(a.backward().tot, a.backward().high, a.backward(), true),
            false,
        );
    }
}

/// The first visits of a computation keep the bounds sound.
pub proof fn lemma_swept_sound(
    a: &DirExactSumSweepComputer,
    b: &DirExactSumSweepComputer,
    start: usize,
    count: nat,
)
    requires
        a.wf(),
        sound(a),
        start < a.spec_num_nodes(),
        b.swept(a, start, count),
    ensures
        sound(b),
    decreases count,
{
    if count <= 1 {
        lemma_step_sound(a, b, Some(start), true);
    } else {
        let mid = choose|mid: DirExactSumSweepComputer|
            mid.wf() && mid.swept(a, start, (count - 1) as nat) && #[trigger] b.stepped(
                &mid,
                mid.by_total(goes_forward(count)),
                goes_forward(count),
            );
        lemma_swept_sound(a, &mid, start, (count - 1) as nat);
        mid.lemma_wf();
        lemma_choice_is_node(&mid, mid.forward().tot, mid.forward().low, mid.forward());
        lemma_choice_is_node(&mid, mid.backward().tot, mid.backward().low, mid.backward());
        lemma_step_sound(&mid, b, mid.by_total(goes_forward(count)), goes_forward(count));
    }
}

/// The start of a computation keeps the bounds sound, where the bounds of
/// no forward eccentricity had met.
pub proof fn lemma_begun_sound(a: &DirExactSumSweepComputer, b: &DirExactSumSweepComputer)
    requires
        a.wf(),
        sound(a),
        all_open(a.forward()),
        b.begun(a),
    ensures
        sound(b),
{
    if a.spec_num_nodes() > 0 {
        let (mid, v) = choose|mid: DirExactSumSweepComputer, v: usize| #[trigger]
            b.swept(&mid, v, 6) && mid.wf() && mid.radial_ready(a) && has_most_successors(
                a.adjacency(),
                v as int,
            );
        if a.radial_pending() {
            lemma_radial_sound(a, &mid);
        }
        lemma_swept_sound(&mid, b, v, 6);
    }
}

/// Every forward eccentricity is at most `d`, and one is `d` at least.
pub open spec fn is_diameter(adj: Seq<Seq<usize>>, d: int) -> bool {
    &&& forall|v: int| 0 <= v < adj.len() ==> #[trigger] ecc_at_most(adj, v, d)
    &&& exists|v: int| 0 <= v < adj.len() && #[trigger] ecc_at_least(adj, v, d)
}

/// The forward eccentricity of every radial node is at least `r`, and
/// that of one is `r` at most.
pub open spec fn is_radius(adj: Seq<Seq<usize>>, radial: Seq<bool>, r: int) -> bool {
    &&& forall|v: int| 0 <= v < adj.len() && radial[v] ==> #[trigger] ecc_at_least(adj, v, r)
    &&& exists|v: int| 0 <= v < adj.len() && radial[v] && #[trigger] ecc_at_most(adj, v, r)
}

/// A node that is far from another in the transposed graph has a node
/// that is as far from it in the graph.
pub proof fn lemma_far_back(adj: Seq<Seq<usize>>, radj: Seq<Seq<usize>>, u: int, l: int) -> (w: int)
    requires
        is_transpose(adj, radj),
        ecc_at_least(radj, u, l),
    ensures
        0 <= w < adj.len(),
        ecc_at_least(adj, w, l),
{
    let w = choose|w: int| #[trigger] is_far(radj, u, w, l);
    lemma_reverse_walk(radj, adj, u, w);
    if within(adj, w, u, l - 1) {
        lemma_within_reversed(adj, radj, w, u, l - 1);
    }
    crate::graph::lemma_reaches_nodes(adj, w, u);
    assert(is_far(adj, w, u, l));
    w
}

/// Where the bounds are sound and no node is missing for the diameter by
/// its forward eccentricity, the lower bound of the diameter is the
/// diameter.
pub proof fn lemma_diameter_found(c: &DirExactSumSweepComputer)
    requires
        c.wf(),
        sound(c),
        c.spec_num_nodes() > 0,
        forall|v: int| 0 <= v < c.spec_num_nodes() ==> !#[trigger] c.missing_for_diameter_forward(v),
    ensures
        is_diameter(c.adjacency(), c.spec_diameter().0 as int),
{
    c.lemma_wf();
    let adj = c.adjacency();
    let radj = c.transposed_adjacency();
    let d = c.spec_diameter().0;
    assert forall|v: int| 0 <= v < adj.len() implies #[trigger] ecc_at_most(adj, v, d as int) by {
        assert(!c.missing_for_diameter_forward(v));
        assert(ecc_at_most(adj, v, c.forward().high[v] as int));
        assert(c.forward().low[v] <= d);
        lemma_ecc_at_most_more(adj, v, c.forward().high[v] as int, d as int);
    }
    let u = c.spec_diameter().1 as int;
    if !ecc_at_least(adj, u, d as int) {
        let w = lemma_far_back(adj, radj, u, d as int);
    }
}

/// Where the bounds are sound, no radial node is missing for the radius
/// and a radial node has given the radius its bound, the upper bound of the
/// radius is the radius: the smallest forward eccentricity of a radial
/// node.
pub proof fn lemma_radius_found(c: &DirExactSumSweepComputer)
    requires
        c.wf(),
        sound(c),
        c.spec_radius().0 != usize::MAX,
        forall|v: int| 0 <= v < c.spec_num_nodes() ==> !#[trigger] c.missing_for_radius(v),
    ensures
        is_radius(c.adjacency(), c.radial(), c.spec_radius().0 as int),
{
    c.lemma_wf();
    let adj = c.adjacency();
    let r = c.spec_radius().0;
    assert forall|v: int| 0 <= v < adj.len() && c.radial()[v] implies #[trigger] ecc_at_least(
        adj,
        v,
        r as int,
    ) by {
        assert(!c.missing_for_radius(v));
        assert(ecc_at_least(adj, v, c.forward().low[v] as int));
        if c.forward().low[v] == c.forward().high[v] {
            assert(r <= c.forward().high[v]);
        }
        lemma_ecc_at_least_less(adj, v, c.forward().low[v] as int, r as int);
    }
    assert(ecc_at_most(adj, c.spec_radius().1 as int, r as int));
}

} // verus!
