//! The ExactSumSweep algorithm on directed graphs.
//!
//! For every node the algorithm keeps a lower and an upper bound on its
//! forward and on its backward eccentricity. A breadth-first visit from a
//! node settles the eccentricity of that node and raises the lower bounds
//! of the nodes it reaches, in the opposite direction; a pass over the
//! graph of the strongly connected components lowers the upper bounds. The
//! computation is over when the bounds that the wanted output depends on
//! have met.
//!
//! This module holds the moves of the algorithm and the count of the nodes
//! that are still missing. Which move comes next is decided by the caller
//! from the counts.
use crate::algo::exact_sum_sweep::scc_graph::{SccGraph, SccGraphConnection};
use crate::algo::sccs::basic::{has_member, in_topological_order, is_scc_table, BasicSccs};
use crate::algo::sccs::tarjan::tarjan;
use crate::algo::visits::breadth_first::{
    discovery, event_in_range, is_largest_distance, stopped_by, Event,
    SingleThreadedBreadthFirstVisit, UNREACHED,
};
use crate::algo::exact_sum_sweep::soundness::{
    all_open, lemma_begun_sound, lemma_components_move_lower, lemma_components_move_upper,
    lemma_backward_visit_lower, lemma_backward_visit_upper, lemma_forward_visit_lower,
    lemma_forward_visit_upper, lemma_move_sound, lemma_new_sound, lemma_radial_sound,
    lemma_step_sound, lemma_swept_sound, sound,
};
use crate::graph::{arc_count, has_arc, is_transpose, Graph};
use crate::utils::argmax::{argmax, filtered_argmax};
use crate::utils::marks::Marks;
use crate::utils::argmin::filtered_argmin;
use vstd::prelude::*;

verus! {

/// What the computation is to find.
#[derive(Clone, Copy, Debug, PartialEq, Eq, Structural)]
pub enum Output {
    /// The radius.
    Radius,
    /// The diameter.
    Diameter,
    /// The radius and the diameter.
    RadiusDiameter,
    /// All forward eccentricities.
    AllForward,
    /// All forward and all backward eccentricities.
    All,
}

/// Why a computation cannot be set up.
#[derive(Clone, Copy, Debug, PartialEq, Eq, Structural)]
pub enum SumSweepError {
    /// The transposed graph differs from the graph in the number of nodes or
    /// of arcs.
    MismatchedTranspose,
    /// There is not one mark per node that says whether the node is radial.
    MismatchedRadialVertices,
}

impl SumSweepError {
    /// What the error says, in words.
    pub open spec fn spec_message(self) -> Seq<char> {
        match self {
            SumSweepError::MismatchedTranspose => {
                "the transposed graph differs from the graph in the number of nodes or of arcs"@
            },
            SumSweepError::MismatchedRadialVertices => {
                "there is not one mark per node for the radial vertices"@
            },
        }
    }

    /// What the error says, in words.
    pub fn message(&self) -> (text: String)
        ensures
            text@ == self.spec_message(),
    {
        let text: &str = match self {
            SumSweepError::MismatchedTranspose => {
                "the transposed graph differs from the graph in the number of nodes or of arcs"
            },
            SumSweepError::MismatchedRadialVertices => {
                "there is not one mark per node for the radial vertices"
            },
        };
        text.to_string()
    }
}

/// The state of an ExactSumSweep computation.
pub struct DirExactSumSweepComputer<'a> {
    graph: &'a Graph,
    transpose: &'a Graph,
    output: Output,
    num_nodes: usize,
    radial_vertices: Marks,
    /// The lower bound of the diameter.
    diameter_low: usize,
    /// The upper bound of the radius.
    radius_high: usize,
    /// A vertex whose eccentricity equals the lower bound of the diameter.
    diameter_vertex: usize,
    /// A vertex whose eccentricity equals the upper bound of the radius.
    radius_vertex: usize,
    /// The number of iterations done.
    iterations: usize,
    /// The lower bounds of the forward eccentricities.
    forward_low: Vec<usize>,
    /// The upper bounds of the forward eccentricities.
    forward_high: Vec<usize>,
    /// The lower bounds of the backward eccentricities.
    backward_low: Vec<usize>,
    /// The upper bounds of the backward eccentricities.
    backward_high: Vec<usize>,
    /// The number of iterations after which the radius was found.
    radius_iterations: Option<usize>,
    /// The number of iterations after which the diameter was found.
    diameter_iterations: Option<usize>,
    /// The number of iterations after which all forward eccentricities were
    /// found.
    forward_iter: Option<usize>,
    /// The number of iterations after which all eccentricities were found.
    all_iter: Option<usize>,
    /// The strongly connected components.
    scc: BasicSccs,
    /// The graph of the strongly connected components.
    scc_graph: SccGraph,
    /// For every node the sum of its distances to the nodes from which a
    /// backward visit started.
    forward_tot: Vec<usize>,
    /// For every node the sum of its distances from the nodes from which a
    /// forward visit started.
    backward_tot: Vec<usize>,
    /// Whether the radial vertices are still to be computed.
    compute_radial_vertices: bool,
    visit: SingleThreadedBreadthFirstVisit<'a>,
    transposed_visit: SingleThreadedBreadthFirstVisit<'a>,
}

/// The bounds on the eccentricities of every node, in one direction.
pub struct Bounds {
    /// The lower bounds.
    pub low: Seq<usize>,
    /// The upper bounds.
    pub high: Seq<usize>,
    /// The sums of distances by which ties are broken.
    pub tot: Seq<usize>,
}

/// No lower bound is above its upper bound.
pub open spec fn bounds_in_order(b: Bounds) -> bool {
    &&& b.low.len() == b.high.len()
    &&& b.tot.len() == b.high.len()
    &&& forall|v: int| 0 <= v < b.low.len() ==> (#[trigger] b.low[v]) <= b.high[v]
}

impl<'a> DirExactSumSweepComputer<'a> {
    /// The lists of successors of the graph.
    pub closed spec fn adjacency(&self) -> Seq<Seq<usize>> {
        self.graph@
    }

    /// The lists of successors of the transposed graph.
    pub closed spec fn transposed_adjacency(&self) -> Seq<Seq<usize>> {
        self.transpose@
    }

    /// The number of nodes.
    pub open spec fn spec_num_nodes(&self) -> nat {
        self.adjacency().len()
    }

    /// What the computation is to find.
    pub closed spec fn spec_output(&self) -> Output {
        self.output
    }

    /// The bounds on the forward eccentricities.
    pub closed spec fn forward(&self) -> Bounds {
        Bounds { low: self.forward_low@, high: self.forward_high@, tot: self.forward_tot@ }
    }

    /// The bounds on the backward eccentricities.
    pub closed spec fn backward(&self) -> Bounds {
        Bounds { low: self.backward_low@, high: self.backward_high@, tot: self.backward_tot@ }
    }

    /// For every node whether it can be the witness of the radius.
    pub closed spec fn radial(&self) -> Seq<bool> {
        self.radial_vertices@
    }

    /// Whether the radial vertices are still to be computed.
    pub closed spec fn radial_pending(&self) -> bool {
        self.compute_radial_vertices
    }

    /// The component of every node.
    pub closed spec fn components(&self) -> Seq<usize> {
        self.scc.components()
    }

    /// The number of components.
    pub closed spec fn spec_num_components(&self) -> nat {
        self.scc.spec_num_components()
    }

    /// The upper bound of the radius and a node that attains it.
    pub closed spec fn spec_radius(&self) -> (usize, usize) {
        (self.radius_high, self.radius_vertex)
    }

    /// The lower bound of the diameter and a node that attains it.
    pub closed spec fn spec_diameter(&self) -> (usize, usize) {
        (self.diameter_low, self.diameter_vertex)
    }

    /// The number of iterations done.
    pub closed spec fn spec_iterations(&self) -> nat {
        self.iterations as nat
    }

    /// The numbers of iterations after which the radius, the diameter, all
    /// forward eccentricities and all eccentricities were found.
    pub closed spec fn spec_found_after(&self) -> (
        Option<usize>,
        Option<usize>,
        Option<usize>,
        Option<usize>,
    ) {
        (self.radius_iterations, self.diameter_iterations, self.forward_iter, self.all_iter)
    }

    /// The invariant of the computation. Among other things, no lower bound
    /// is above its upper bound.
    pub closed spec fn wf(&self) -> bool {
        let n = self.graph@.len();
        &&& self.graph.wf()
        &&& self.transpose.wf()
        &&& self.transpose@.len() == n
        &&& self.num_nodes == n
        &&& self.radial_vertices@.len() == n
        &&& self.forward_low@.len() == n
        &&& self.backward_low@.len() == n
        &&& bounds_in_order(self.forward())
        &&& bounds_in_order(self.backward())
        &&& forall|v: int| 0 <= v < n ==> (#[trigger] self.forward_high@[v]) <= n
        &&& forall|v: int| 0 <= v < n ==> (#[trigger] self.backward_high@[v]) <= n
        &&& n > 0 ==> self.radius_vertex < n && self.diameter_vertex < n
        &&& self.diameter_low <= n
        &&& self.scc.wf()
        &&& self.scc.inhabited()
        &&& in_topological_order(self.scc.components(), self.graph@)
        &&& is_scc_table(self.scc.components(), self.graph@)
        &&& self.scc.components().len() == n
        &&& self.scc_graph.is_for(self.graph@, self.transpose@, self.scc.components())
        &&& self.scc_graph.spec_num_components() == self.scc.spec_num_components()
        &&& self.visit.wf()
        &&& self.visit.adjacency() == self.graph@
        &&& self.transposed_visit.wf()
        &&& self.transposed_visit.adjacency() == self.transpose@
    }

    /// What the invariant says of the bounds.
    pub proof fn lemma_wf(&self)
        requires
            self.wf(),
        ensures
            bounds_in_order(self.forward()),
            bounds_in_order(self.backward()),
            self.forward().low.len() == self.spec_num_nodes(),
            self.backward().low.len() == self.spec_num_nodes(),
            self.radial().len() == self.spec_num_nodes(),
            self.components().len() == self.spec_num_nodes(),
            self.transposed_adjacency().len() == self.spec_num_nodes(),
            self.spec_num_nodes() < usize::MAX,
            forall|v: int|
                0 <= v < self.spec_num_nodes() ==> (#[trigger] self.forward().high[v])
                    <= self.spec_num_nodes(),
            forall|v: int|
                0 <= v < self.spec_num_nodes() ==> (#[trigger] self.backward().high[v])
                    <= self.spec_num_nodes(),
            forall|v: int|
                0 <= v < self.spec_num_nodes() ==> (#[trigger] self.components()[v])
                    < self.spec_num_components(),
            is_scc_table(self.components(), self.adjacency()),
            in_topological_order(self.components(), self.adjacency()),
            crate::graph::successors_in_range(self.adjacency()),
            crate::graph::successors_in_range(self.transposed_adjacency()),
            self.spec_num_nodes() > 0 ==> self.spec_radius().1 < self.spec_num_nodes()
                && self.spec_diameter().1 < self.spec_num_nodes(),
            self.adjacency().len() == self.spec_num_nodes(),
    {
        self.graph.lemma_wf();
        self.transpose.lemma_wf();
    }

    /// Sets up the computation for `graph` and its transposed graph.
    ///
    /// Without marks for the radial vertices, they are computed when the
    /// computation starts: the nodes from which the largest strongly
    /// connected component can be reached.
    pub fn new(
        graph: &'a Graph,
        transpose: &'a Graph,
        output: Output,
        radial_vertices: Option<Vec<bool>>,
    ) -> (res: Result<Self, SumSweepError>)
        requires
            graph.wf(),
            transpose.wf(),
        ensures
            match res {
                Ok(computer) => {
                    &&& setup_error(graph@, transpose@, radial_vertices) is None
                    &&& computer.wf()
                    &&& computer.adjacency() == graph@
                    &&& computer.transposed_adjacency() == transpose@
                    &&& computer.spec_output() == output
                    &&& computer.spec_iterations() == 0
                    &&& computer.radial_pending() == radial_vertices is None
                    &&& radial_vertices matches Some(marks) ==> computer.radial() == marks@
                    &&& computer.spec_radius().0 == usize::MAX
                    &&& computer.spec_diameter().0 == 0
                    &&& computer.spec_found_after() == (
                        None::<usize>,
                        None::<usize>,
                        None::<usize>,
                        None::<usize>,
                    )
                    &&& forall|v: int|
                        0 <= v < graph@.len() ==> (#[trigger] computer.forward().low[v]) == 0
                            && computer.forward().high[v] == graph@.len()
                            && computer.forward().tot[v] == 0 && computer.backward().low[v] == 0
                            && computer.backward().high[v] == graph@.len()
                            && computer.backward().tot[v] == 0
                },
                Err(e) => setup_error(graph@, transpose@, radial_vertices) == Some(e),
            },
            res matches Ok(computer) ==> (is_transpose(graph@, transpose@) ==> sound(&computer))
                && all_open(computer.forward()),
    {
        let n: usize = graph.num_nodes();
        if transpose.num_nodes() != n || transpose.num_arcs() != graph.num_arcs() {
            return Err(SumSweepError::MismatchedTranspose);
        }
        let compute_radial_vertices: bool = radial_vertices.is_none();
let marks: Marks = match radial_vertices {
            Some(given) => {
                if given.len() != n {
                    return Err(SumSweepError::MismatchedRadialVertices);
                }
                marks_of(&given)
            },
            None => Marks::new(n),
        };
        let scc: BasicSccs = tarjan(graph);
        let scc_graph: SccGraph = SccGraph::new(graph, transpose, &scc);
        proof {
            graph.lemma_wf();
        }
        let computer = DirExactSumSweepComputer {
            graph,
            transpose,
            output,
            num_nodes: n,
            radial_vertices: marks,
            diameter_low: 0,
            radius_high: usize::MAX,
            diameter_vertex: 0,
            radius_vertex: 0,
            iterations: 0,
            forward_low: vec![0usize; n],
            forward_high: vec![n; n],
            backward_low: vec![0usize; n],
            backward_high: vec![n; n],
            radius_iterations: None,
            diameter_iterations: None,
            forward_iter: None,
            all_iter: None,
            scc,
            scc_graph,
            forward_tot: vec![0usize; n],
            backward_tot: vec![0usize; n],
            compute_radial_vertices,
            visit: SingleThreadedBreadthFirstVisit::new(graph),
            transposed_visit: SingleThreadedBreadthFirstVisit::new(transpose),
        };
        proof {
            if is_transpose(graph@, transpose@) {
                lemma_new_sound(&computer);
            }
        }
        Ok(computer)
    }

    /// Sets up the computation for a symmetric graph, which is its own
    /// transposed graph. Backward eccentricities are then forward
    /// eccentricities, and asking for all of them asks for the forward ones.
    pub fn new_undirected(graph: &'a Graph, output: Output) -> (res: Result<Self, SumSweepError>)
        requires
            graph.wf(),
        ensures
            res matches Ok(computer) && computer.wf() && computer.adjacency() == graph@
                && computer.transposed_adjacency() == graph@ && computer.spec_output() == (
            match output {
                Output::All => Output::AllForward,
                other => other,
            }) && computer.spec_iterations() == 0 && computer.radial_pending(),
            res matches Ok(computer) ==> (is_transpose(graph@, graph@) ==> sound(&computer))
                && all_open(computer.forward()),
    {
        let output = match output {
            Output::Radius => Output::Radius,
            Output::Diameter => Output::Diameter,
            Output::RadiusDiameter => Output::RadiusDiameter,
            _ => Output::AllForward,
        };
        Self::new(graph, graph, output, None)
    }

    /// Whether the forward eccentricity of node `index` is still open.
    pub fn incomplete_forward(&self, index: usize) -> (b: bool)
        requires
            self.wf(),
            index < self.spec_num_nodes(),
        ensures
            b == (self.forward().low[index as int] != self.forward().high[index as int]),
    {
        self.forward_low[index] != self.forward_high[index]
    }

    /// Whether the backward eccentricity of node `index` is still open.
    pub fn incomplete_backward(&self, index: usize) -> (b: bool)
        requires
            self.wf(),
            index < self.spec_num_nodes(),
        ensures
            b == (self.backward().low[index as int] != self.backward().high[index as int]),
    {
        self.backward_low[index] != self.backward_high[index]
    }

    /// The distances that the last forward visit found.
    pub closed spec fn forward_distances(&self) -> Seq<usize> {
        self.visit.distances()
    }

    /// The distances that the last backward visit found.
    pub closed spec fn backward_distances(&self) -> Seq<usize> {
        self.transposed_visit.distances()
    }

    /// What a move leaves as it was: the graphs, the wanted output, the
    /// components and the radial vertices.
    pub open spec fn same_setup(&self, before: &Self) -> bool {
        &&& self.adjacency() == before.adjacency()
        &&& self.transposed_adjacency() == before.transposed_adjacency()
        &&& self.spec_output() == before.spec_output()
        &&& self.components() == before.components()
        &&& self.spec_num_components() == before.spec_num_components()
        &&& self.radial() == before.radial()
        &&& self.radial_pending() == before.radial_pending()
    }

    /// The diameter after a visit from `start` has found the eccentricity
    /// `ecc`: raised to it where it is larger, with `start` as its witness.
    pub open spec fn diameter_raised(before: (usize, usize), start: usize, ecc: usize) -> (
        usize,
        usize,
    ) {
        if before.0 < ecc {
            (ecc, start)
        } else {
            before
        }
    }

    /// `self` is `before` after a forward visit from `start`: the eccentricity
    /// of `start` is the largest distance that the visit found, and its
    /// bounds meet there; the lower bounds of the backward eccentricities of
    /// the reached nodes have risen to their distances; the diameter has
    /// risen to the eccentricity, and where `start` is radial the radius has
    /// fallen to it.
    pub open spec fn forward_visited(&self, before: &Self, start: usize) -> bool {
        &&& self.same_setup(before)
        &&& self.spec_found_after() == before.spec_found_after()
        &&& crate::algo::visits::breadth_first::is_distance_table(
                self.adjacency(),
                start as int,
                self.forward_distances(),
            )
        &&& lower_bounds_raised(
                before.backward(),
                self.backward(),
                self.forward_distances(),
            )
        &&& exists|ecc: usize| #[trigger]
                is_largest_distance(self.forward_distances(), ecc) && self.forward()
                    == (Bounds {
                    low: before.forward().low.update(start as int, ecc),
                    high: before.forward().high.update(start as int, ecc),
                    tot: before.forward().tot,
                }) && self.spec_diameter() == Self::diameter_raised(
                    before.spec_diameter(),
                    start,
                    ecc,
                ) && self.spec_radius() == (if before.radial()[start as int] && before.spec_radius().0 > ecc {
                    (ecc, start)
                } else {
                    before.spec_radius()
                })
    }

    /// `self` is `before` after a backward visit from `start`, on the
    /// transposed graph: the same with the directions exchanged, and the
    /// radius has fallen to the bounds of the radial nodes whose bounds have
    /// met.
    pub open spec fn backward_visited(&self, before: &Self, start: usize) -> bool {
        &&& self.same_setup(before)
        &&& self.spec_found_after() == before.spec_found_after()
        &&& crate::algo::visits::breadth_first::is_distance_table(
                self.transposed_adjacency(),
                start as int,
                self.backward_distances(),
            )
        &&& lower_bounds_raised(
                before.forward(),
                self.forward(),
                self.backward_distances(),
            )
        &&& radius_shrunk(
                before.spec_radius(),
                self.spec_radius(),
                before.forward(),
                before.radial(),
                self.backward_distances(),
            )
        &&& exists|ecc: usize| #[trigger]
                is_largest_distance(self.backward_distances(), ecc) && self.backward() == (Bounds {
                    low: before.backward().low.update(start as int, ecc),
                    high: before.backward().high.update(start as int, ecc),
                    tot: before.backward().tot,
                }) && self.spec_diameter() == Self::diameter_raised(
                    before.spec_diameter(),
                    start,
                    ecc,
                )
    }

    /// `self` is `before` after the move on the graph of the components from
    /// the pivots `pivot`.
    pub open spec fn components_moved(&self, before: &Self, pivot: Seq<usize>) -> bool {
        &&& self.same_setup(before)
        &&& self.spec_found_after() == before.spec_found_after()
        &&& self.spec_iterations() == before.spec_iterations() + 3
        &&& self.spec_diameter() == before.spec_diameter()
        &&& is_pivot_distance_table(
                self.adjacency(),
                self.components(),
                pivot,
                self.forward_distances(),
                pivot.len() as int,
            )
        &&& is_pivot_distance_table(
                self.transposed_adjacency(),
                self.components(),
                pivot,
                self.backward_distances(),
                pivot.len() as int,
            )
        &&& upper_bounds_lowered(
                before.forward(),
                self.forward(),
                zeroed(self.backward_distances()),
                before.pivot_bounds_forward(
                    pivot,
                    self.forward_distances(),
                    self.backward_distances(),
                ),
                before.components(),
            )
        &&& upper_bounds_lowered(
                before.backward(),
                self.backward(),
                zeroed(self.forward_distances()),
                before.pivot_bounds_backward(
                    pivot,
                    self.forward_distances(),
                    self.backward_distances(),
                ),
                before.components(),
            )
        &&& radius_met(
                before.spec_radius(),
                self.spec_radius(),
                self.forward(),
                before.radial(),
            )
    }

    /// `self` is `before` with the radial vertices computed: the nodes that a
    /// backward visit reaches from the last node of the first among the
    /// largest components are marked, whatever was marked stays so, and
    /// nothing else has changed.
    pub open spec fn radial_computed(&self, before: &Self) -> bool {
        &&& self.adjacency() == before.adjacency()
        &&& self.transposed_adjacency() == before.transposed_adjacency()
        &&& self.spec_output() == before.spec_output()
        &&& self.components() == before.components()
        &&& self.spec_num_components() == before.spec_num_components()
        &&& self.radial_pending() == before.radial_pending()
        &&& self.spec_found_after() == before.spec_found_after()
        &&& self.forward() == before.forward()
        &&& self.backward() == before.backward()
        &&& self.spec_radius() == before.spec_radius()
        &&& self.spec_diameter() == before.spec_diameter()
        &&& self.spec_iterations() == before.spec_iterations()
        &&& self.radial().len() == before.radial().len()
        &&& exists|c: int, root: int|
                crate::utils::argmax::is_first_max(before.component_sizes(), c)
                    && #[trigger] is_last_member(before.components(), c, root)
                    && crate::algo::visits::breadth_first::is_distance_table(
                    self.transposed_adjacency(),
                    root,
                    self.backward_distances(),
                )
        &&& forall|v: int|
                0 <= v < before.radial().len()
                    ==> #[trigger] self.radial()[v] == (before.radial()[v] || self.backward_distances()[v] != UNREACHED)
    }

    /// A forward visit from `start`: the eccentricity of `start` is the
    /// largest distance that the visit finds, and its bounds meet there;
    /// the lower bounds of the backward eccentricities of the reached nodes
    /// rise to their distances; the diameter rises to the eccentricity, and
    /// where `start` is radial the radius falls to it.
    pub fn forward_step_sum_sweep(&mut self, start: usize)
        requires
            old(self).wf(),
            start < old(self).spec_num_nodes(),
        ensures
            final(self).wf(),
            final(self).forward_visited(old(self), start),
            final(self).spec_iterations() == old(self).spec_iterations(),
            sound(old(self)) ==> sound(final(self)),
    {
        let ghost before = *self;
        self.visit.distances_from(start);
        let (ecc, _) = raise_lower_bounds(
            &self.visit,
            &mut self.backward_low,
            &self.backward_high,
            &mut self.backward_tot,
            &self.radial_vertices,
            false,
            (self.radius_high, self.radius_vertex),
        );
        self.forward_low.set(start, ecc);
        self.forward_high.set(start, ecc);
        if self.diameter_low < ecc {
            self.diameter_low = ecc;
            self.diameter_vertex = start;
        }
        if self.radial_vertices.get(start) && self.radius_high > ecc {
            self.radius_high = ecc;
            self.radius_vertex = start;
        }
        proof {
            assert(is_largest_distance(self.forward_distances(), ecc));
            assert(self.forward().low =~= old(self).forward().low.update(start as int, ecc));
            assert(self.forward().high =~= old(self).forward().high.update(start as int, ecc));
        }
        proof {
            if sound(&before) {
                lemma_forward_visit_lower(&before, self, start);
                lemma_forward_visit_upper(&before, self, start);
            }
        }
    }

    /// A backward visit from `start`, on the transposed graph: the backward
    /// eccentricity of `start` is the largest distance that the visit
    /// finds, and its bounds meet there; the lower bounds of the forward
    /// eccentricities of the reached nodes rise to their distances; the
    /// radius falls to the bounds of the radial nodes whose bounds have
    /// met; the diameter rises to the eccentricity.
    pub fn backwards_step_sum_sweep(&mut self, start: usize)
        requires
            old(self).wf(),
            start < old(self).spec_num_nodes(),
        ensures
            final(self).wf(),
            final(self).backward_visited(old(self), start),
            final(self).spec_iterations() == old(self).spec_iterations(),
            sound(old(self)) ==> sound(final(self)),
    {
        let ghost before = *self;
        self.transposed_visit.distances_from(start);
        let (ecc, radius) = raise_lower_bounds(
            &self.transposed_visit,
            &mut self.forward_low,
            &self.forward_high,
            &mut self.forward_tot,
            &self.radial_vertices,
            true,
            (self.radius_high, self.radius_vertex),
        );
        self.backward_low.set(start, ecc);
        self.backward_high.set(start, ecc);
        self.radius_high = radius.0;
        self.radius_vertex = radius.1;
        if self.diameter_low < ecc {
            self.diameter_low = ecc;
            self.diameter_vertex = start;
        }
        proof {
            assert(is_largest_distance(self.backward_distances(), ecc));
            assert(self.backward().low =~= old(self).backward().low.update(start as int, ecc));
            assert(self.backward().high =~= old(self).backward().high.update(start as int, ecc));
        }
        proof {
            if sound(&before) {
                lemma_backward_visit_lower(&before, self, start);
                lemma_backward_visit_upper(&before, self, start);
            }
        }
    }

    /// `self` is `before` but for what the visits keep for themselves.
    pub open spec fn unchanged(&self, before: &Self) -> bool {
        &&& self.same_setup(before)
        &&& self.spec_found_after() == before.spec_found_after()
        &&& self.spec_iterations() == before.spec_iterations()
        &&& self.forward() == before.forward()
        &&& self.backward() == before.backward()
        &&& self.spec_radius() == before.spec_radius()
        &&& self.spec_diameter() == before.spec_diameter()
    }

    /// `self` is `before` after a visit from `start`, forward or backward,
    /// which counts as one iteration; without a start nothing has changed.
    pub open spec fn stepped(&self, before: &Self, start: Option<usize>, forward: bool) -> bool {
        match start {
            Some(s) => {
                &&& self.spec_iterations() == before.spec_iterations() + 1
                &&& forward ==> self.forward_visited(before, s)
                &&& !forward ==> self.backward_visited(before, s)
            },
            None => self.unchanged(before),
        }
    }

    /// A visit from `start`, forward or backward, which counts as one
    /// iteration; without a start nothing happens.
    pub fn step_sum_sweep(&mut self, start: Option<usize>, forward: bool)
        requires
            old(self).wf(),
            start matches Some(s) ==> s < old(self).spec_num_nodes(),
            old(self).spec_iterations() < usize::MAX,
        ensures
            final(self).wf(),
            final(self).stepped(old(self), start, forward),
            sound(old(self)) ==> sound(final(self)),
    {
        let ghost before = *self;
        match start {
            Some(s) => {
                if forward {
                    self.forward_step_sum_sweep(s);
                } else {
                    self.backwards_step_sum_sweep(s);
                }
                let ghost mid = *self;
                self.iterations = self.iterations + 1;
                proof {
                    assert(self.forward() == mid.forward());
                    assert(self.backward() == mid.backward());
                    assert(self.forward_distances() == mid.forward_distances());
                    assert(self.backward_distances() == mid.backward_distances());
                    assert(self.same_setup(old(self)));
                    if forward {
                        assert(mid.forward_visited(old(self), s));
                        let ecc = choose|ecc: usize| #[trigger]
                            is_largest_distance(mid.forward_distances(), ecc) && mid.forward()
                                == (Bounds {
                                low: old(self).forward().low.update(s as int, ecc),
                                high: old(self).forward().high.update(s as int, ecc),
                                tot: old(self).forward().tot,
                            });
                        assert(is_largest_distance(self.forward_distances(), ecc));
                        assert(self.forward_visited(old(self), s));
                    } else {
                        assert(mid.backward_visited(old(self), s));
                        let ecc = choose|ecc: usize| #[trigger]
                            is_largest_distance(mid.backward_distances(), ecc) && mid.backward()
                                == (Bounds {
                                low: old(self).backward().low.update(s as int, ecc),
                                high: old(self).backward().high.update(s as int, ecc),
                                tot: old(self).backward().tot,
                            });
                        assert(is_largest_distance(self.backward_distances(), ecc));
                        assert(self.backward_visited(old(self), s));
                    }
                }
            },
            None => {},
        }
        proof {
            if sound(&before) {
                lemma_step_sound(&before, self, start, forward);
            }
        }
    }

    /// The score by which the pivot of a component is chosen: the sum of
    /// the lower bounds of the node, and the number of nodes once more for
    /// each direction in which its eccentricity is settled.
    pub open spec fn pivot_score(&self, v: int) -> int {
        self.backward().low[v] + self.forward().low[v] + (if self.forward().low[v]
            != self.forward().high[v] {
            0
        } else {
            self.spec_num_nodes() as int
        }) + (if self.backward().low[v] != self.backward().high[v] {
            0
        } else {
            self.spec_num_nodes() as int
        })
    }

    /// The sum of distances by which ties between pivots are broken.
    pub open spec fn pivot_tie(&self, v: int) -> int {
        self.forward().tot[v] + self.backward().tot[v]
    }

    /// Node `p` is a better pivot than node `v`, or as good.
    pub open spec fn pivot_no_worse(&self, p: int, v: int) -> bool {
        self.pivot_score(p) < self.pivot_score(v) || (self.pivot_score(p) == self.pivot_score(v)
            && self.pivot_tie(p) <= self.pivot_tie(v))
    }

    /// Node `p` is the pivot of its component among the nodes from `from`
    /// on: no such node of the component is better, and none before `p` is
    /// as good.
    pub open spec fn is_pivot_from(&self, p: int, from: int) -> bool {
        &&& from <= p < self.spec_num_nodes()
        &&& forall|v: int|
            from <= v < self.spec_num_nodes() && #[trigger] self.components()[v]
                == self.components()[p] ==> self.pivot_no_worse(p, v) && (v < p
                ==> !self.pivot_no_worse(v, p))
    }

    fn score(&self, v: usize) -> (res: (u128, u128))
        requires
            self.wf(),
            v < self.spec_num_nodes(),
        ensures
            res.0 == self.pivot_score(v as int),
            res.1 == self.pivot_tie(v as int),
    {
        let n: u128 = self.num_nodes as u128;
        let settled_forward: u128 = if self.forward_low[v] != self.forward_high[v] {
            0
        } else {
            n
        };
        let settled_backward: u128 = if self.backward_low[v] != self.backward_high[v] {
            0
        } else {
            n
        };
        (
            self.backward_low[v] as u128 + self.forward_low[v] as u128 + settled_forward
                + settled_backward,
            self.forward_tot[v] as u128 + self.backward_tot[v] as u128,
        )
    }

    /// `pivot` names the pivot of every component.
    pub open spec fn is_best_pivots(&self, pivot: Seq<usize>) -> bool {
        &&& pivot.len() == self.spec_num_components()
        &&& forall|c: int|
            0 <= c < pivot.len() ==> self.is_pivot_from(#[trigger] pivot[c] as int, 0)
                && self.components()[pivot[c] as int] == c
    }

    /// The pivot of every component: the node with the smallest score,
    /// among such nodes the one with the smallest sum of distances, and
    /// among those the first.
    pub fn find_best_pivot(&self) -> (pivot: Vec<usize>)
        requires
            self.wf(),
        ensures
            self.is_best_pivots(pivot@),
    {
        let k: usize = self.scc.num_components();
        let n: usize = self.num_nodes;
        let mut chosen: Vec<Option<usize>> = Vec::with_capacity(k);
        let mut c: usize = 0;
        while c < k
            invariant
                c <= k,
                chosen@.len() == c,
                forall|i: int| 0 <= i < c ==> (#[trigger] chosen@[i]) is None,
            decreases k - c,
        {
            chosen.push(None);
            c += 1;
        }
        proof {
            self.lemma_wf();
        }
        let mut v: usize = n;
        while v > 0
            invariant
                v <= n,
                n == self.spec_num_nodes(),
                k == self.spec_num_components(),
                self.wf(),
                chosen@.len() == k,
                forall|c: int|
                    0 <= c < k && (#[trigger] chosen@[c]) is Some ==> self.is_pivot_from(
                        chosen@[c].unwrap() as int,
                        v as int,
                    ) && self.components()[chosen@[c].unwrap() as int] == c,
                forall|w: int|
                    v <= w < n ==> chosen@[#[trigger] self.components()[w] as int] is Some,
            decreases v,
        {
            v -= 1;
            proof {
                self.lemma_wf();
            }
            let c: usize = self.scc.component_of(v);
            assert(self.components()[v as int] < k);
            let ghost before = chosen@;
            let better: bool = match chosen[c] {
                None => true,
                Some(p) => {
                    let (current, current_tie) = self.score(v);
                    let (best, best_tie) = self.score(p);
                    current < best || (current == best && current_tie <= best_tie)
                },
            };
            if better {
                chosen.set(c, Some(v));
            }
            proof {
                assert forall|d: int| 0 <= d < k
                    && (#[trigger] chosen@[d]) is Some implies self.is_pivot_from(
                    chosen@[d].unwrap() as int,
                    v as int,
                ) && self.components()[chosen@[d].unwrap() as int] == d by {
                    let p = chosen@[d].unwrap() as int;
                    if d != c {
                        assert(before[d] is Some);
                        assert(self.is_pivot_from(p, v + 1));
                    } else {
                        if before[c as int] is Some {
                            let q = before[c as int].unwrap() as int;
                            assert(self.is_pivot_from(q, v + 1));
                            assert(self.components()[q] == self.components()[q]);
                        } else {
                            assert forall|w: int|
                                v + 1 <= w < n implies #[trigger] self.components()[w] != c by {
                                assert(before[self.components()[w] as int] is Some);
                            }
                        }
                    }
                }
                assert forall|w: int| v <= w < n implies chosen@[
                #[trigger] self.components()[w] as int] is Some by {
                    if w > v {
                        assert(before[self.components()[w] as int] is Some);
                    }
                }
            }
        }
        let mut pivot: Vec<usize> = Vec::with_capacity(k);
        let mut c: usize = 0;
        while c < k
            invariant
                c <= k,
                k == self.spec_num_components(),
                n == self.spec_num_nodes(),
                self.wf(),
                chosen@.len() == k,
                pivot@.len() == c,
                forall|d: int|
                    0 <= d < k && (#[trigger] chosen@[d]) is Some ==> self.is_pivot_from(
                        chosen@[d].unwrap() as int,
                        0,
                    ) && self.components()[chosen@[d].unwrap() as int] == d,
                forall|w: int| 0 <= w < n ==> chosen@[#[trigger] self.components()[w] as int] is Some,
                forall|d: int|
                    0 <= d < c ==> self.is_pivot_from(#[trigger] pivot@[d] as int, 0)
                        && self.components()[pivot@[d] as int] == d,
            decreases k - c,
        {
            proof {
                assert(has_member(self.components(), c as int));
                let w = choose|w: int|
                    0 <= w < self.components().len() && #[trigger] self.components()[w] == c;
                assert(chosen@[self.components()[w] as int] is Some);
            }
            let p: usize = chosen[c].unwrap();
            pivot.push(p);
            c += 1;
        }
        pivot
    }

    /// The connections of every component.
    pub closed spec fn children_lists(&self) -> Seq<Seq<SccGraphConnection>> {
        children_of(&self.scc_graph)
    }

    /// What the invariant says of the connections: every connection of a
    /// component is an arc from it to another component, and every arc that
    /// leaves a component has its target among the connections of the
    /// component.
    pub proof fn lemma_children(&self)
        requires
            self.wf(),
        ensures
            self.children_lists().len() == self.spec_num_components(),
            forall|c: int, i: int|
                0 <= c < self.spec_num_components() && 0 <= i < self.children_lists()[c].len()
                    ==> crate::algo::exact_sum_sweep::scc_graph::is_bridge(
                    self.adjacency(),
                    self.components(),
                    c,
                    #[trigger] self.children_lists()[c][i],
                ),
            forall|u: int, j: int|
                0 <= u < self.spec_num_nodes() && 0 <= j < self.adjacency()[u].len()
                    && self.components()[u] != self.components()[(
                #[trigger] self.adjacency()[u][j]) as int]
                    ==> crate::algo::exact_sum_sweep::scc_graph::has_target(
                    self.children_lists()[self.components()[u] as int],
                    self.components()[self.adjacency()[u][j] as int] as int,
                ),
    {
        self.lemma_wf();
        let adj = self.adjacency();
        let comp = self.components();
        assert forall|c: int, i: int|
            0 <= c < self.spec_num_components()
                && 0 <= i < self.children_lists()[c].len() implies crate::algo::exact_sum_sweep::scc_graph::is_bridge(
            adj,
            comp,
            c,
            #[trigger] self.children_lists()[c][i],
        ) by {
            assert(self.children_lists()[c] == self.scc_graph.spec_children(c));
            assert(crate::algo::exact_sum_sweep::scc_graph::is_bridge(
                adj,
                comp,
                c,
                self.scc_graph.spec_children(c)[i],
            ));
        }
        assert forall|u: int, j: int|
            0 <= u < self.spec_num_nodes() && 0 <= j < adj[u].len() && comp[u] != comp[(
            #[trigger] adj[u][j]) as int] implies crate::algo::exact_sum_sweep::scc_graph::has_target(
            self.children_lists()[comp[u] as int],
            comp[adj[u][j] as int] as int,
        ) by {
            assert(comp[u] < self.spec_num_components());
            assert(self.children_lists()[comp[u] as int] == self.scc_graph.spec_children(
                comp[u] as int,
            ));
        }
    }

    /// `pivot` names one node of every component.
    pub open spec fn is_pivot_table(&self, pivot: Seq<usize>) -> bool {
        &&& pivot.len() == self.spec_num_components()
        &&& forall|c: int|
            0 <= c < pivot.len() ==> (#[trigger] pivot[c]) < self.spec_num_nodes()
                && self.components()[pivot[c] as int] == c
    }

    /// The upper bounds on the forward eccentricities of the pivots that a
    /// pass over the graph of the components finds, from the distances
    /// `fd` and `bd` of the nodes from and to the pivots of their
    /// components.
    pub open spec fn pivot_bounds_forward(
        &self,
        pivot: Seq<usize>,
        fd: Seq<usize>,
        bd: Seq<usize>,
    ) -> Seq<usize> {
        let k = self.spec_num_components() as int;
        let start = Seq::new(k as nat, |c: int| largest_in(self.components(), fd, c));
        let caps = Seq::new(k as nat, |c: int| self.forward().high[pivot[c] as int]);
        if k == 0 {
            start
        } else {
            forward_pass(
                self.children_lists(),
                zeroed(fd),
                zeroed(bd),
                caps,
                start,
                0,
                self.children_lists()[0].len() as int,
            )
        }
    }

    /// The same for the backward eccentricities.
    pub open spec fn pivot_bounds_backward(
        &self,
        pivot: Seq<usize>,
        fd: Seq<usize>,
        bd: Seq<usize>,
    ) -> Seq<usize> {
        let k = self.spec_num_components() as int;
        let start = Seq::new(k as nat, |c: int| largest_in(self.components(), bd, c));
        let caps = Seq::new(k as nat, |c: int| self.backward().high[pivot[c] as int]);
        if k == 0 {
            start
        } else {
            backward_pass(
                self.children_lists(),
                zeroed(fd),
                zeroed(bd),
                caps,
                start,
                k - 1,
                self.children_lists()[k - 1].len() as int,
            )
        }
    }

    /// The move on the graph of the components: from the pivots, bounds on
    /// the eccentricities of the pivots are carried through the graph of
    /// the components, and the upper bound of every node falls to its
    /// distance to or from its pivot plus the bound of the pivot, but not
    /// below the lower bound of the node. The radius falls to the bounds of
    /// the radial nodes whose forward bounds meet. The move counts as three
    /// iterations.
    pub fn all_cc_upper_bound(&mut self, pivot: Vec<usize>)
        requires
            old(self).wf(),
            old(self).is_pivot_table(pivot@),
            old(self).spec_iterations() + 3 <= usize::MAX,
        ensures
            final(self).wf(),
            final(self).components_moved(old(self), pivot@),
            sound(old(self)) ==> sound(final(self)),
            bounds_in_order(final(self).forward()),
            bounds_in_order(final(self).backward()),
            forall|v: int|
                0 <= v < old(self).spec_num_nodes() ==> (#[trigger] final(self).forward().high[v])
                    <= old(self).forward().high[v],
            forall|v: int|
                0 <= v < old(self).spec_num_nodes() ==> (#[trigger] final(self).backward().high[v])
                    <= old(self).backward().high[v],
            final(self).forward().low == old(self).forward().low,
            final(self).backward().low == old(self).backward().low,
            final(self).forward().tot == old(self).forward().tot,
            final(self).backward().tot == old(self).backward().tot,
            final(self).spec_iterations() == old(self).spec_iterations() + 3,
            final(self).spec_radius().0 <= old(self).spec_radius().0,
            final(self).spec_diameter() == old(self).spec_diameter(),
    {
        let ghost before = *self;
        let ghost chosen = pivot@;
        let n: usize = self.num_nodes;
        proof {
            self.lemma_wf();
        }
        let (dist_f, mut ecc_f) = pivot_distances(&mut self.visit, &self.scc, &pivot);
        let (dist_b, mut ecc_b) = pivot_distances(&mut self.transposed_visit, &self.scc, &pivot);
        let caps_f: Vec<usize> = caps_of(&self.forward_high, &pivot);
        let caps_b: Vec<usize> = caps_of(&self.backward_high, &pivot);
        let ghost fd = self.visit.distances();
        let ghost bd = self.transposed_visit.distances();
        let ghost comp = self.scc.components();
        proof {
            assert(dist_f@ =~= zeroed(fd));
            assert(dist_b@ =~= zeroed(bd));
            assert forall|c: int| 0 <= c < ecc_f@.len() implies #[trigger] ecc_f@[c] == largest_in(
                comp,
                fd,
                c,
            ) by {
                lemma_largest_unique(comp, fd, c, ecc_f@[c]);
            }
            assert forall|c: int| 0 <= c < ecc_b@.len() implies #[trigger] ecc_b@[c] == largest_in(
                comp,
                bd,
                c,
            ) by {
                lemma_largest_unique(comp, bd, c, ecc_b@[c]);
            }
            assert(ecc_f@ =~= Seq::new(
                self.spec_num_components(),
                |c: int| largest_in(comp, fd, c),
            ));
            assert(ecc_b@ =~= Seq::new(
                self.spec_num_components(),
                |c: int| largest_in(comp, bd, c),
            ));
            assert(caps_f@ =~= Seq::new(
                self.spec_num_components(),
                |c: int| self.forward().high[pivot@[c] as int],
            ));
            assert(caps_b@ =~= Seq::new(
                self.spec_num_components(),
                |c: int| self.backward().high[pivot@[c] as int],
            ));
        }
        propagate_forward(
            &self.scc_graph,
            &dist_f,
            &dist_b,
            &caps_f,
            &mut ecc_f,
            Ghost(self.graph@),
            Ghost(self.transpose@),
            Ghost(comp),
        );
        propagate_backward(
            &self.scc_graph,
            &dist_f,
            &dist_b,
            &caps_b,
            &mut ecc_b,
            Ghost(self.graph@),
            Ghost(self.transpose@),
            Ghost(comp),
        );
        let ghost before_forward = self.forward();
        let ghost before_backward = self.backward();
        let radius = lower_upper_bounds(
            &self.forward_low,
            &mut self.forward_high,
            &self.backward_low,
            &mut self.backward_high,
            &self.radial_vertices,
            self.scc.component(),
            &dist_f,
            &dist_b,
            &ecc_f,
            &ecc_b,
            (self.radius_high, self.radius_vertex),
            Ghost(self.scc.spec_num_components()),
        );
        self.radius_high = radius.0;
        self.radius_vertex = radius.1;
        self.iterations = self.iterations + 3;
        proof {
            let helper_bounds = Bounds {
                low: self.forward_low@,
                high: self.forward_high@,
                tot: self.forward_low@,
            };
            assert(radius_met(old(self).spec_radius(), radius, helper_bounds, self.radial()));
            assert(helper_bounds.high == self.forward().high);
            assert(helper_bounds.low == self.forward().low);
            assert(radius_met(
                old(self).spec_radius(),
                self.spec_radius(),
                self.forward(),
                old(self).radial(),
            )) by {
                assert forall|v: int|
                    0 <= v < self.forward().high.len() && self.radial()[v] && (
                    #[trigger] self.forward().high[v]) == self.forward().low[v] implies radius.0
                    <= self.forward().high[v] by {
                    assert(helper_bounds.high[v] == helper_bounds.low[v]);
                }
            }
            assert(old(self).children_lists() == children_of(&self.scc_graph));
            if self.spec_num_components() > 0 {
                assert(children_of(&self.scc_graph)[0] == self.scc_graph.spec_children(0));
                assert(children_of(&self.scc_graph)[self.spec_num_components() - 1]
                    == self.scc_graph.spec_children(self.spec_num_components() - 1));
            }
        }
        proof {
            if sound(&before) {
                lemma_components_move_lower(&before, self, chosen);
                lemma_components_move_upper(&before, self, chosen);
            }
            self.lemma_wf();
            before.lemma_wf();
            assert forall|v: int| 0 <= v < before.spec_num_nodes() implies (
            #[trigger] self.forward().high[v]) <= before.forward().high[v] by {
                assert(before.forward().low[v] <= before.forward().high[v]);
            }
            assert forall|v: int| 0 <= v < before.spec_num_nodes() implies (
            #[trigger] self.backward().high[v]) <= before.backward().high[v] by {
                assert(before.backward().low[v] <= before.backward().high[v]);
            }
        }
    }
}

/// Lets every upper bound fall to the distance of its node to or from its
/// pivot plus the bound of the pivot, but not below the lower bound, and
/// returns the radius shrunk by the radial nodes whose forward bounds
/// meet.
fn lower_upper_bounds(
    forward_low: &Vec<usize>,
    forward_high: &mut Vec<usize>,
    backward_low: &Vec<usize>,
    backward_high: &mut Vec<usize>,
    radial: &Marks,
    component: &Vec<usize>,
    dist_f: &Vec<usize>,
    dist_b: &Vec<usize>,
    ecc_f: &Vec<usize>,
    ecc_b: &Vec<usize>,
    radius: (usize, usize),
    Ghost(k): Ghost<nat>,
) -> (res: (usize, usize))
    requires
        forward_low@.len() == old(forward_high)@.len(),
        backward_low@.len() == old(forward_high)@.len(),
        old(backward_high)@.len() == old(forward_high)@.len(),
        radial@.len() == old(forward_high)@.len(),
        component@.len() == old(forward_high)@.len(),
        dist_f@.len() == old(forward_high)@.len(),
        dist_b@.len() == old(forward_high)@.len(),
        ecc_f@.len() == k,
        ecc_b@.len() == k,
        forall|v: int| 0 <= v < component@.len() ==> (#[trigger] component@[v]) < k,
        forall|v: int|
            0 <= v < forward_low@.len() ==> (#[trigger] forward_low@[v]) <= old(forward_high)@[v],
        forall|v: int|
            0 <= v < backward_low@.len() ==> (#[trigger] backward_low@[v]) <= old(backward_high)@[v],
    ensures
        final(forward_high)@.len() == old(forward_high)@.len(),
        final(backward_high)@.len() == old(backward_high)@.len(),
        forall|v: int|
            0 <= v < old(forward_high)@.len() ==> #[trigger] final(forward_high)@[v] == tightened(
                forward_low@[v],
                old(forward_high)@[v],
                dist_b@[v] + ecc_f@[component@[v] as int],
            ),
        forall|v: int|
            0 <= v < old(backward_high)@.len() ==> #[trigger] final(backward_high)@[v]
                == tightened(
                backward_low@[v],
                old(backward_high)@[v],
                dist_f@[v] + ecc_b@[component@[v] as int],
            ),
        radius_met(
            radius,
            res,
            Bounds { low: forward_low@, high: final(forward_high)@, tot: forward_low@ },
            radial@,
        ),
{
    let n: usize = forward_high.len();
    let mut best: (usize, usize) = radius;
    let mut u: usize = 0;
    while u < n
        invariant
            u <= n,
            n == forward_high@.len(),
            forward_high@.len() == old(forward_high)@.len(),
            backward_high@.len() == old(backward_high)@.len(),
            forward_low@.len() == n,
            backward_low@.len() == n,
            backward_high@.len() == n,
            radial@.len() == n,
            component@.len() == n,
            dist_f@.len() == n,
            dist_b@.len() == n,
            ecc_f@.len() == k,
            ecc_b@.len() == k,
            forall|v: int| 0 <= v < component@.len() ==> (#[trigger] component@[v]) < k,
            forall|v: int|
                0 <= v < n ==> (#[trigger] forward_low@[v]) <= old(forward_high)@[v],
            forall|v: int|
                0 <= v < n ==> (#[trigger] backward_low@[v]) <= old(backward_high)@[v],
            forall|v: int|
                0 <= v < u ==> #[trigger] forward_high@[v] == tightened(
                    forward_low@[v],
                    old(forward_high)@[v],
                    dist_b@[v] + ecc_f@[component@[v] as int],
                ),
            forall|v: int|
                0 <= v < u ==> #[trigger] backward_high@[v] == tightened(
                    backward_low@[v],
                    old(backward_high)@[v],
                    dist_f@[v] + ecc_b@[component@[v] as int],
                ),
            forall|v: int| u <= v < n ==> #[trigger] forward_high@[v] == old(forward_high)@[v],
            forall|v: int| u <= v < n ==> #[trigger] backward_high@[v] == old(backward_high)@[v],
            best.0 <= radius.0,
            forall|v: int|
                0 <= v < u && radial@[v] && (#[trigger] forward_high@[v]) == forward_low@[v]
                    ==> best.0 <= forward_high@[v],
            best == radius || (best.1 < u && radial@[best.1 as int] && forward_high@[best.1 as int]
                == forward_low@[best.1 as int] && forward_high@[best.1 as int] == best.0 && best.0
                < radius.0),
        decreases n - u,
    {
        let c: usize = component[u];
        assert(component@[u as int] < k);
        assert(forward_low@[u as int] <= old(forward_high)@[u as int]);
        assert(backward_low@[u as int] <= old(backward_high)@[u as int]);
        let forward_bound: u128 = dist_b[u] as u128 + ecc_f[c] as u128;
        let new_forward: usize = tighten(forward_low[u], forward_high[u], forward_bound);
        let ghost high_before = forward_high@;
        forward_high.set(u, new_forward);
        if new_forward == forward_low[u] && radial.get(u) && new_forward < best.0 {
            best = (new_forward, u);
        }
        let backward_bound: u128 = dist_f[u] as u128 + ecc_b[c] as u128;
        let new_backward: usize = tighten(backward_low[u], backward_high[u], backward_bound);
        backward_high.set(u, new_backward);
        proof {
            assert forall|v: int|
                0 <= v < u + 1 && radial@[v]
                    && (#[trigger] forward_high@[v]) == forward_low@[v] implies best.0
                <= forward_high@[v] by {
                if v < u {
                    assert(high_before[v] == forward_high@[v]);
                }
            }
            if best != radius && best.1 < u {
                assert(high_before[best.1 as int] == forward_high@[best.1 as int]);
            }
        }
        u += 1;
    }
    best
}

/// The table `dist` with 0 in place of the distance of a node that was not
/// reached.
pub open spec fn zeroed(dist: Seq<usize>) -> Seq<usize> {
    Seq::new(
        dist.len(),
        |v: int|
            if dist[v] == UNREACHED {
                0usize
            } else {
                dist[v]
            },
    )
}

/// The largest distance of a reached node of component `c`.
pub open spec fn largest_in(component: Seq<usize>, dist: Seq<usize>, c: int) -> usize {
    choose|ecc: usize| is_largest_in_component(component, dist, c, ecc)
}

/// A component has one largest distance.
pub proof fn lemma_largest_unique(component: Seq<usize>, dist: Seq<usize>, c: int, ecc: usize)
    requires
        is_largest_in_component(component, dist, c, ecc),
    ensures
        largest_in(component, dist, c) == ecc,
{
    let other = largest_in(component, dist, c);
    assert(is_largest_in_component(component, dist, c, other));
    let v = choose|v: int|
        0 <= v < dist.len() && component[v] == c && dist[v] != UNREACHED && #[trigger] dist[v]
            == ecc;
    let w = choose|w: int|
        0 <= w < dist.len() && component[w] == c && dist[w] != UNREACHED && #[trigger] dist[w]
            == other;
    assert(dist[v] <= other);
    assert(dist[w] <= ecc);
}

/// The upper bound `high` after it fell to `bound`, but not below the lower
/// bound `low`.
pub open spec fn tightened(low: usize, high: usize, bound: int) -> usize {
    let fallen = if bound <= high {
        bound
    } else {
        high as int
    };
    if fallen >= low {
        fallen as usize
    } else {
        low
    }
}

/// The upper bound `high` after it fell to `bound`, but not below `low`.
fn tighten(low: usize, high: usize, bound: u128) -> (res: usize)
    requires
        low <= high,
    ensures
        res == tightened(low, high, bound as int),
        low <= res <= high,
{
    let fallen: u128 = if bound <= high as u128 {
        bound
    } else {
        high as u128
    };
    if fallen >= low as u128 {
        fallen as usize
    } else {
        low
    }
}

/// The bounds `after` are the bounds `before` with every upper bound fallen
/// to the distance of its node from or to its pivot plus the bound of the
/// pivot.
pub open spec fn upper_bounds_lowered(
    before: Bounds,
    after: Bounds,
    dist: Seq<usize>,
    pivot_bound: Seq<usize>,
    component: Seq<usize>,
) -> bool {
    &&& after.low == before.low
    &&& after.tot == before.tot
    &&& after.high.len() == before.high.len()
    &&& forall|v: int|
        0 <= v < before.high.len() ==> #[trigger] after.high[v] == tightened(
            before.low[v],
            before.high[v],
            dist[v] + pivot_bound[component[v] as int],
        )
}

/// The radius `after` is the radius `before` shrunk by the radial nodes
/// whose bounds meet: it is the smallest among the old radius and the
/// bounds of those nodes, with a node that attains it.
pub open spec fn radius_met(
    before: (usize, usize),
    after: (usize, usize),
    bounds: Bounds,
    radial: Seq<bool>,
) -> bool {
    &&& after.0 <= before.0
    &&& forall|v: int|
        0 <= v < bounds.high.len() && radial[v] && (#[trigger] bounds.high[v]) == bounds.low[v]
            ==> after.0 <= bounds.high[v]
    &&& after == before || (0 <= after.1 < bounds.high.len() && radial[after.1 as int]
        && bounds.high[after.1 as int] == bounds.low[after.1 as int] && bounds.high[after.1 as int]
        == after.0 && after.0 < before.0)
}

impl<'a> DirExactSumSweepComputer<'a> {
    /// Whether node `v` is still missing for the radius: its forward
    /// eccentricity is open, it is radial, and its lower bound is below the
    /// upper bound of the radius.
    pub open spec fn missing_for_radius(&self, v: int) -> bool {
        self.forward().low[v] != self.forward().high[v] && self.radial()[v] && self.forward().low[v]
            < self.spec_radius().0
    }

    /// Whether node `v` is still missing for the diameter by its forward
    /// eccentricity: it is open, and its upper bound is above the lower
    /// bound of the diameter.
    pub open spec fn missing_for_diameter_forward(&self, v: int) -> bool {
        self.forward().low[v] != self.forward().high[v] && self.forward().high[v]
            > self.spec_diameter().0
    }

    /// The same by its backward eccentricity.
    pub open spec fn missing_for_diameter_backward(&self, v: int) -> bool {
        self.backward().low[v] != self.backward().high[v] && self.backward().high[v]
            > self.spec_diameter().0
    }

    /// The numbers of nodes that are missing for the radius, for the
    /// diameter by their forward and by their backward eccentricity, and of
    /// nodes whose forward and whose backward eccentricity is open.
    pub open spec fn missing_counts(&self) -> (nat, nat, nat, nat, nat) {
        let n = self.spec_num_nodes() as int;
        (
            count_nodes(|v: int| self.missing_for_radius(v), n),
            count_nodes(|v: int| self.missing_for_diameter_forward(v), n),
            count_nodes(|v: int| self.missing_for_diameter_backward(v), n),
            count_nodes(|v: int| self.forward().low[v] != self.forward().high[v], n),
            count_nodes(|v: int| self.backward().low[v] != self.backward().high[v], n),
        )
    }

    /// The number of nodes that are missing for the wanted output, as far
    /// as a `usize` counts.
    pub open spec fn missing_nodes(&self) -> nat {
        let (radius, forward, backward, all_forward, all_backward) = self.missing_counts();
        let diameter = if forward <= backward {
            forward
        } else {
            backward
        };
        let missing = match self.spec_output() {
            Output::Radius => radius,
            Output::Diameter => diameter,
            Output::RadiusDiameter => radius + diameter,
            Output::AllForward => all_forward,
            Output::All => all_backward + all_forward,
        };
        if missing <= usize::MAX {
            missing
        } else {
            usize::MAX as nat
        }
    }

    /// The records of when the outputs were found, after a count of the
    /// missing nodes: what was found now, and was not found before, was
    /// found after the present number of iterations.
    pub open spec fn found_after_count(&self) -> (
        Option<usize>,
        Option<usize>,
        Option<usize>,
        Option<usize>,
    ) {
        let (radius, forward, backward, all_forward, all_backward) = self.missing_counts();
        let before = self.spec_found_after();
        let now = Some(self.spec_iterations() as usize);
        (
            if radius == 0 && before.0 is None {
                now
            } else {
                before.0
            },
            if (forward == 0 || backward == 0) && before.1 is None {
                now
            } else {
                before.1
            },
            if all_forward == 0 && before.2 is None {
                now
            } else {
                before.2
            },
            if all_forward == 0 && all_backward == 0 && before.3 is None {
                now
            } else {
                before.3
            },
        )
    }

    /// Counts the nodes that are still missing for the wanted output, and
    /// records which outputs are found.
    pub fn find_missing_nodes(&mut self) -> (missing: usize)
        requires
            old(self).wf(),
        ensures
            final(self).wf(),
            final(self).same_setup(old(self)),
            final(self).forward() == old(self).forward(),
            final(self).backward() == old(self).backward(),
            final(self).spec_radius() == old(self).spec_radius(),
            final(self).spec_diameter() == old(self).spec_diameter(),
            final(self).spec_iterations() == old(self).spec_iterations(),
            missing == old(self).missing_nodes(),
            final(self).spec_found_after() == old(self).found_after_count(),
            sound(old(self)) ==> sound(final(self)),
    {
        let counts = self.count_missing();
        let iterations: usize = self.iterations;
        if counts.0 == 0 && self.radius_iterations.is_none() {
            self.radius_iterations = Some(iterations);
        }
        if (counts.1 == 0 || counts.2 == 0) && self.diameter_iterations.is_none() {
            self.diameter_iterations = Some(iterations);
        }
        if counts.3 == 0 && self.forward_iter.is_none() {
            self.forward_iter = Some(iterations);
        }
        if counts.3 == 0 && counts.4 == 0 && self.all_iter.is_none() {
            self.all_iter = Some(iterations);
        }
        let diameter: usize = if counts.1 <= counts.2 {
            counts.1
        } else {
            counts.2
        };
        match self.output {
            Output::Radius => counts.0,
            Output::Diameter => diameter,
            Output::RadiusDiameter => if diameter > usize::MAX - counts.0 {
                usize::MAX
            } else {
                counts.0 + diameter
            },
            Output::AllForward => counts.3,
            Output::All => if counts.3 > usize::MAX - counts.4 {
                usize::MAX
            } else {
                counts.4 + counts.3
            },
        }
    }

    fn count_missing(&self) -> (counts: (usize, usize, usize, usize, usize))
        requires
            self.wf(),
        ensures
            (counts.0 as nat, counts.1 as nat, counts.2 as nat, counts.3 as nat, counts.4 as nat)
                == self.missing_counts(),
    {
        let n: usize = self.num_nodes;
        let mut radius: usize = 0;
        let mut forward: usize = 0;
        let mut backward: usize = 0;
        let mut all_forward: usize = 0;
        let mut all_backward: usize = 0;
        let mut v: usize = 0;
        while v < n
            invariant
                v <= n,
                n == self.spec_num_nodes(),
                self.wf(),
                radius == count_nodes(|w: int| self.missing_for_radius(w), v as int),
                forward == count_nodes(|w: int| self.missing_for_diameter_forward(w), v as int),
                backward == count_nodes(|w: int| self.missing_for_diameter_backward(w), v as int),
                all_forward == count_nodes(
                    |w: int| self.forward().low[w] != self.forward().high[w],
                    v as int,
                ),
                all_backward == count_nodes(
                    |w: int| self.backward().low[w] != self.backward().high[w],
                    v as int,
                ),
            decreases n - v,
        {
            proof {
                lemma_count_bound(|w: int| self.missing_for_radius(w), v as int);
                lemma_count_bound(|w: int| self.missing_for_diameter_forward(w), v as int);
                lemma_count_bound(|w: int| self.missing_for_diameter_backward(w), v as int);
                lemma_count_bound(
                    |w: int| self.forward().low[w] != self.forward().high[w],
                    v as int,
                );
                lemma_count_bound(
                    |w: int| self.backward().low[w] != self.backward().high[w],
                    v as int,
                );
            }
            if self.forward_low[v] != self.forward_high[v] {
                all_forward += 1;
                if self.forward_high[v] > self.diameter_low {
                    forward += 1;
                }
                if self.radial_vertices.get(v) && self.forward_low[v] < self.radius_high {
                    radius += 1;
                }
            }
            if self.backward_low[v] != self.backward_high[v] {
                all_backward += 1;
                if self.backward_high[v] > self.diameter_low {
                    backward += 1;
                }
            }
            v += 1;
        }
        (radius, forward, backward, all_forward, all_backward)
    }
}

/// The number of the nodes below `n` of which `pred` holds.
pub open spec fn count_nodes(pred: spec_fn(int) -> bool, n: int) -> nat
    decreases n,
{
    if n <= 0 {
        0
    } else {
        count_nodes(pred, n - 1) + (if pred(n - 1) {
            1nat
        } else {
            0nat
        })
    }
}

/// No more nodes are counted than there are.
pub proof fn lemma_count_bound(pred: spec_fn(int) -> bool, n: int)
    requires
        0 <= n,
    ensures
        count_nodes(pred, n) <= n,
    decreases n,
{
    if n > 0 {
        lemma_count_bound(pred, n - 1);
    }
}

/// The lower bound `low` of a node at distance `d` from the root of a
/// visit, after the visit: raised to `d` where the bound was open and below
/// `d`, and never above the upper bound `high`.
pub open spec fn raised(low: usize, high: usize, d: usize) -> usize {
    if low != high && low < d {
        if d <= high {
            d
        } else {
            high
        }
    } else {
        low
    }
}

/// The sum `tot` with the distance `d` added, as far as a `usize` counts.
pub open spec fn added(tot: usize, d: usize) -> usize {
    if tot + d > usize::MAX {
        usize::MAX
    } else {
        (tot + d) as usize
    }
}

/// The bounds `after` are the bounds `before` after a visit with the
/// distances `dist` has raised the lower bounds of the nodes it reached and
/// added their distances to the sums.
pub open spec fn lower_bounds_raised(before: Bounds, after: Bounds, dist: Seq<usize>) -> bool {
    &&& after.high == before.high
    &&& after.low.len() == before.low.len()
    &&& after.tot.len() == before.tot.len()
    &&& forall|v: int|
        0 <= v < before.low.len() ==> #[trigger] after.low[v] == (if dist[v] != UNREACHED {
            raised(before.low[v], before.high[v], dist[v])
        } else {
            before.low[v]
        })
    &&& forall|v: int|
        0 <= v < before.tot.len() ==> #[trigger] after.tot[v] == (if dist[v] != UNREACHED {
            added(before.tot[v], dist[v])
        } else {
            before.tot[v]
        })
}

/// Node `v` is radial, was reached by the visit, and the visit has closed
/// its bounds: the lower bound was open and has met the upper bound.
pub open spec fn newly_tight(before: Bounds, radial: Seq<bool>, dist: Seq<usize>, v: int) -> bool {
    &&& radial[v]
    &&& dist[v] != UNREACHED
    &&& before.low[v] != before.high[v]
    &&& raised(before.low[v], before.high[v], dist[v]) == before.high[v]
}

/// The radius `after` is the radius `before` shrunk by the nodes that the
/// visit has made tight: it is the smallest among the old radius and the
/// upper bounds of those nodes, with a node that attains it.
pub open spec fn radius_shrunk(
    before: (usize, usize),
    after: (usize, usize),
    bounds: Bounds,
    radial: Seq<bool>,
    dist: Seq<usize>,
) -> bool {
    &&& after.0 <= before.0
    &&& forall|v: int|
        0 <= v < dist.len() && #[trigger] newly_tight(bounds, radial, dist, v) ==> after.0
            <= bounds.high[v]
    &&& after == before || (0 <= after.1 < dist.len() && newly_tight(
        bounds,
        radial,
        dist,
        after.1 as int,
    ) && bounds.high[after.1 as int] == after.0 && after.0 < before.0)
}

/// Raises the lower bounds of the nodes that the visit has reached, adds
/// their distances to the sums, and returns the largest distance. Where
/// `shrink` is set, the radius shrinks to the bounds of the radial nodes
/// whose bounds have met.
fn raise_lower_bounds(
    visit: &SingleThreadedBreadthFirstVisit<'_>,
    low: &mut Vec<usize>,
    high: &Vec<usize>,
    tot: &mut Vec<usize>,
    radial: &Marks,
    shrink: bool,
    radius: (usize, usize),
) -> (res: (usize, (usize, usize)))
    requires
        visit.wf(),
        visit.order().len() > 0,
        forall|i: int, j: int|
            0 <= i <= j < visit.order().len() ==> visit.distances()[#[trigger] visit.order()[i] as int]
                <= visit.distances()[#[trigger] visit.order()[j] as int],
        old(low)@.len() == visit.spec_num_nodes(),
        high@.len() == visit.spec_num_nodes(),
        old(tot)@.len() == visit.spec_num_nodes(),
        radial@.len() == visit.spec_num_nodes(),
        bounds_in_order(Bounds { low: old(low)@, high: high@, tot: old(tot)@ }),
    ensures
        bounds_in_order(Bounds { low: final(low)@, high: high@, tot: final(tot)@ }),
        lower_bounds_raised(
            Bounds { low: old(low)@, high: high@, tot: old(tot)@ },
            Bounds { low: final(low)@, high: high@, tot: final(tot)@ },
            visit.distances(),
        ),
        is_largest_distance(visit.distances(), res.0),
        res.0 < visit.spec_num_nodes(),
        shrink ==> radius_shrunk(
            radius,
            res.1,
            Bounds { low: old(low)@, high: high@, tot: old(tot)@ },
            radial@,
            visit.distances(),
        ),
        !shrink ==> res.1 == radius,
{
    let ghost before = Bounds { low: low@, high: high@, tot: tot@ };
    let ghost dist = visit.distances();
    let ghost order = visit.order();
    let count: usize = visit.num_visited();
    let mut best: (usize, usize) = radius;
    proof {
        visit.lemma_wf();
    }
    let mut i: usize = 0;
    while i < count
        invariant
            i <= count,
            count == order.len(),
            visit.wf(),
            dist == visit.distances(),
            order == visit.order(),
            low@.len() == dist.len(),
            tot@.len() == dist.len(),
            high@.len() == dist.len(),
            radial@.len() == dist.len(),
            dist.len() == visit.spec_num_nodes(),
            before.high == high@,
            before.low.len() == dist.len(),
            before.tot.len() == dist.len(),
            bounds_in_order(before),
            forall|k: int|
                0 <= k < i ==> low@[#[trigger] order[k] as int] == raised(
                    before.low[order[k] as int],
                    before.high[order[k] as int],
                    dist[order[k] as int],
                ) && tot@[order[k] as int] == added(before.tot[order[k] as int], dist[order[k] as int]),
            forall|v: int|
                0 <= v < dist.len() && !order.subrange(0, i as int).contains(v as usize)
                    ==> #[trigger] low@[v] == before.low[v] && tot@[v] == before.tot[v],
            !shrink ==> best == radius,
            shrink ==> best.0 <= radius.0,
            shrink ==> forall|k: int|
                0 <= k < i && newly_tight(before, radial@, dist, #[trigger] order[k] as int)
                    ==> best.0 <= before.high[order[k] as int],
            shrink ==> best == radius || (0 <= best.1 < dist.len() && newly_tight(
                before,
                radial@,
                dist,
                best.1 as int,
            ) && before.high[best.1 as int] == best.0 && best.0 < radius.0),
        decreases count - i,
    {
        proof {
            visit.lemma_wf();
        }
        let node: usize = visit.visited_node(i);
        let d: usize = visit.distance(node).unwrap();
        let ghost low_before = low@;
        let ghost tot_before = tot@;
        proof {
            assert(!order.subrange(0, i as int).contains(node)) by {
                if order.subrange(0, i as int).contains(node) {
                    let k = choose|k: int|
                        0 <= k < i && order.subrange(0, i as int)[k] == node;
                    assert(order[k] == order[i as int]);
                }
            }
        }
        let sum: usize = tot[node];
        tot.set(
            node,
            if d > usize::MAX - sum {
                usize::MAX
            } else {
                sum + d
            },
        );
        let node_low: usize = low[node];
        let node_high: usize = high[node];
        assert(before.low[node as int] <= before.high[node as int]);
        if node_low != node_high && node_low < d {
            let new_low: usize = if d <= node_high {
                d
            } else {
                node_high
            };
            low.set(node, new_low);
            if shrink && new_low == node_high && radial.get(node) && new_low < best.0 {
                best = (new_low, node);
            }
        }
        proof {
            let done = order.subrange(0, i as int);
            let next = order.subrange(0, i + 1);
            assert forall|k: int| 0 <= k < i + 1 implies low@[#[trigger] order[k] as int] == raised(
                before.low[order[k] as int],
                before.high[order[k] as int],
                dist[order[k] as int],
            ) && tot@[order[k] as int] == added(before.tot[order[k] as int], dist[order[k] as int]) by {
                if k < i {
                    assert(order[k] != order[i as int]);
                }
            }
            assert forall|v: int|
                0 <= v < dist.len() && !next.contains(v as usize) implies #[trigger] low@[v]
                == before.low[v] && tot@[v] == before.tot[v] by {
                if v == node {
                    assert(next[i as int] == node);
                } else {
                    if done.contains(v as usize) {
                        let k = choose|k: int| 0 <= k < done.len() && done[k] == v as usize;
                        assert(next[k] == v as usize);
                    }
                    assert(!done.contains(v as usize));
                    assert(low_before[v] == before.low[v]);
                    assert(tot_before[v] == before.tot[v]);
                    assert(low@[v] == low_before[v]);
                    assert(tot@[v] == tot_before[v]);
                }
            }
        }
        i += 1;
    }
    let last: usize = visit.visited_node(count - 1);
    let ecc: usize = visit.distance(last).unwrap();
    proof {
        assert(order.subrange(0, count as int) =~= order);
        assert forall|v: int| 0 <= v < before.low.len() implies #[trigger] low@[v] == (if dist[v]
            != UNREACHED {
            raised(before.low[v], before.high[v], dist[v])
        } else {
            before.low[v]
        }) by {
            if dist[v] != UNREACHED {
                assert(visit.visited(v));
                assert(order.contains(v as usize));
                let k = choose|k: int| 0 <= k < order.len() && order[k] == v as usize;
                assert(low@[order[k] as int] == raised(
                    before.low[order[k] as int],
                    before.high[order[k] as int],
                    dist[order[k] as int],
                ));
            } else {
                if order.contains(v as usize) {
                    let k = choose|k: int| 0 <= k < order.len() && order[k] == v as usize;
                    assert(visit.visited(order[k] as int));
                }
            }
        }
        assert forall|v: int| 0 <= v < before.tot.len() implies #[trigger] tot@[v] == (if dist[v]
            != UNREACHED {
            added(before.tot[v], dist[v])
        } else {
            before.tot[v]
        }) by {
            if dist[v] != UNREACHED {
                assert(visit.visited(v));
                assert(order.contains(v as usize));
                let k = choose|k: int| 0 <= k < order.len() && order[k] == v as usize;
                assert(low@[order[k] as int] == raised(
                    before.low[order[k] as int],
                    before.high[order[k] as int],
                    dist[order[k] as int],
                ));
            } else {
                if order.contains(v as usize) {
                    let k = choose|k: int| 0 <= k < order.len() && order[k] == v as usize;
                    assert(visit.visited(order[k] as int));
                }
                assert(low@[v] == before.low[v]);
            }
        }
        assert forall|v: int| 0 <= v < dist.len() && dist[v] != UNREACHED implies (#[trigger] dist[v])
            <= ecc by {
            assert(visit.visited(v));
            assert(order.contains(v as usize));
            let k = choose|k: int| 0 <= k < order.len() && order[k] == v as usize;
            assert(dist[order[k] as int] <= dist[order[count - 1] as int]);
        }
        assert(visit.visited(order[count - 1] as int));
        assert(dist[last as int] == ecc);
        if shrink {
            assert forall|v: int|
                0 <= v < dist.len() && #[trigger] newly_tight(before, radial@, dist, v) implies best.0
                <= before.high[v] by {
                assert(visit.visited(v));
                assert(order.contains(v as usize));
                let k = choose|k: int| 0 <= k < order.len() && order[k] == v as usize;
                assert(newly_tight(before, radial@, dist, order[k] as int));
            }
        }
    }
    (ecc, best)
}

/// Node `v` has a predecessor in its own component that is reached and one
/// step closer to the pivot.
pub open spec fn reached_within(
    adj: Seq<Seq<usize>>,
    component: Seq<usize>,
    dist: Seq<usize>,
    v: int,
) -> bool {
    exists|p: int|
        0 <= p < adj.len() && component[p] == component[v] && dist[p] != UNREACHED && has_arc(
            adj,
            p,
            v,
        ) && #[trigger] dist[p] + 1 == dist[v]
}

/// `dist` is the table of the distances of every node from the pivot of its
/// component, along paths that stay in the component: every pivot is at
/// distance 0; every other reached node has a reached predecessor in its
/// component one step closer; and every successor of a reached node in the
/// same component is reached, at most one step further.
pub open spec fn is_pivot_distance_table(
    adj: Seq<Seq<usize>>,
    component: Seq<usize>,
    pivot: Seq<usize>,
    dist: Seq<usize>,
    upto: int,
) -> bool {
    &&& dist.len() == adj.len()
    &&& forall|v: int|
        0 <= v < adj.len() && (#[trigger] dist[v]) != UNREACHED ==> component[v] < upto
    &&& forall|c: int| 0 <= c < upto ==> dist[#[trigger] pivot[c] as int] == 0
    &&& forall|v: int|
        0 <= v < adj.len() && dist[v] != UNREACHED && v != pivot[component[v] as int]
            ==> #[trigger] reached_within(adj, component, dist, v)
    &&& forall|u: int, k: int|
        0 <= u < adj.len() && dist[u] != UNREACHED && 0 <= k < adj[u].len() && component[(
        #[trigger] adj[u][k]) as int] == component[u] ==> dist[adj[u][k] as int] != UNREACHED
            && dist[adj[u][k] as int] <= dist[u] + 1
}

/// `ecc` is the largest distance of a reached node of component `c`.
pub open spec fn is_largest_in_component(
    component: Seq<usize>,
    dist: Seq<usize>,
    c: int,
    ecc: usize,
) -> bool {
    &&& exists|v: int|
        0 <= v < dist.len() && component[v] == c && dist[v] != UNREACHED && #[trigger] dist[v]
            == ecc
    &&& forall|v: int|
        0 <= v < dist.len() && component[v] == c && dist[v] != UNREACHED ==> (#[trigger] dist[v])
            <= ecc
}

/// Visits every component from its pivot, never leaving the component, and
/// returns for every node its distance from the pivot of its component (0
/// where the visit did not reach it) and for every component the largest of
/// these distances.
fn pivot_distances(
    visit: &mut SingleThreadedBreadthFirstVisit<'_>,
    scc: &BasicSccs,
    pivot: &Vec<usize>,
) -> (res: (Vec<usize>, Vec<usize>))
    requires
        old(visit).wf(),
        scc.wf(),
        scc.components().len() == old(visit).spec_num_nodes(),
        pivot@.len() == scc.spec_num_components(),
        forall|c: int|
            0 <= c < pivot@.len() ==> (#[trigger] pivot@[c]) < scc.components().len()
                && scc.components()[pivot@[c] as int] == c,
    ensures
        final(visit).wf(),
        final(visit).adjacency() == old(visit).adjacency(),
        final(visit).spec_start() == old(visit).spec_start(),
        is_pivot_distance_table(
            final(visit).adjacency(),
            scc.components(),
            pivot@,
            final(visit).distances(),
            pivot@.len() as int,
        ),
        res.0@.len() == scc.components().len(),
        forall|v: int|
            0 <= v < res.0@.len() ==> #[trigger] res.0@[v] == (if final(visit).distances()[v]
                == UNREACHED {
                0
            } else {
                final(visit).distances()[v]
            }) && res.0@[v] < scc.components().len(),
        res.1@.len() == pivot@.len(),
        forall|c: int|
            0 <= c < res.1@.len() ==> is_largest_in_component(
                scc.components(),
                final(visit).distances(),
                c,
                #[trigger] res.1@[c],
            ) && res.1@[c] < scc.components().len(),
{
    let k: usize = pivot.len();
    let n: usize = scc.num_nodes();
    let comp: &Vec<usize> = scc.component();
    let ghost adj = visit.adjacency();
    visit.reset();
    proof {
        visit.lemma_wf();
        assert forall|v: int| 0 <= v < adj.len() implies visit.distances()[v] == UNREACHED by {
            assert(!visit.visited(v));
        }
    }
    let mut ecc: Vec<usize> = Vec::with_capacity(k);
    let mut c: usize = 0;
    while c < k
        invariant
            c <= k,
            k == pivot@.len(),
            k == scc.spec_num_components(),
            n == comp@.len(),
            comp@ == scc.components(),
            scc.wf(),
            visit.wf(),
            visit.adjacency() == adj,
            visit.spec_start() == old(visit).spec_start(),
            n == adj.len(),
            forall|d: int|
                0 <= d < pivot@.len() ==> (#[trigger] pivot@[d]) < n && comp@[pivot@[d] as int] == d,
            is_pivot_distance_table(adj, comp@, pivot@, visit.distances(), c as int),
            ecc@.len() == c,
            forall|d: int|
                0 <= d < c ==> is_largest_in_component(
                    comp@,
                    visit.distances(),
                    d,
                    #[trigger] ecc@[d],
                ) && ecc@[d] < n,
        decreases k - c,
    {
        let root: usize = pivot[c];
        let ghost before = *visit;
        let callback = |e: Event| -> (b: bool)
            ensures
                b,
            { true };
        let filter = |e: Event| -> (b: bool)
            requires
                event_in_range(e, comp@.len()),
            ensures
                b == (match e {
                    Event::Unknown { curr, parent, root, distance } => comp@[curr as int] == c,
                    _ => true,
                }),
            {
                match e {
                    Event::Unknown { curr, parent, root, distance } => comp[curr] == c,
                    _ => true,
                }
            };
        proof {
            before.lemma_wf();
        }
        let completed: bool = visit.visit_from_node(root, &callback, &filter);
        proof {
            assert(completed) by {
                if stopped_by(&callback) {
                    let e = choose|e: Event| #[trigger] call_ensures(callback, (e,), false);
                }
            }
            visit.lemma_wf();
            let r = root as int;
            let dist = visit.distances();
            let old_dist = before.distances();
            let first = before.order().len() as int;
            let len = visit.order().len() as int;
            assert(!before.visited(r)) by {
                if before.visited(r) {
                    assert(comp@[r] < c);
                }
            }
            assert(!call_ensures(filter, (discovery(r, r, r, 0),), false));
            assert(visit.visit_under_way(&before, r, &filter, len, 0));
            // the nodes that this visit has discovered are those of the component
            assert forall|i: int| first <= i < len implies comp@[#[trigger] visit.order()[i] as int]
                == c by {
                if i > first {
                    assert(visit.discovered_through(&before, r, &filter, visit.order()[i] as int));
                }
            }
            assert forall|v: int| 0 <= v < n && visit.visited(v) && !before.visited(v) implies comp@[v]
                == c && exists|i: int| first <= i < len && visit.order()[i] == v by {
                assert(visit.order().contains(v as usize));
                let i = choose|i: int| 0 <= i < len && visit.order()[i] == v as usize;
                if i < first {
                    assert(visit.order().subrange(0, first)[i] == before.order()[i]);
                    assert(before.visited(before.order()[i] as int));
                }
                assert(comp@[visit.order()[i] as int] == c);
            }
            assert forall|v: int| 0 <= v < n && (#[trigger] dist[v]) != UNREACHED implies comp@[v] < c
                + 1 by {
                if before.visited(v) {
                    assert(old_dist[v] != UNREACHED);
                } else {
                    assert(visit.visited(v));
                }
            }
            assert forall|d: int| 0 <= d < c + 1 implies dist[#[trigger] pivot@[d] as int] == 0 by {
                if d < c {
                    assert(old_dist[pivot@[d] as int] == 0);
                    assert(before.visited(pivot@[d] as int));
                }
            }
            assert forall|v: int|
                0 <= v < n && dist[v] != UNREACHED
                    && v != pivot@[comp@[v] as int] implies #[trigger] reached_within(
                adj,
                comp@,
                dist,
                v,
            ) by {
                if before.visited(v) {
                    assert(reached_within(adj, comp@, old_dist, v));
                    let p = choose|p: int|
                        0 <= p < adj.len() && comp@[p] == comp@[v] && old_dist[p] != UNREACHED
                            && has_arc(adj, p, v) && #[trigger] old_dist[p] + 1 == old_dist[v];
                    assert(before.visited(p));
                    assert(dist[p] + 1 == dist[v]);
                } else {
                    assert(visit.visited(v));
                    let i = choose|i: int| first <= i < len && visit.order()[i] == v;
                    assert(comp@[v] == c);
                    assert(i > first);
                    assert(visit.discovered_through(&before, r, &filter, visit.order()[i] as int));
                    let p = visit.parents()[v] as int;
                    assert(visit.visited(p) && !before.visited(p));
                    assert(dist[p] + 1 == dist[v]);
                }
            }
            assert forall|u: int, j: int|
                0 <= u < n && dist[u] != UNREACHED && 0 <= j < adj[u].len() && comp@[(
                #[trigger] adj[u][j]) as int] == comp@[u] implies dist[adj[u][j] as int] != UNREACHED
                && dist[adj[u][j] as int] <= dist[u] + 1 by {
                let w = adj[u][j] as int;
                assert(adj[u][j] < n);
                if before.visited(u) {
                    assert(old_dist[adj[u][j] as int] != UNREACHED);
                    assert(before.visited(w));
                } else {
                    assert(visit.visited(u));
                    let i = choose|i: int| first <= i < len && visit.order()[i] == u;
                    assert(visit.arc_followed(&before, r, &filter, visit.order()[i] as int, j));
                    assert(comp@[u] == c);
                    if before.visited(w) {
                        assert(old_dist[w] != UNREACHED);
                        assert(comp@[w] < c);
                    }
                }
            }
            assert forall|d: int| 0 <= d < c implies is_largest_in_component(
                comp@,
                dist,
                d,
                #[trigger] ecc@[d],
            ) by {
                assert(is_largest_in_component(comp@, old_dist, d, ecc@[d]));
                let w = choose|w: int|
                    0 <= w < old_dist.len() && comp@[w] == d && old_dist[w] != UNREACHED
                        && #[trigger] old_dist[w] == ecc@[d];
                assert(before.visited(w));
                assert(dist[w] == ecc@[d]);
                assert forall|v: int|
                    0 <= v < dist.len() && comp@[v] == d && dist[v] != UNREACHED implies (
                #[trigger] dist[v]) <= ecc@[d] by {
                    if !before.visited(v) {
                        assert(visit.visited(v));
                    } else {
                        assert(old_dist[v] <= ecc@[d]);
                    }
                }
            }
        }
        let count: usize = visit.num_visited();
        let last: usize = visit.visited_node(count - 1);
        let largest: usize = visit.distance(last).unwrap();
        proof {
            let dist = visit.distances();
            let first = before.order().len() as int;
            let len = visit.order().len() as int;
            assert(comp@[visit.order()[len - 1] as int] == c);
            assert forall|v: int| 0 <= v < dist.len() && comp@[v] == c && dist[v] != UNREACHED implies (
            #[trigger] dist[v]) <= largest by {
                assert(visit.visited(v));
                if before.visited(v) {
                    assert(before.distances()[v] != UNREACHED);
                }
                let i = choose|i: int| first <= i < len && visit.order()[i] == v;
                assert(dist[visit.order()[i] as int] <= dist[visit.order()[len - 1] as int]);
            }
            assert(dist[last as int] == largest);
        }
        ecc.push(largest);
        c += 1;
    }
    let mut distances: Vec<usize> = Vec::with_capacity(n);
    let mut v: usize = 0;
    proof {
        visit.lemma_wf();
    }
    while v < n
        invariant
            v <= n,
            n == visit.spec_num_nodes(),
            n == scc.components().len(),
            visit.wf(),
            distances@.len() == v,
            forall|w: int|
                0 <= w < v ==> #[trigger] distances@[w] == (if visit.distances()[w] == UNREACHED {
                    0
                } else {
                    visit.distances()[w]
                }) && distances@[w] < n,
        decreases n - v,
    {
        proof {
            visit.lemma_wf();
        }
        let d: usize = match visit.distance(v) {
            Some(d) => d,
            None => 0,
        };
        distances.push(d);
        v += 1;
    }
    (distances, ecc)
}

/// The bound `value` after it was raised to `reach` and then capped at
/// `cap`.
pub open spec fn relaxed(value: usize, reach: int, cap: usize) -> usize {
    let raised = if value >= reach {
        value as int
    } else {
        reach
    };
    if raised <= cap {
        raised as usize
    } else {
        cap
    }
}

/// What a path through the connection adds to the eccentricity of the
/// pivot at its far end: the distance from the pivot of the start's
/// component to the start, the arc, and the distance from the end to the
/// pivot of the end's component.
pub open spec fn through(x: SccGraphConnection, dist_f: Seq<usize>, dist_b: Seq<usize>) -> int {
    dist_f[x.start as int] + 1 + dist_b[x.end as int]
}

/// The bounds on the forward eccentricities of the pivots when the
/// components after `c` are done and the first `i` connections of `c`: a
/// connection of a component raises the bound of the component to what a
/// path through it reaches, capped at the upper bound of the pivot.
pub open spec fn forward_pass(
    children: Seq<Seq<SccGraphConnection>>,
    dist_f: Seq<usize>,
    dist_b: Seq<usize>,
    caps: Seq<usize>,
    start: Seq<usize>,
    c: int,
    i: int,
) -> Seq<usize>
    decreases children.len() - c, i,
{
    if c < 0 || c >= children.len() || i < 0 {
        start
    } else if i == 0 {
        if c + 1 >= children.len() {
            start
        } else {
            forward_pass(children, dist_f, dist_b, caps, start, c + 1, children[c + 1].len() as int)
        }
    } else {
        let before = forward_pass(children, dist_f, dist_b, caps, start, c, i - 1);
        let x = children[c][i - 1];
        before.update(
            c,
            relaxed(before[c], through(x, dist_f, dist_b) + before[x.target as int], caps[c]),
        )
    }
}

/// The bounds on the backward eccentricities of the pivots when the
/// components before `c` are done and the first `i` connections of `c`: a
/// connection of a component raises the bound of its target to what a path
/// through it reaches, capped at the upper bound of the pivot of the
/// target.
pub open spec fn backward_pass(
    children: Seq<Seq<SccGraphConnection>>,
    dist_f: Seq<usize>,
    dist_b: Seq<usize>,
    caps: Seq<usize>,
    start: Seq<usize>,
    c: int,
    i: int,
) -> Seq<usize>
    decreases c, i,
{
    if c < 0 || c >= children.len() || i < 0 {
        start
    } else if i == 0 {
        if c == 0 {
            start
        } else {
            backward_pass(children, dist_f, dist_b, caps, start, c - 1, children[c - 1].len() as int)
        }
    } else {
        let before = backward_pass(children, dist_f, dist_b, caps, start, c, i - 1);
        let x = children[c][i - 1];
        before.update(
            x.target as int,
            relaxed(
                before[x.target as int],
                through(x, dist_f, dist_b) + before[c],
                caps[x.target as int],
            ),
        )
    }
}

/// The connections of every component.
pub open spec fn children_of(graph: &SccGraph) -> Seq<Seq<SccGraphConnection>> {
    Seq::new(graph.spec_num_components(), |c: int| graph.spec_children(c))
}

/// Raises `value` to `reach` and caps it at `cap`.
fn relax(value: usize, reach: u128, cap: usize) -> (res: usize)
    ensures
        res == relaxed(value, reach as int, cap),
{
    let raised: u128 = if value as u128 >= reach {
        value as u128
    } else {
        reach
    };
    if raised <= cap as u128 {
        raised as usize
    } else {
        cap
    }
}

/// The upper bounds of the pivots.
fn caps_of(high: &Vec<usize>, pivot: &Vec<usize>) -> (caps: Vec<usize>)
    requires
        forall|c: int| 0 <= c < pivot@.len() ==> (#[trigger] pivot@[c]) < high@.len(),
    ensures
        caps@.len() == pivot@.len(),
        forall|c: int| 0 <= c < pivot@.len() ==> #[trigger] caps@[c] == high@[pivot@[c] as int],
{
    let mut caps: Vec<usize> = Vec::with_capacity(pivot.len());
    let mut c: usize = 0;
    while c < pivot.len()
        invariant
            c <= pivot@.len(),
            caps@.len() == c,
            forall|d: int| 0 <= d < pivot@.len() ==> (#[trigger] pivot@[d]) < high@.len(),
            forall|d: int| 0 <= d < c ==> #[trigger] caps@[d] == high@[pivot@[d] as int],
        decreases pivot@.len() - c,
    {
        caps.push(high[pivot[c]]);
        c += 1;
    }
    caps
}

/// Carries the bounds on the forward eccentricities of the pivots through
/// the graph of the components, from the last component to the first.
fn propagate_forward(
    graph: &SccGraph,
    dist_f: &Vec<usize>,
    dist_b: &Vec<usize>,
    caps: &Vec<usize>,
    ecc: &mut Vec<usize>,
    Ghost(adj): Ghost<Seq<Seq<usize>>>,
    Ghost(radj): Ghost<Seq<Seq<usize>>>,
    Ghost(component): Ghost<Seq<usize>>,
)
    requires
        graph.is_for(adj, radj, component),
        dist_f@.len() == adj.len(),
        dist_b@.len() == adj.len(),
        component.len() == adj.len(),
        caps@.len() == graph.spec_num_components(),
        old(ecc)@.len() == graph.spec_num_components(),
        forall|v: int| 0 <= v < component.len() ==> (#[trigger] component[v]) < caps@.len(),
    ensures
        final(ecc)@.len() == old(ecc)@.len(),
        final(ecc)@ == (if graph.spec_num_components() == 0 {
            old(ecc)@
        } else {
            forward_pass(
                children_of(graph),
                dist_f@,
                dist_b@,
                caps@,
                old(ecc)@,
                0,
                graph.spec_children(0).len() as int,
            )
        }),
{
    let k: usize = graph.num_components();
    let ghost children = children_of(graph);
    let ghost start = ecc@;
    let mut c: usize = k;
    while c > 0
        invariant
            c <= k,
            k == graph.spec_num_components(),
            children == children_of(graph),
            graph.is_for(adj, radj, component),
            dist_f@.len() == adj.len(),
            dist_b@.len() == adj.len(),
            component.len() == adj.len(),
            caps@.len() == k,
            ecc@.len() == k,
            start.len() == k,
            forall|v: int| 0 <= v < component.len() ==> (#[trigger] component[v]) < caps@.len(),
            ecc@ == (if c == k {
                start
            } else {
                forward_pass(children, dist_f@, dist_b@, caps@, start, c as int, children[c as int].len() as int)
            }),
        decreases c,
    {
        c -= 1;
        let list: &[SccGraphConnection] = graph.children(c);
        assert(list@ == children[c as int]);
        let mut i: usize = 0;
        assert(ecc@ == forward_pass(children, dist_f@, dist_b@, caps@, start, c as int, 0));
        while i < list.len()
            invariant
                i <= list@.len(),
                c < k,
                k == graph.spec_num_components(),
                children == children_of(graph),
                list@ == children[c as int],
                list@ == graph.spec_children(c as int),
                graph.is_for(adj, radj, component),
                dist_f@.len() == adj.len(),
                dist_b@.len() == adj.len(),
                component.len() == adj.len(),
                caps@.len() == k,
                ecc@.len() == k,
                start.len() == k,
                forall|v: int| 0 <= v < component.len() ==> (#[trigger] component[v]) < caps@.len(),
                ecc@ == forward_pass(children, dist_f@, dist_b@, caps@, start, c as int, i as int),
            decreases list@.len() - i,
        {
            let x: SccGraphConnection = list[i];
            proof {
                assert(crate::algo::exact_sum_sweep::scc_graph::is_bridge(
                    adj,
                    component,
                    c as int,
                    graph.spec_children(c as int)[i as int],
                ));
                assert(component[x.end as int] < caps@.len());
            }
            let reach: u128 = dist_f[x.start] as u128 + 1 + dist_b[x.end] as u128
                + ecc[x.target] as u128;
            let value: usize = relax(ecc[c], reach, caps[c]);
            ecc.set(c, value);
            i += 1;
        }
    }
}

/// Carries the bounds on the backward eccentricities of the pivots through
/// the graph of the components, from the first component to the last.
fn propagate_backward(
    graph: &SccGraph,
    dist_f: &Vec<usize>,
    dist_b: &Vec<usize>,
    caps: &Vec<usize>,
    ecc: &mut Vec<usize>,
    Ghost(adj): Ghost<Seq<Seq<usize>>>,
    Ghost(radj): Ghost<Seq<Seq<usize>>>,
    Ghost(component): Ghost<Seq<usize>>,
)
    requires
        graph.is_for(adj, radj, component),
        dist_f@.len() == adj.len(),
        dist_b@.len() == adj.len(),
        component.len() == adj.len(),
        caps@.len() == graph.spec_num_components(),
        old(ecc)@.len() == graph.spec_num_components(),
        forall|v: int| 0 <= v < component.len() ==> (#[trigger] component[v]) < caps@.len(),
    ensures
        final(ecc)@.len() == old(ecc)@.len(),
        final(ecc)@ == (if graph.spec_num_components() == 0 {
            old(ecc)@
        } else {
            backward_pass(
                children_of(graph),
                dist_f@,
                dist_b@,
                caps@,
                old(ecc)@,
                graph.spec_num_components() - 1,
                graph.spec_children(graph.spec_num_components() - 1).len() as int,
            )
        }),
{
    let k: usize = graph.num_components();
    let ghost children = children_of(graph);
    let ghost start = ecc@;
    let mut c: usize = 0;
    while c < k
        invariant
            c <= k,
            k == graph.spec_num_components(),
            children == children_of(graph),
            graph.is_for(adj, radj, component),
            dist_f@.len() == adj.len(),
            dist_b@.len() == adj.len(),
            component.len() == adj.len(),
            caps@.len() == k,
            ecc@.len() == k,
            start.len() == k,
            forall|v: int| 0 <= v < component.len() ==> (#[trigger] component[v]) < caps@.len(),
            ecc@ == (if c == 0 {
                start
            } else {
                backward_pass(
                    children,
                    dist_f@,
                    dist_b@,
                    caps@,
                    start,
                    c - 1,
                    children[c - 1].len() as int,
                )
            }),
        decreases k - c,
    {
        let list: &[SccGraphConnection] = graph.children(c);
        assert(list@ == children[c as int]);
        let mut i: usize = 0;
        assert(ecc@ == backward_pass(children, dist_f@, dist_b@, caps@, start, c as int, 0));
        while i < list.len()
            invariant
                i <= list@.len(),
                c < k,
                k == graph.spec_num_components(),
                children == children_of(graph),
                list@ == children[c as int],
                list@ == graph.spec_children(c as int),
                graph.is_for(adj, radj, component),
                dist_f@.len() == adj.len(),
                dist_b@.len() == adj.len(),
                component.len() == adj.len(),
                caps@.len() == k,
                ecc@.len() == k,
                start.len() == k,
                forall|v: int| 0 <= v < component.len() ==> (#[trigger] component[v]) < caps@.len(),
                ecc@ == backward_pass(children, dist_f@, dist_b@, caps@, start, c as int, i as int),
            decreases list@.len() - i,
        {
            let x: SccGraphConnection = list[i];
            proof {
                assert(crate::algo::exact_sum_sweep::scc_graph::is_bridge(
                    adj,
                    component,
                    c as int,
                    graph.spec_children(c as int)[i as int],
                ));
                assert(component[x.end as int] < caps@.len());
            }
            let reach: u128 = dist_f[x.start] as u128 + 1 + dist_b[x.end] as u128 + ecc[c] as u128;
            let value: usize = relax(ecc[x.target], reach, caps[x.target]);
            ecc.set(x.target, value);
            i += 1;
        }
        c += 1;
    }
}

/// Why a computation cannot be set up for these graphs and marks, or `None`
/// where it can.
pub open spec fn setup_error(
    adj: Seq<Seq<usize>>,
    radj: Seq<Seq<usize>>,
    radial_vertices: Option<Vec<bool>>,
) -> Option<SumSweepError> {
    if radj.len() != adj.len() || arc_count(radj) != arc_count(adj) {
        Some(SumSweepError::MismatchedTranspose)
    } else if radial_vertices matches Some(marks) && marks@.len() != adj.len() {
        Some(SumSweepError::MismatchedRadialVertices)
    } else {
        None
    }
}


/// Node `v` is the last node of component `c`.
pub open spec fn is_last_member(component: Seq<usize>, c: int, v: int) -> bool {
    &&& 0 <= v < component.len()
    &&& component[v] == c
    &&& forall|w: int| v < w < component.len() ==> (#[trigger] component[w]) != c
}

impl<'a> DirExactSumSweepComputer<'a> {
    /// The number of nodes of every component.
    pub open spec fn component_sizes(&self) -> Seq<usize> {
        Seq::new(
            self.spec_num_components(),
            |c: int|
                crate::algo::sccs::basic::members_before(
                    self.components(),
                    c,
                    self.components().len() as int,
                ) as usize,
        )
    }

    /// Marks as radial the nodes from which the largest strongly connected
    /// component can be reached: those that a backward visit reaches from
    /// the last node of the first among the largest components. On a graph
    /// without nodes nothing happens.
    pub fn compute_radial_vertices(&mut self)
        requires
            old(self).wf(),
        ensures
            final(self).wf(),
            old(self).spec_num_nodes() == 0 ==> *final(self) == *old(self),
            old(self).spec_num_nodes() > 0 ==> final(self).radial_computed(old(self)),
            sound(old(self)) && all_open(old(self).forward()) ==> sound(final(self)),
    {
        let ghost before = *self;
        let n: usize = self.num_nodes;
        proof {
            self.lemma_wf();
        }
        if n == 0 {
            return ;
        }
        let sizes: Vec<usize> = self.scc.compute_sizes();
        proof {
            assert(sizes@ =~= self.component_sizes());
            assert(self.components()[0] < self.spec_num_components());
        }
        let largest: usize = argmax(sizes.as_slice()).unwrap();
        proof {
            // the largest component has a node
            assert(has_member(self.components(), self.components()[0] as int));
            lemma_has_member_counts(
                self.components(),
                self.components()[0] as int,
                self.components().len() as int,
            );
            assert(sizes@[self.components()[0] as int] >= 1);
            assert(sizes@[largest as int] >= 1);
            lemma_counts_has_member(self.components(), largest as int, self.components().len() as int);
        }
        let mut v: usize = n;
        let mut found: bool = false;
        while v > 0 && !found
            invariant
                v <= n,
                n == self.components().len(),
                n == self.scc.components().len(),
                forall|w: int| v <= w < n && !found ==> (#[trigger] self.scc.components()[w])
                    != largest,
                found ==> v < n && is_last_member(self.scc.components(), largest as int, v as int),
                exists|w: int| 0 <= w < n && #[trigger] self.scc.components()[w] == largest,
            decreases v,
        {
            v -= 1;
            if self.scc.component_of(v) == largest {
                found = true;
            }
        }
        proof {
            if !found {
                let w = choose|w: int| 0 <= w < n && #[trigger] self.scc.components()[w] == largest;
                assert(false);
            }
        }
        self.transposed_visit.distances_from(v);
        mark_reached(&self.transposed_visit, &mut self.radial_vertices);
        proof {
            if sound(&before) && all_open(before.forward()) {
                lemma_radial_sound(&before, self);
            }
        }
    }

    /// The first steps of the computation: a forward visit from `start`,
    /// and then alternately a backward visit from the node with the largest
    /// sum of backward distances and a forward visit from the node with the
    /// largest sum of forward distances, among the nodes whose eccentricity
    /// in that direction is open and with the lower bound to break ties,
    /// until `iterations` visits are made or asked for.
    pub fn sum_sweep_heuristic(&mut self, start: usize, iterations: usize)
        requires
            old(self).wf(),
            start < old(self).spec_num_nodes(),
            old(self).spec_iterations() + iterations < usize::MAX,
        ensures
            final(self).wf(),
            final(self).same_setup(old(self)),
            final(self).spec_found_after() == old(self).spec_found_after(),
            old(self).spec_iterations() < final(self).spec_iterations() <= old(self).spec_iterations() + (if iterations >= 1 {
                iterations
            } else {
                1
            }),
            final(self).swept(
                old(self),
                start,
                if iterations >= 1 {
                    iterations as nat
                } else {
                    1
                },
            ),
            sound(old(self)) ==> sound(final(self)),
    {
        let ghost before = *self;
        self.step_sum_sweep(Some(start), true);
        let mut i: usize = 2;
        while i <= iterations
            invariant
                2 <= i,
                i <= iterations + 1 || iterations < 2,
                iterations < 2 ==> i == 2,
                self.wf(),
                self.same_setup(old(self)),
                self.spec_found_after() == old(self).spec_found_after(),
                old(self).spec_iterations() + iterations < usize::MAX,
                old(self).spec_iterations() < self.spec_iterations() <= old(self).spec_iterations()
                    + i - 1,
                self.swept(old(self), start, (i - 1) as nat),
            decreases iterations + 1 - i,
        {
            let ghost mid = *self;
            let forward: bool = i % 2 != 0;
            let next: Option<usize> = if forward {
                self.next_by_total(true)
            } else {
                self.next_by_total(false)
            };
            self.step_sum_sweep(next, forward);
            proof {
                assert(next == mid.by_total(forward));
                assert(goes_forward(i as nat) == forward);
                assert(mid.swept(old(self), start, ((i as nat) - 1) as nat));
                assert(self.stepped(&mid, mid.by_total(goes_forward(i as nat)), goes_forward(i as nat)));
                assert(self.swept(old(self), start, i as nat));
            }
            i += 1;
        }
        proof {
            if sound(&before) {
                lemma_swept_sound(
                    &before,
                    self,
                    start,
                    if iterations >= 1 {
                        iterations as nat
                    } else {
                        1
                    },
                );
            }
        }
    }

    /// The node with the largest sum of distances in one direction among
    /// the nodes whose eccentricity in that direction is open, with the
    /// larger lower bound to break ties.
    fn next_by_total(&self, forward: bool) -> (next: Option<usize>)
        requires
            self.wf(),
        ensures
            next matches Some(v) ==> v < self.spec_num_nodes(),
            next == self.choice(
                if forward {
                    self.forward().tot
                } else {
                    self.backward().tot
                },
                if forward {
                    self.forward().low
                } else {
                    self.backward().low
                },
                if forward {
                    self.forward()
                } else {
                    self.backward()
                },
                true,
            ),
    {
        proof {
            self.lemma_wf();
        }
        if forward {
            pick_open(&self.forward_tot, &self.forward_low, &self.forward_low, &self.forward_high, true)
        } else {
            pick_open(
                &self.backward_tot,
                &self.backward_low,
                &self.backward_low,
                &self.backward_high,
                true,
            )
        }
    }

    /// The node that a move starts from: among the nodes whose bounds in
    /// `bounds` have not met, the first with the largest (or smallest)
    /// value, and among equal values with the largest (or smallest) value
    /// of `ties`; `None` where the bounds of all nodes have met.
    pub open spec fn choice(
        &self,
        values: Seq<usize>,
        ties: Seq<usize>,
        bounds: Bounds,
        largest: bool,
    ) -> Option<usize> {
        chosen_open(values, ties, bounds.low, bounds.high, largest)
    }

    /// The node with the largest sum of distances in one direction among
    /// the nodes whose eccentricity in that direction is open, with the
    /// larger lower bound to break ties.
    pub open spec fn by_total(&self, forward: bool) -> Option<usize> {
        if forward {
            self.choice(self.forward().tot, self.forward().low, self.forward(), true)
        } else {
            self.choice(self.backward().tot, self.backward().low, self.backward(), true)
        }
    }

    /// `self` is `before` after the first `count` visits of a computation
    /// that starts at `start`: a forward visit from `start`, and then
    /// alternately a backward and a forward visit from the node with the
    /// largest sum of distances in that direction. The states between the
    /// visits keep the invariant.
    pub open spec fn swept(&self, before: &Self, start: usize, count: nat) -> bool
        decreases count,
    {
        if count <= 1 {
            self.stepped(before, Some(start), true)
        } else {
            exists|mid: Self|
                mid.wf() && mid.swept(before, start, (count - 1) as nat) && #[trigger] self.stepped(
                    &mid,
                    mid.by_total(goes_forward(count)),
                    goes_forward(count),
                )
        }
    }

    /// `self` is `before` after the move number `slot` of the main loop.
    pub open spec fn moved(&self, before: &Self, slot: usize) -> bool {
        if slot == 0 {
            exists|pivot: Seq<usize>| #[trigger]
                before.is_best_pivots(pivot) && self.components_moved(before, pivot)
        } else if slot == 1 {
            self.stepped(
                before,
                before.choice(before.forward().high, before.forward().tot, before.forward(), true),
                true,
            )
        } else if slot == 2 {
            exists|next: Option<usize>| #[trigger]
                is_marked_choice(before.forward().low, before.forward().tot, before.radial(), next)
                    && self.stepped(before, next, true)
        } else if slot == 3 {
            self.stepped(
                before,
                before.choice(
                    before.backward().high,
                    before.backward().tot,
                    before.backward(),
                    true,
                ),
                false,
            )
        } else {
            self.stepped(
                before,
                before.choice(
                    before.backward().tot,
                    before.backward().high,
                    before.backward(),
                    true,
                ),
                false,
            )
        }
    }

    /// `self` is `before` with the radial vertices computed where they were
    /// pending.
    pub open spec fn radial_ready(&self, before: &Self) -> bool {
        if before.radial_pending() {
            self.radial_computed(before)
        } else {
            *self == *before
        }
    }

    /// `self` is `before` after the start of a computation.
    pub open spec fn begun(&self, before: &Self) -> bool {
        if before.spec_num_nodes() == 0 {
            *self == *before
        } else {
            exists|mid: Self, v: usize| #[trigger]
                self.swept(&mid, v, 6) && mid.wf() && mid.radial_ready(before) && has_most_successors(
                    before.adjacency(),
                    v as int,
                )
        }
    }

    /// One move of the main loop:
    ///
    /// 0. the move on the graph of the components, from the best pivots;
    /// 1. a forward visit from the node with the largest upper bound of the
    ///    forward eccentricity (ties: the largest sum of distances) among
    ///    those whose forward eccentricity is open;
    /// 2. a forward visit from the radial node with the smallest lower
    ///    bound of the forward eccentricity (ties: the smallest sum);
    /// 3. a backward visit from the node with the largest upper bound of
    ///    the backward eccentricity (ties: the largest sum) among those
    ///    whose backward eccentricity is open;
    /// 4. a backward visit from the node with the largest sum of backward
    ///    distances (ties: the largest upper bound) among the same.
    pub fn perform_move(&mut self, slot: usize)
        requires
            old(self).wf(),
            slot < 5,
            old(self).spec_iterations() + 3 < usize::MAX,
        ensures
            final(self).wf(),
            final(self).same_setup(old(self)),
            final(self).spec_found_after() == old(self).spec_found_after(),
            old(self).spec_iterations() <= final(self).spec_iterations() <= old(self).spec_iterations() + 3,
            final(self).moved(old(self), slot),
            sound(old(self)) ==> sound(final(self)),
            bounds_in_order(final(self).forward()),
            bounds_in_order(final(self).backward()),
    {
        let ghost before = *self;
        proof {
            self.lemma_wf();
        }
        if slot == 0 {
            let pivot: Vec<usize> = self.find_best_pivot();
            let ghost chosen = pivot@;
            proof {
                assert forall|c: int| 0 <= c < pivot@.len() implies (#[trigger] pivot@[c])
                    < self.spec_num_nodes() && self.components()[pivot@[c] as int] == c by {
                    assert(self.is_pivot_from(pivot@[c] as int, 0));
                }
            }
            self.all_cc_upper_bound(pivot);
            assert(old(self).is_best_pivots(chosen) && self.components_moved(old(self), chosen));
        } else if slot == 1 {
            let next: Option<usize> = pick_open(
                &self.forward_high,
                &self.forward_tot,
                &self.forward_low,
                &self.forward_high,
                true,
            );
            self.step_sum_sweep(next, true);
        } else if slot == 2 {
            let next: Option<usize> = pick_marked(
                &self.forward_low,
                &self.forward_tot,
                &self.radial_vertices,
            );
            self.step_sum_sweep(next, true);
        } else if slot == 3 {
            let next: Option<usize> = pick_open(
                &self.backward_high,
                &self.backward_tot,
                &self.backward_low,
                &self.backward_high,
                true,
            );
            self.step_sum_sweep(next, false);
        } else {
            let next: Option<usize> = pick_open(
                &self.backward_tot,
                &self.backward_high,
                &self.backward_low,
                &self.backward_high,
                true,
            );
            self.step_sum_sweep(next, false);
        }
        proof {
            if sound(&before) {
                lemma_move_sound(&before, self, slot);
            }
            self.lemma_wf();
        }
    }

    /// The start of a computation: on a graph without nodes nothing
    /// happens; otherwise the radial vertices are computed where they are
    /// pending, and six visits are made that begin with a forward visit
    /// from the first node with the most successors.
    pub fn begin(&mut self)
        requires
            old(self).wf(),
            old(self).spec_iterations() + 6 < usize::MAX,
        ensures
            final(self).wf(),
            final(self).adjacency() == old(self).adjacency(),
            final(self).transposed_adjacency() == old(self).transposed_adjacency(),
            final(self).spec_output() == old(self).spec_output(),
            final(self).components() == old(self).components(),
            final(self).spec_found_after() == old(self).spec_found_after(),
            old(self).spec_num_nodes() == 0
                ==> final(self).spec_iterations() == old(self).spec_iterations()
                && final(self).forward() == old(self).forward()
                && final(self).backward() == old(self).backward(),
            old(self).spec_num_nodes() > 0
                ==> old(self).spec_iterations() < final(self).spec_iterations() <= old(self).spec_iterations() + 6,
            !old(self).radial_pending() ==> final(self).radial() == old(self).radial(),
            final(self).begun(old(self)),
            sound(old(self)) && all_open(old(self).forward()) ==> sound(final(self)),
    {
        let ghost before = *self;
        let n: usize = self.num_nodes;
        if n == 0 {
            return ;
        }
        if self.compute_radial_vertices {
            self.compute_radial_vertices();
        }
        let ghost mid = *self;
        let start: usize = self.max_outdegree_vertex();
        self.sum_sweep_heuristic(start, 6);
        proof {
            assert(self.swept(&mid, start, 6) && mid.wf() && mid.radial_ready(old(self))
                && has_most_successors(
                old(self).adjacency(),
                start as int,
            ));
        }
        proof {
            if sound(&before) && all_open(before.forward()) {
                lemma_begun_sound(&before, self);
            }
        }
    }

    /// The first node with the most successors.
    fn max_outdegree_vertex(&self) -> (v: usize)
        requires
            self.wf(),
            self.spec_num_nodes() > 0,
        ensures
            v < self.spec_num_nodes(),
            forall|w: int|
                0 <= w < self.spec_num_nodes() ==> (#[trigger] self.adjacency()[w]).len()
                    <= self.adjacency()[v as int].len(),
            forall|w: int| 0 <= w < v
                ==> (#[trigger] self.adjacency()[w]).len() < self.adjacency()[v as int].len(),
    {
        let n: usize = self.num_nodes;
        let graph: &Graph = self.graph;
        let mut best: usize = 0;
        let mut degree: usize = graph.outdegree(0);
        let mut v: usize = 1;
        while v < n
            invariant
                1 <= v <= n,
                n == graph@.len(),
                best < v,
                degree == graph@[best as int].len(),
                forall|w: int| 0 <= w < v ==> (#[trigger] graph@[w]).len() <= degree,
                forall|w: int| 0 <= w < best ==> (#[trigger] graph@[w]).len() < degree,
            decreases n - v,
        {
            let d: usize = graph.outdegree(v);
            if d > degree {
                best = v;
                degree = d;
            }
            v += 1;
        }
        best
    }

    /// The upper bound of the radius and a node that attains it; the bound
    /// is `usize::MAX` before a radial node is settled.
    pub fn radius(&self) -> (res: (usize, usize))
        ensures
            res == self.spec_radius(),
    {
        (self.radius_high, self.radius_vertex)
    }

    /// The lower bound of the diameter and a node that attains it.
    pub fn diameter(&self) -> (res: (usize, usize))
        ensures
            res == self.spec_diameter(),
    {
        (self.diameter_low, self.diameter_vertex)
    }

    /// The number of iterations done.
    pub fn iterations(&self) -> (i: usize)
        ensures
            i == self.spec_iterations(),
    {
        self.iterations
    }

    /// The number of nodes.
    pub fn num_nodes(&self) -> (n: usize)
        requires
            self.wf(),
        ensures
            n == self.spec_num_nodes(),
    {
        self.num_nodes
    }

    /// The lower and the upper bound of the forward eccentricity of `node`.
    pub fn forward_bounds(&self, node: usize) -> (res: (usize, usize))
        requires
            self.wf(),
            node < self.spec_num_nodes(),
        ensures
            res.0 == self.forward().low[node as int],
            res.1 == self.forward().high[node as int],
            res.0 <= res.1,
    {
        (self.forward_low[node], self.forward_high[node])
    }

    /// The lower and the upper bound of the backward eccentricity of
    /// `node`.
    pub fn backward_bounds(&self, node: usize) -> (res: (usize, usize))
        requires
            self.wf(),
            node < self.spec_num_nodes(),
        ensures
            res.0 == self.backward().low[node as int],
            res.1 == self.backward().high[node as int],
            res.0 <= res.1,
    {
        (self.backward_low[node], self.backward_high[node])
    }

    /// Whether `node` can be the witness of the radius.
    pub fn is_radial(&self, node: usize) -> (b: bool)
        requires
            self.wf(),
            node < self.spec_num_nodes(),
        ensures
            b == self.radial()[node as int],
    {
        self.radial_vertices.get(node)
    }

    /// The numbers of iterations after which the radius, the diameter, all
    /// forward eccentricities and all eccentricities were found.
    pub fn found_after(&self) -> (res: (Option<usize>, Option<usize>, Option<usize>, Option<usize>))
        ensures
            res == self.spec_found_after(),
    {
        (self.radius_iterations, self.diameter_iterations, self.forward_iter, self.all_iter)
    }

    /// The strongly connected components.
    pub fn sccs(&self) -> (scc: &BasicSccs)
        ensures
            scc.components() == self.components(),
            scc.spec_num_components() == self.spec_num_components(),
    {
        &self.scc
    }

    /// The graph of the strongly connected components.
    pub fn scc_graph(&self) -> (graph: &SccGraph)
        requires
            self.wf(),
        ensures
            graph.is_for(self.adjacency(), self.transposed_adjacency(), self.components()),
            children_of(graph) == self.children_lists(),
    {
        &self.scc_graph
    }
}

/// A component with a node has at least one node among the first `n`, where
/// the node is among them.
proof fn lemma_has_member_counts(component: Seq<usize>, c: int, n: int)
    requires
        0 <= n <= component.len(),
        exists|v: int| 0 <= v < n && #[trigger] component[v] == c,
    ensures
        crate::algo::sccs::basic::members_before(component, c, n) >= 1,
    decreases n,
{
    if n > 0 && component[n - 1] != c {
        let v = choose|v: int| 0 <= v < n && #[trigger] component[v] == c;
        assert(v < n - 1);
        lemma_has_member_counts(component, c, n - 1);
    }
}

/// A component that counts a node among the first `n` has one.
proof fn lemma_counts_has_member(component: Seq<usize>, c: int, n: int)
    requires
        0 <= n <= component.len(),
        crate::algo::sccs::basic::members_before(component, c, n) >= 1,
    ensures
        exists|v: int| 0 <= v < n && #[trigger] component[v] == c,
    decreases n,
{
    if n > 0 {
        if component[n - 1] == c {
        } else {
            lemma_counts_has_member(component, c, n - 1);
            let v = choose|v: int| 0 <= v < n - 1 && #[trigger] component[v] == c;
            assert(0 <= v < n && component[v] == c);
        }
    }
}

/// Marks every node that the visit has reached.
fn mark_reached(visit: &SingleThreadedBreadthFirstVisit<'_>, marks: &mut Marks)
    requires
        visit.wf(),
        old(marks)@.len() == visit.spec_num_nodes(),
    ensures
        final(marks)@.len() == old(marks)@.len(),
        forall|v: int|
            0 <= v < old(marks)@.len() ==> #[trigger] final(marks)@[v] == (old(marks)@[v]
                || visit.distances()[v] != UNREACHED),
{
    let n: usize = marks.len();
    let mut v: usize = 0;
    proof {
        visit.lemma_wf();
    }
    while v < n
        invariant
            v <= n,
            n == marks@.len(),
            marks@.len() == old(marks)@.len(),
            n == visit.spec_num_nodes(),
            visit.wf(),
            forall|w: int|
                0 <= w < v ==> #[trigger] marks@[w] == (old(marks)@[w] || visit.distances()[w]
                    != UNREACHED),
            forall|w: int| v <= w < n ==> #[trigger] marks@[w] == old(marks)@[w],
        decreases n - v,
    {
        if visit.distance(v).is_some() {
            marks.set(v, true);
        }
        v += 1;
    }
}

/// The first position with the largest (or smallest) value among the
/// positions whose bounds have not met, where ties between values go to the
/// largest (or smallest) tie: `None` where all bounds have met.
pub open spec fn chosen_open(
    values: Seq<usize>,
    ties: Seq<usize>,
    low: Seq<usize>,
    high: Seq<usize>,
    largest: bool,
) -> Option<usize> {
    if exists|i: int| 0 <= i < values.len() && #[trigger] is_choice(values, ties, low, high, largest, i) {
        Some(
            (choose|i: int|
                0 <= i < values.len() && #[trigger] is_choice(values, ties, low, high, largest, i)) as usize,
        )
    } else {
        None
    }
}

/// Position `i` is open, no open position before it is as good, and none
/// after it is better.
pub open spec fn is_choice(
    values: Seq<usize>,
    ties: Seq<usize>,
    low: Seq<usize>,
    high: Seq<usize>,
    largest: bool,
    i: int,
) -> bool {
    &&& low[i] != high[i]
    &&& forall|j: int|
        0 <= j < i && low[j] != high[j] ==> better(
            #[trigger] values[j],
            ties[j],
            values[i],
            ties[i],
            largest,
        )
    &&& forall|j: int|
        i < j < values.len() && low[j] != high[j] ==> !better(
            values[i],
            ties[i],
            #[trigger] values[j],
            ties[j],
            largest,
        )
}

/// The pair `(b, tb)` is strictly better than `(a, ta)`: larger, or
/// smaller where the smallest is looked for.
pub open spec fn better(a: usize, ta: usize, b: usize, tb: usize, largest: bool) -> bool {
    if largest {
        crate::utils::argmax::lex_lt(a, ta, b, tb)
    } else {
        crate::utils::argmax::lex_lt(b, tb, a, ta)
    }
}

/// The position at which a move starts: see [`chosen_open`].
fn pick_open(
    values: &Vec<usize>,
    ties: &Vec<usize>,
    low: &Vec<usize>,
    high: &Vec<usize>,
    largest: bool,
) -> (next: Option<usize>)
    requires
        values@.len() == low@.len(),
        ties@.len() == low@.len(),
        high@.len() == low@.len(),
        largest,
    ensures
        next matches Some(v) ==> v < values@.len(),
        next == chosen_open(values@, ties@, low@, high@, largest),
{
    let filter = |i: usize, value: usize| -> (b: bool)
        requires
            i < low@.len(),
        ensures
            b == (low@[i as int] != high@[i as int]),
        { low[i] != high[i] };
    let value_slice: &[usize] = values.as_slice();
    let tie_slice: &[usize] = ties.as_slice();
    let count: usize = values.len();
    let next: Option<usize> = filtered_argmax(value_slice, tie_slice, filter);
    proof {
        assert(values@.len() == count);
        assert(crate::utils::argmax::common_len(value_slice@, tie_slice@) == values@.len());
        match next {
            Some(v) => {
                let rejected = |j: int| call_ensures(filter, (j as usize, value_slice@[j]), false);
                assert(crate::utils::argmax::is_filtered_max(
                    value_slice@,
                    tie_slice@,
                    rejected,
                    v as int,
                ));
                assert(call_ensures(filter, (v, value_slice@[v as int]), true));
                assert forall|j: int| 0 <= j < v && low@[j] != high@[j] implies better(
                    #[trigger] values@[j],
                    ties@[j],
                    values@[v as int],
                    ties@[v as int],
                    largest,
                ) by {
                    assert(rejected(j) || crate::utils::argmax::lex_lt(
                        value_slice@[j],
                        tie_slice@[j],
                        value_slice@[v as int],
                        tie_slice@[v as int],
                    ));
                }
                assert forall|j: int| v < j < values@.len() && low@[j] != high@[j] implies !better(
                    values@[v as int],
                    ties@[v as int],
                    #[trigger] values@[j],
                    ties@[j],
                    largest,
                ) by {
                    assert(rejected(j) || !crate::utils::argmax::lex_lt(
                        value_slice@[v as int],
                        tie_slice@[v as int],
                        value_slice@[j],
                        tie_slice@[j],
                    ));
                }
                assert(is_choice(values@, ties@, low@, high@, largest, v as int));
                lemma_choice_unique(values@, ties@, low@, high@, largest, v as int);
            },
            None => {
                assert forall|i: int| 0 <= i < values@.len() implies !#[trigger] is_choice(
                    values@,
                    ties@,
                    low@,
                    high@,
                    largest,
                    i,
                ) by {
                    assert(call_ensures(filter, (i as usize, value_slice@[i]), false));
                }
            },
        }
    }
    next
}

/// There is one position at which a move starts.
proof fn lemma_choice_unique(
    values: Seq<usize>,
    ties: Seq<usize>,
    low: Seq<usize>,
    high: Seq<usize>,
    largest: bool,
    i: int,
)
    requires
        0 <= i < values.len(),
        is_choice(values, ties, low, high, largest, i),
    ensures
        chosen_open(values, ties, low, high, largest) == Some(i as usize),
{
    let j = choose|j: int|
        0 <= j < values.len() && #[trigger] is_choice(values, ties, low, high, largest, j);
    if j < i {
        assert(better(values[j], ties[j], values[i], ties[i], largest));
        assert(!better(values[j], ties[j], values[i], ties[i], largest));
    } else if i < j {
        assert(better(values[i], ties[i], values[j], ties[j], largest));
        assert(!better(values[i], ties[i], values[j], ties[j], largest));
    }
}

/// `next` is the first marked position with the smallest value, where ties
/// between values go to the smallest tie; or it is `None`, and no position
/// is marked.
pub open spec fn is_marked_choice(
    values: Seq<usize>,
    ties: Seq<usize>,
    marks: Seq<bool>,
    next: Option<usize>,
) -> bool {
    &&& next matches Some(v) ==> v < values.len() && marks[v as int]
    &&& next is None ==> forall|i: int| 0 <= i < marks.len() ==> !(#[trigger] marks[i])
    &&& next matches Some(v) ==> crate::utils::argmin::is_filtered_min(
        values,
        ties,
        |j: int| !marks[j],
        v as int,
    )
}

/// Whether the visit number `count` of the start of a computation is a
/// forward visit: the first is, and then every other one.
pub open spec fn goes_forward(count: nat) -> bool {
    count % 2 != 0
}

/// Node `v` is the first with the most successors.
pub open spec fn has_most_successors(adj: Seq<Seq<usize>>, v: int) -> bool {
    &&& 0 <= v < adj.len()
    &&& forall|w: int| 0 <= w < adj.len() ==> (#[trigger] adj[w]).len() <= adj[v].len()
    &&& forall|w: int| 0 <= w < v ==> (#[trigger] adj[w]).len() < adj[v].len()
}

/// The first marked position with the smallest value, where ties between
/// values go to the smallest tie; `None` where no position is marked.
fn pick_marked(values: &Vec<usize>, ties: &Vec<usize>, marks: &Marks) -> (next: Option<usize>)
    requires
        values@.len() == marks@.len(),
        ties@.len() == marks@.len(),
    ensures
        is_marked_choice(values@, ties@, marks@, next),
{
    let filter = |i: usize, value: usize| -> (b: bool)
        requires
            i < marks@.len(),
        ensures
            b == marks@[i as int],
        { marks.get(i) };
    let value_slice: &[usize] = values.as_slice();
    let tie_slice: &[usize] = ties.as_slice();
    let count: usize = values.len();
    let next: Option<usize> = filtered_argmin(value_slice, tie_slice, filter);
    proof {
        assert(values@.len() == count);
        assert(crate::utils::argmax::common_len(value_slice@, tie_slice@) == values@.len());
        match next {
            Some(v) => {
                let rejected = |j: int| call_ensures(filter, (j as usize, value_slice@[j]), false);
                assert(crate::utils::argmin::is_filtered_min(
                    value_slice@,
                    tie_slice@,
                    rejected,
                    v as int,
                ));
                assert(call_ensures(filter, (v, value_slice@[v as int]), true));
                assert forall|j: int| 0 <= j < v implies !marks@[j] || crate::utils::argmax::lex_lt(
                    values@[v as int],
                    ties@[v as int],
                    #[trigger] values@[j],
                    ties@[j],
                ) by {
                    assert(rejected(j) || crate::utils::argmax::lex_lt(
                        value_slice@[v as int],
                        tie_slice@[v as int],
                        value_slice@[j],
                        tie_slice@[j],
                    ));
                }
                assert forall|j: int| v < j < values@.len() implies !marks@[j]
                    || !crate::utils::argmax::lex_lt(
                    #[trigger] values@[j],
                    ties@[j],
                    values@[v as int],
                    ties@[v as int],
                ) by {
                    assert(rejected(j) || !crate::utils::argmax::lex_lt(
                        value_slice@[j],
                        tie_slice@[j],
                        value_slice@[v as int],
                        tie_slice@[v as int],
                    ));
                }
            },
            None => {
                assert forall|i: int| 0 <= i < marks@.len() implies !(#[trigger] marks@[i]) by {
                    assert(call_ensures(filter, (i as usize, value_slice@[i]), false));
                }
            },
        }
    }
    next
}

/// The table of marks that holds the marks of `given`.
fn marks_of(given: &Vec<bool>) -> (marks: Marks)
    ensures
        marks@ == given@,
{
    let n: usize = given.len();
    let mut marks = Marks::new(n);
    let mut i: usize = 0;
    while i < n
        invariant
            i <= n,
            n == given@.len(),
            marks@.len() == n,
            forall|j: int| 0 <= j < i ==> marks@[j] == given@[j],
        decreases n - i,
    {
        marks.set(i, given[i]);
        i += 1;
    }
    assert(marks@ =~= given@);
    marks
}

} // verus!
