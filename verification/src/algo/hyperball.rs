//! HyperBall: the sizes of the balls around every node of a graph, grown
//! one step of distance per iteration on an array of HyperLogLog counters.
//!
//! Two arrays are kept, the current one and the result. An iteration reads
//! only the current array: the counter of a node is merged with the counters
//! of those of its successors that changed in the iteration before, and the
//! outcome is written to the result array. Then the two arrays change
//! places.
//!
//! This module holds the part of the algorithm that works on registers and
//! bits. The estimates of cardinality, which are floating-point numbers, are
//! computed from the registers by the caller.
//!
//! Whatever nodes and merges an iteration leaves out, it comes to the
//! counters that a full iteration would come to: after `t` iterations the
//! counter of a node holds, register by register, the largest of the
//! registers that the nodes within `t` arcs of it started with.
use crate::algo::hyperball_levels::{
    below, lemma_below_twice, lemma_level_grows, lemma_level_rests, lemma_level_shaped,
    lemma_merge_below, level, spread, table_shaped,
};
use crate::graph::{arc_count, lemma_arcs_before_monotone, successors_in_range, Graph};
use crate::utils::cumulative_outdegree::CumulativeOutdegree;
use crate::utils::hyper_log_log::bit_fields::valid_register_size;
use crate::utils::hyper_log_log::broadword::{block_words, merged_words};
use crate::utils::hyper_log_log::counter_array::{
    build_error, element_hash, filled_by, lemma_merge_registers, lemma_one_more_add,
    registers_after_add, registers_after_adds, registers_of,
    HyperLogLogCounter, HyperLogLogCounterArray, HyperLogLogCounterArrayBuilder,
    HyperLogLogError, ThreadHelper, DEFAULT_LOG_2_NUM_REGISTERS,
};
use crate::utils::marks::Marks;
use vstd::prelude::*;

verus! {

/// Why a HyperBall instance cannot be built.
#[derive(Clone, Copy, Debug, PartialEq, Eq, Structural)]
pub enum HyperBallError {
    /// The transposed graph differs from the graph in the number of nodes or
    /// of arcs.
    MismatchedTranspose,
    /// There is not one weight per node.
    MismatchedWeights,
    /// The cumulative out-degrees are not those of the graph.
    MismatchedCumulativeOutdegree,
    /// The arrays of counters were refused.
    Counters(HyperLogLogError),
}

impl HyperBallError {
    /// What the error says, in words.
    pub open spec fn spec_message(self) -> Seq<char> {
        match self {
            HyperBallError::MismatchedTranspose => {
                "the transposed graph differs from the graph in the number of nodes or of arcs"@
            },
            HyperBallError::MismatchedWeights => "there is not one weight per node"@,
            HyperBallError::MismatchedCumulativeOutdegree => {
                "the cumulative out-degrees are not those of the graph"@
            },
            HyperBallError::Counters(e) => e.spec_message(),
        }
    }

    /// What the error says, in words.
    pub fn message(&self) -> (text: String)
        ensures
            text@ == self.spec_message(),
    {
        match self {
            HyperBallError::MismatchedTranspose => {
                "the transposed graph differs from the graph in the number of nodes or of arcs".to_string()
            },
            HyperBallError::MismatchedWeights => "there is not one weight per node".to_string(),
            HyperBallError::MismatchedCumulativeOutdegree => {
                "the cumulative out-degrees are not those of the graph".to_string()
            },
            HyperBallError::Counters(e) => e.message(),
        }
    }
}

/// The words of counter `u` after the counters of those among its first `k`
/// successors that are marked in `modified`, `u` itself left out, were
/// merged into it one after the other.
pub open spec fn diffused(
    successors: Seq<usize>,
    current: Seq<Seq<u64>>,
    modified: Seq<bool>,
    r: nat,
    u: int,
    k: int,
) -> Seq<u64>
    decreases k,
{
    if k <= 0 {
        current[u]
    } else {
        let before = diffused(successors, current, modified, r, u, k - 1);
        let v = successors[k - 1] as int;
        if v != u && modified[v] {
            merged_words(before, current[v], r)
        } else {
            before
        }
    }
}

/// Whether one of the first `k` merges of [`diffused`] changed a word.
pub open spec fn diffusion_changed(
    successors: Seq<usize>,
    current: Seq<Seq<u64>>,
    modified: Seq<bool>,
    r: nat,
    u: int,
    k: int,
) -> bool
    decreases k,
{
    if k <= 0 {
        false
    } else {
        diffusion_changed(successors, current, modified, r, u, k - 1) || diffused(
            successors,
            current,
            modified,
            r,
            u,
            k,
        ) != diffused(successors, current, modified, r, u, k - 1)
    }
}

/// Whether an iteration is systolic: it has the transposed graph, it is not
/// the first, and fewer than a quarter of the counters changed in the
/// iteration before.
pub open spec fn systolic_rule(has_transpose: bool, iteration: nat, modified: nat, n: nat) -> bool {
    has_transpose && iteration > 0 && modified < n / 4
}

/// Whether a systolic iteration prepares a local one: the counters that
/// changed times the nodes are fewer than a tenth of the arcs.
pub open spec fn pre_local_rule(systolic: bool, modified: nat, n: nat, m: nat) -> bool {
    systolic && modified * n < m / 10
}

/// The least multiple of 64 that is not below `x`.
pub open spec fn round_up_to_word(x: nat) -> nat {
    ((x + 63) / 64 * 64) as nat
}

/// The number of nodes that one task takes: 1 in a local iteration; the
/// base granularity in the first iteration; and else the base granularity
/// scaled by the nodes per changed counter, at most the nodes per thread
/// and at least 1, rounded up to a multiple of 64.
pub open spec fn granularity_rule(
    base: nat,
    local: bool,
    iteration: nat,
    modified: nat,
    n: nat,
    threads: nat,
) -> nat {
    if local {
        1
    } else if iteration == 0 {
        base
    } else {
        let per_thread = if n / threads >= 1 {
            n / threads
        } else {
            1
        };
        let scaled = base * n / (if modified >= 1 {
            modified
        } else {
            1
        });
        let rounded = round_up_to_word(
            if scaled <= per_thread {
                scaled
            } else {
                per_thread
            },
        );
        if rounded <= usize::MAX {
            rounded
        } else {
            usize::MAX as nat
        }
    }
}

/// What one iteration keeps for its tasks.
struct IterationContext {
    /// The number of nodes that one task takes.
    granularity: usize,
    /// The next position of the local check list.
    cursor: usize,
    /// The next node and the number of arcs before it.
    arc_balanced_cursor: (usize, usize),
    /// The number of counters that the iteration changed.
    modified_counters: usize,
}

impl IterationContext {
    fn reset(&mut self, granularity: usize)
        ensures
            final(self).granularity == granularity,
            final(self).cursor == 0,
            final(self).arc_balanced_cursor == (0usize, 0usize),
            final(self).modified_counters == 0,
    {
        self.granularity = granularity;
        self.cursor = 0;
        self.arc_balanced_cursor = (0, 0);
        self.modified_counters = 0;
    }
}

impl IterationContext {
    fn new() -> (ctx: Self)
        ensures
            ctx.granularity == 0,
            ctx.cursor == 0,
            ctx.arc_balanced_cursor == (0usize, 0usize),
            ctx.modified_counters == 0,
    {
        IterationContext {
            granularity: 0,
            cursor: 0,
            arc_balanced_cursor: (0, 0),
            modified_counters: 0,
        }
    }
}

/// Builder of a [`HyperBall`].
pub struct HyperBallBuilder<'a> {
    /// The graph.
    pub graph: &'a Graph,
    /// The transposed graph, if systolic iterations are wanted.
    pub rev_graph: Option<&'a Graph>,
    /// The cumulative out-degrees of the graph.
    pub cumulative_outdegree: &'a CumulativeOutdegree,
    /// The base number of nodes per task.
    pub granularity: usize,
    /// The weights of the nodes.
    pub weights: Option<&'a Vec<usize>>,
    /// The parameters of the arrays of counters.
    pub hyper_log_log_settings: HyperLogLogCounterArrayBuilder,
    /// The number of threads among which the tasks are shared.
    pub num_threads: usize,
}

/// The granularity that a builder starts with.
pub const DEFAULT_GRANULARITY: usize = 16384;

impl<'a> HyperBallBuilder<'a> {
    /// A builder for `graph` with its cumulative out-degrees: no transposed
    /// graph, no weights, counters of 64 registers, one thread.
    pub fn new(graph: &'a Graph, cumulative_outdegree: &'a CumulativeOutdegree) -> (b: Self)
        ensures
            b.graph == graph,
            b.rev_graph is None,
            b.cumulative_outdegree == cumulative_outdegree,
            b.weights is None,
            b.granularity == DEFAULT_GRANULARITY,
            b.num_threads == 1,
            b.hyper_log_log_settings.spec_log_2_num_registers() == DEFAULT_LOG_2_NUM_REGISTERS,
            b.hyper_log_log_settings.spec_num_elements() == graph@.len(),
    {
        HyperBallBuilder {
            graph,
            rev_graph: None,
            cumulative_outdegree,
            granularity: DEFAULT_GRANULARITY,
            weights: None,
            hyper_log_log_settings: HyperLogLogCounterArrayBuilder::new().num_elements_upper_bound(
                graph.num_nodes(),
            ),
            num_threads: 1,
        }
    }

    /// Sets the transposed graph, with which iterations can be systolic.
    pub fn transposed(self, transposed: Option<&'a Graph>) -> (b: Self)
        ensures
            b == (HyperBallBuilder { rev_graph: transposed, ..self }),
    {
        HyperBallBuilder { rev_graph: transposed, ..self }
    }

    /// Sets the base number of nodes per task.
    pub fn granularity(self, granularity: usize) -> (b: Self)
        ensures
            b == (HyperBallBuilder { granularity, ..self }),
    {
        HyperBallBuilder { granularity, ..self }
    }

    /// Sets the weights of the nodes; without weights every node weighs 1.
    pub fn weights(self, weights: Option<&'a Vec<usize>>) -> (b: Self)
        ensures
            b == (HyperBallBuilder { weights, ..self }),
    {
        HyperBallBuilder { weights, ..self }
    }

    /// Sets the parameters of the arrays of counters.
    pub fn hyperloglog_settings(self, settings: HyperLogLogCounterArrayBuilder) -> (b: Self)
        ensures
            b == (HyperBallBuilder { hyper_log_log_settings: settings, ..self }),
    {
        HyperBallBuilder { hyper_log_log_settings: settings, ..self }
    }

    /// Sets the number of threads among which the caller will share the
    /// tasks; zero counts as one.
    pub fn num_threads(self, num_threads: usize) -> (b: Self)
        ensures
            b.num_threads == (if num_threads == 0 {
                1
            } else {
                num_threads
            }),
            b == (HyperBallBuilder { num_threads: b.num_threads, ..self }),
    {
        HyperBallBuilder { num_threads: if num_threads == 0 {
            1
        } else {
            num_threads
        }, ..self }
    }
}


/// The state of a HyperBall computation on a graph.
pub struct HyperBall<'a> {
    /// The graph.
    graph: &'a Graph,
    /// The transposed graph, with which iterations can be systolic.
    rev_graph: Option<&'a Graph>,
    /// The cumulative out-degrees of the graph.
    cumulative_outdegree: &'a CumulativeOutdegree,
    /// The weights of the nodes.
    weight: Option<&'a Vec<usize>>,
    /// The base number of nodes per task.
    granularity: usize,
    /// The number of threads among which the tasks are shared.
    num_threads: usize,
    /// The current counters.
    bits: HyperLogLogCounterArray,
    /// The counters that the running iteration writes.
    result_bits: HyperLogLogCounterArray,
    /// The number of iterations done.
    iteration: usize,
    /// Whether the last iteration was systolic.
    systolic: bool,
    /// Whether the last iteration was local.
    local: bool,
    /// Whether the last iteration prepared a local one.
    pre_local: bool,
    /// For every node, whether its current counter changed in the last
    /// iteration.
    modified_counter: Marks,
    /// For every node, whether its counter in the result array changed.
    modified_result_counter: Marks,
    /// In a local iteration, the nodes to scan, in ascending order.
    local_checklist: Vec<usize>,
    /// The nodes to scan in the local iteration that follows.
    local_next_must_be_checked: Vec<usize>,
    /// In a systolic iteration, the nodes whose successors changed.
    must_be_checked: Marks,
    /// The same for the iteration that follows.
    next_must_be_checked: Marks,
    /// What the running iteration keeps for its tasks.
    iteration_context: IterationContext,
}

/// `list` is strictly ascending.
pub open spec fn strictly_ascending(list: Seq<usize>) -> bool {
    forall|i: int, j: int| 0 <= i < j < list.len() ==> list[i] < list[j]
}

/// `v` is among the first `i` entries of `list`.
pub open spec fn occurs_before(list: Seq<usize>, i: int, v: int) -> bool {
    exists|j: int| 0 <= j < i && #[trigger] list[j] == v
}

/// Every entry of `list` is below `n`.
pub open spec fn all_below(list: Seq<usize>, n: nat) -> bool {
    forall|i: int| 0 <= i < list.len() ==> (#[trigger] list[i]) < n
}

impl<'a> HyperBall<'a> {
    /// The lists of successors of the graph.
    pub closed spec fn adjacency(&self) -> Seq<Seq<usize>> {
        self.graph@
    }

    /// The lists of successors of the transposed graph, if there is one.
    pub closed spec fn transposed_adjacency(&self) -> Option<Seq<Seq<usize>>> {
        match self.rev_graph {
            Some(t) => Some(t@),
            None => None,
        }
    }

    /// The number of nodes.
    pub open spec fn spec_num_nodes(&self) -> nat {
        self.adjacency().len()
    }

    /// The width of a register of the counters.
    pub closed spec fn spec_register_size(&self) -> nat {
        self.bits.spec_register_size()
    }

    /// The words of every current counter.
    pub closed spec fn current(&self) -> Seq<Seq<u64>> {
        Seq::new(self.graph@.len(), |u: int| self.bits.counter_words(u))
    }

    /// The registers of the current counter of node `u`.
    pub closed spec fn current_registers(&self, u: int) -> Seq<u64> {
        self.bits.registers(u)
    }

    /// The words of every counter of the result array.
    pub closed spec fn result(&self) -> Seq<Seq<u64>> {
        Seq::new(self.graph@.len(), |u: int| self.result_bits.counter_words(u))
    }

    /// For every node, whether its current counter changed in the last
    /// iteration.
    pub closed spec fn modified_current(&self) -> Seq<bool> {
        self.modified_counter@
    }

    /// For every node, whether its counter in the result array changed.
    pub closed spec fn modified_result(&self) -> Seq<bool> {
        self.modified_result_counter@
    }

    /// For every node, whether a systolic iteration must look at it.
    pub closed spec fn spec_must_be_checked(&self) -> Seq<bool> {
        self.must_be_checked@
    }

    /// The same for the iteration that follows.
    pub closed spec fn spec_next_must_be_checked(&self) -> Seq<bool> {
        self.next_must_be_checked@
    }

    /// The nodes that a local iteration scans.
    pub closed spec fn spec_local_checklist(&self) -> Seq<usize> {
        self.local_checklist@
    }

    /// The nodes gathered for the local iteration that follows.
    pub closed spec fn spec_local_next(&self) -> Seq<usize> {
        self.local_next_must_be_checked@
    }

    /// The number of iterations done.
    pub closed spec fn spec_iteration(&self) -> nat {
        self.iteration as nat
    }

    /// Whether the last iteration was systolic.
    pub closed spec fn spec_systolic(&self) -> bool {
        self.systolic
    }

    /// Whether the last iteration was local.
    pub closed spec fn spec_local(&self) -> bool {
        self.local
    }

    /// Whether the last iteration prepared a local one.
    pub closed spec fn spec_pre_local(&self) -> bool {
        self.pre_local
    }

    /// The number of counters that the last iteration changed.
    pub closed spec fn spec_modified_counters(&self) -> nat {
        self.iteration_context.modified_counters as nat
    }

    /// The base number of nodes per task.
    pub closed spec fn spec_granularity(&self) -> nat {
        self.granularity as nat
    }

    /// The number of nodes per task in the last iteration.
    pub closed spec fn spec_task_granularity(&self) -> nat {
        self.iteration_context.granularity as nat
    }

    /// The number of threads among which the tasks are shared.
    pub closed spec fn spec_num_threads(&self) -> nat {
        self.num_threads as nat
    }

    /// The invariant of the state.
    pub closed spec fn wf(&self) -> bool {
        &&& self.graph.wf()
        &&& match self.rev_graph {
            Some(t) => t.wf() && t@.len() == self.graph@.len() && arc_count(t@) == arc_count(
                self.graph@,
            ),
            None => true,
        }
        &&& self.cumulative_outdegree.is_for(self.graph@)
        &&& match self.weight {
            Some(w) => w@.len() == self.graph@.len(),
            None => true,
        }
        &&& self.num_threads >= 1
        &&& self.bits.wf()
        &&& self.result_bits.wf()
        &&& self.bits.same_shape(&self.result_bits)
        &&& self.bits.spec_num_counters() == self.graph@.len()
        &&& self.modified_counter@.len() == self.graph@.len()
        &&& self.modified_result_counter@.len() == self.graph@.len()
        &&& self.must_be_checked@.len() == self.graph@.len()
        &&& self.next_must_be_checked@.len() == self.graph@.len()
        &&& all_below(self.local_checklist@, self.graph@.len())
        &&& strictly_ascending(self.local_checklist@)
        &&& all_below(self.local_next_must_be_checked@, self.graph@.len())
    }

    /// Whether the iteration that `self` is in looks at the successors of
    /// node `u`: always when it is not systolic or local, and else where the
    /// node is marked.
    pub open spec fn node_checked(&self, u: int) -> bool {
        !self.spec_systolic() || self.spec_local() || self.spec_must_be_checked()[u]
    }

    /// The words that the merges of the iteration make of the counter of
    /// node `u`.
    pub open spec fn node_diffused(&self, u: int) -> Seq<u64> {
        diffused(
            self.adjacency()[u],
            self.current(),
            self.modified_current(),
            self.spec_register_size(),
            u,
            self.adjacency()[u].len() as int,
        )
    }

    /// Whether the iteration changes the counter of node `u`.
    pub open spec fn node_changed(&self, u: int) -> bool {
        self.node_checked(u) && diffusion_changed(
            self.adjacency()[u],
            self.current(),
            self.modified_current(),
            self.spec_register_size(),
            u,
            self.adjacency()[u].len() as int,
        )
    }

    /// The words that the result array holds for node `u` once the
    /// iteration has scanned the node: the merged counter where it changed
    /// or where the current counter had changed before; the current counter
    /// where the node is not looked at but had changed before; and else what
    /// the result array held.
    pub open spec fn node_result(&self, u: int) -> Seq<u64> {
        if self.node_checked(u) {
            if self.node_changed(u) || self.modified_current()[u] {
                self.node_diffused(u)
            } else {
                self.result()[u]
            }
        } else {
            if self.modified_current()[u] {
                self.current()[u]
            } else {
                self.result()[u]
            }
        }
    }

    /// The number of nodes.
    pub fn num_nodes(&self) -> (n: usize)
        ensures
            n == self.spec_num_nodes(),
    {
        self.graph.num_nodes()
    }

    /// The number of iterations done.
    pub fn iteration(&self) -> (i: usize)
        ensures
            i == self.spec_iteration(),
    {
        self.iteration
    }

    /// The number of counters that the last iteration changed.
    pub fn modified_counters(&self) -> (count: usize)
        ensures
            count == self.spec_modified_counters(),
    {
        self.iteration_context.modified_counters
    }

    /// Whether the last iteration was systolic.
    pub fn is_systolic(&self) -> (b: bool)
        ensures
            b == self.spec_systolic(),
    {
        self.systolic
    }

    /// Whether the last iteration was local.
    pub fn is_local(&self) -> (b: bool)
        ensures
            b == self.spec_local(),
    {
        self.local
    }

    /// Whether the last iteration prepared a local one.
    pub fn is_pre_local(&self) -> (b: bool)
        ensures
            b == self.spec_pre_local(),
    {
        self.pre_local
    }

    /// Whether the current counter of `node` changed in the last iteration.
    pub fn is_modified(&self, node: usize) -> (b: bool)
        requires
            self.wf(),
            node < self.spec_num_nodes(),
        ensures
            b == self.modified_current()[node as int],
    {
        self.modified_counter.get(node)
    }

    /// The registers of the current counter of `node`.
    pub fn current_register_values(&self, node: usize) -> (values: Vec<u64>)
        requires
            self.wf(),
            node < self.spec_num_nodes(),
        ensures
            values@ == self.current_registers(node as int),
    {
        let counter = self.bits.get_counter(node);
        counter.register_values(&self.bits)
    }

    /// The registers that the counter of `node` held before the last
    /// iteration, where the iteration changed it.
    pub fn previous_register_values(&self, node: usize) -> (values: Vec<u64>)
        requires
            self.wf(),
            node < self.spec_num_nodes(),
        ensures
            values@ == self.result_bits_registers(node as int),
    {
        let counter = self.result_bits.get_counter(node);
        proof {
            self.bits.lemma_same_shape(&self.result_bits);
        }
        counter.register_values(&self.result_bits)
    }

    /// The registers of the counter of node `u` in the result array.
    pub closed spec fn result_bits_registers(&self, u: int) -> Seq<u64> {
        self.result_bits.registers(u)
    }

    /// What a task leaves as it found it: the graphs, the setup, the flags
    /// of the iteration, the current counters with their marks, and the
    /// nodes to look at.
    pub open spec fn same_iteration(&self, before: &Self) -> bool {
        &&& self.same_setup(before)
        &&& self.spec_task_granularity() == before.spec_task_granularity()
        &&& self.spec_iteration() == before.spec_iteration()
        &&& self.spec_systolic() == before.spec_systolic()
        &&& self.spec_local() == before.spec_local()
        &&& self.spec_pre_local() == before.spec_pre_local()
        &&& self.current() == before.current()
        &&& self.modified_current() == before.modified_current()
        &&& self.spec_must_be_checked() == before.spec_must_be_checked()
        &&& self.spec_local_checklist() == before.spec_local_checklist()
    }

    /// The cursors of the iteration: the next position of the check list,
    /// the next node, and the number of arcs before that node.
    pub closed spec fn spec_cursor(&self) -> (usize, usize, usize) {
        (
            self.iteration_context.cursor,
            self.iteration_context.arc_balanced_cursor.0,
            self.iteration_context.arc_balanced_cursor.1,
        )
    }

    /// The books that the tasks of an iteration keep.
    pub open spec fn same_books(&self, before: &Self) -> bool {
        &&& self.result() == before.result()
        &&& self.modified_result() == before.modified_result()
        &&& self.spec_modified_counters() == before.spec_modified_counters()
        &&& self.spec_next_must_be_checked() == before.spec_next_must_be_checked()
        &&& self.spec_local_next() == before.spec_local_next()
    }

    /// The predecessors of node `u`: its successors in the transposed graph.
    pub open spec fn predecessors(&self, u: int) -> Seq<usize> {
        match self.transposed_adjacency() {
            Some(t) => t[u],
            None => Seq::empty(),
        }
    }

    /// The invariant while the tasks of an iteration run.
    pub closed spec fn task_wf(&self) -> bool {
        &&& self.wf()
        &&& self.systolic ==> self.rev_graph is Some
        &&& self.local ==> self.iteration_context.cursor <= self.local_checklist@.len()
        &&& !self.local ==> self.iteration_context.arc_balanced_cursor.0 <= self.graph@.len() && (
        self.iteration_context.arc_balanced_cursor.0 < self.graph@.len()
            ==> self.iteration_context.arc_balanced_cursor.1
            == self.cumulative_outdegree@[self.iteration_context.arc_balanced_cursor.0 as int])
    }

    /// The position at which the next task starts.
    pub open spec fn next_position(&self) -> int {
        if self.spec_local() {
            self.spec_cursor().0 as int
        } else {
            self.spec_cursor().1 as int
        }
    }

    /// Merges into a copy of the counter of `node` the counters of those of
    /// its successors that changed in the iteration before.
    fn merge_successors(&self, node: usize, helper: &mut ThreadHelper) -> (counter:
        HyperLogLogCounter)
        requires
            self.wf(),
            node < self.spec_num_nodes(),
        ensures
            counter.wf(&self.bits),
            counter.spec_index() == node,
            counter.words(&self.bits) == self.node_diffused(node as int),
            (counter.spec_cached() is Some && counter.spec_changed()) == diffusion_changed(
                self.adjacency()[node as int],
                self.current(),
                self.modified_current(),
                self.spec_register_size(),
                node as int,
                self.adjacency()[node as int].len() as int,
            ),
    {
        let graph: &Graph = self.graph;
        let successors: &Vec<usize> = graph.successors(node);
        let mut counter = self.bits.get_counter(node);
        let ghost r = self.bits.spec_register_size();
        let mut k: usize = 0;
        proof {
            graph.lemma_wf();
        }
        while k < successors.len()
            invariant
                k <= successors@.len(),
                self.wf(),
                node < self.spec_num_nodes(),
                successors@ == self.graph@[node as int],
                successors_in_range(self.graph@),
                r == self.bits.spec_register_size(),
                counter.wf(&self.bits),
                counter.spec_index() == node,
                counter.words(&self.bits) == diffused(
                    successors@,
                    self.current(),
                    self.modified_current(),
                    r,
                    node as int,
                    k as int,
                ),
                (counter.spec_cached() is Some && counter.spec_changed()) == diffusion_changed(
                    successors@,
                    self.current(),
                    self.modified_current(),
                    r,
                    node as int,
                    k as int,
                ),
            decreases successors@.len() - k,
        {
            let succ: usize = successors[k];
            assert(succ < self.graph@.len()) by {
                assert(self.graph@[node as int][k as int] < self.graph@.len());
            }
            if succ != node && self.modified_counter.get(succ) {
                if !counter.is_cached() {
                    counter.cache(&self.bits);
                }
                let other = self.bits.get_counter(succ);
                let _ = counter.merge_cached(&self.bits, &other, helper);
            }
            k += 1;
        }
        counter
    }

    /// Sets the marks of all nodes of `nodes`.
    fn mark_all(marks: &mut Marks, nodes: &Vec<usize>)
        requires
            all_below(nodes@, old(marks)@.len()),
        ensures
            final(marks)@.len() == old(marks)@.len(),
            forall|v: int|
                0 <= v < old(marks)@.len() ==> #[trigger] final(marks)@[v] == (old(marks)@[v]
                    || occurs_before(nodes@, nodes@.len() as int, v)),
    {
        let mut i: usize = 0;
        while i < nodes.len()
            invariant
                i <= nodes@.len(),
                marks@.len() == old(marks)@.len(),
                all_below(nodes@, marks@.len()),
                forall|v: int|
                    0 <= v < marks@.len() ==> #[trigger] marks@[v] == (old(marks)@[v]
                        || occurs_before(nodes@, i as int, v)),
            decreases nodes@.len() - i,
        {
            let node: usize = nodes[i];
            let ghost before = marks@;
            marks.set(node, true);
            proof {
                assert forall|v: int| 0 <= v < marks@.len() implies #[trigger] marks@[v] == (old(marks)@[v]
                    || occurs_before(nodes@, i + 1, v)) by {
                    if occurs_before(nodes@, i as int, v) {
                        let j = choose|j: int| 0 <= j < i && #[trigger] nodes@[j] == v;
                        assert(0 <= j < i + 1 && nodes@[j] == v);
                    }
                    if occurs_before(nodes@, i + 1, v) {
                        let j = choose|j: int| 0 <= j < i + 1 && #[trigger] nodes@[j] == v;
                        if j < i {
                            assert(occurs_before(nodes@, i as int, v));
                        }
                    }
                    if v == node {
                        assert(nodes@[i as int] == v);
                    }
                }
            }
            i += 1;
        }
    }

    /// Appends all nodes of `nodes` to `list`.
    fn append_all(list: &mut Vec<usize>, nodes: &Vec<usize>)
        ensures
            final(list)@ == old(list)@ + nodes@,
    {
        let mut i: usize = 0;
        while i < nodes.len()
            invariant
                i <= nodes@.len(),
                list@ == old(list)@ + nodes@.subrange(0, i as int),
            decreases nodes@.len() - i,
        {
            list.push(nodes[i]);
            assert(nodes@.subrange(0, i + 1) =~= nodes@.subrange(0, i as int).push(
                nodes@[i as int],
            ));
            assert(list@ =~= old(list)@ + nodes@.subrange(0, i + 1));
            i += 1;
        }
        assert(nodes@.subrange(0, nodes@.len() as int) =~= nodes@);
    }

    /// What the task of node `u` adds to the list of nodes for the local
    /// iteration that follows: where the counter changes in an iteration
    /// that prepares a local one, the node, and in a systolic iteration its
    /// predecessors after it.
    pub open spec fn node_local_next(&self, u: int) -> Seq<usize> {
        if self.node_changed(u) && self.spec_pre_local() {
            if self.spec_systolic() {
                seq![u as usize] + self.predecessors(u)
            } else {
                seq![u as usize]
            }
        } else {
            Seq::empty()
        }
    }

    /// Whether the task of node `u` marks node `v` for the systolic
    /// iteration that follows: where the counter of `u` changes in a
    /// systolic iteration that does not prepare a local one, and `v` is a
    /// predecessor of `u`.
    pub open spec fn node_marks(&self, u: int, v: int) -> bool {
        self.node_changed(u) && self.spec_systolic() && !self.spec_pre_local() && occurs_before(
            self.predecessors(u),
            self.predecessors(u).len() as int,
            v,
        )
    }

    /// Writes the words that `counter` reads, a counter of the current
    /// array, to the counter of `node` in the result array.
    fn write_result(&mut self, node: usize, counter: &HyperLogLogCounter)
        requires
            old(self).task_wf(),
            node < old(self).spec_num_nodes(),
            counter.wf(&old(self).bits),
        ensures
            final(self).task_wf(),
            final(self).same_iteration(old(self)),
            final(self).spec_cursor() == old(self).spec_cursor(),
            final(self).bits == old(self).bits,
            final(self).result() == old(self).result().update(
                node as int,
                counter.words(&old(self).bits),
            ),
            final(self).modified_result() == old(self).modified_result(),
            final(self).spec_modified_counters() == old(self).spec_modified_counters(),
            final(self).spec_next_must_be_checked() == old(self).spec_next_must_be_checked(),
            final(self).spec_local_next() == old(self).spec_local_next(),
    {
        proof {
            self.bits.lemma_same_shape(&self.result_bits);
        }
        let mut target = self.result_bits.get_counter(node);
        let ghost before = self.result_bits;
        target.set_to(&mut self.result_bits, counter, &self.bits);
        proof {
            self.result_bits.lemma_same_shape(&before);
            assert(self.result() =~= old(self).result().update(
                node as int,
                counter.words(&old(self).bits),
            ));
        }
    }

    /// The task of one node: merges into its counter the counters of its
    /// successors that changed, where the iteration looks at the node, keeps
    /// the books of what changed, and brings the node's counter in the
    /// result array up to date. Says whether the counter changed.
    pub fn process_node(&mut self, node: usize, helper: &mut ThreadHelper) -> (changed: bool)
        requires
            old(self).task_wf(),
            node < old(self).spec_num_nodes(),
            old(self).spec_modified_counters() < usize::MAX,
        ensures
            final(self).task_wf(),
            final(self).same_iteration(old(self)),
            final(self).spec_cursor() == old(self).spec_cursor(),
            changed == old(self).node_changed(node as int),
            final(self).result() == old(self).result().update(
                node as int,
                old(self).node_result(node as int),
            ),
            final(self).modified_result() == old(self).modified_result().update(
                node as int,
                old(self).modified_result()[node as int] || changed,
            ),
            final(self).spec_modified_counters() == old(self).spec_modified_counters() + (if changed {
                1nat
            } else {
                0nat
            }),
            final(self).spec_next_must_be_checked().len() == old(self).spec_next_must_be_checked().len(),
            forall|v: int|
                0 <= v < old(self).spec_num_nodes()
                    ==> #[trigger] final(self).spec_next_must_be_checked()[v] == (old(self).spec_next_must_be_checked()[v]
                    || old(self).node_marks(node as int, v)),
            final(self).spec_local_next() == old(self).spec_local_next() + old(self).node_local_next(node as int),
    {
        let checked: bool = !self.systolic || self.local || self.must_be_checked.get(node);
        let mut modified: bool = false;
        proof {
            assert(old(self).result().update(node as int, old(self).result()[node as int])
                =~= old(self).result());
            assert(old(self).modified_result().update(
                node as int,
                old(self).modified_result()[node as int],
            ) =~= old(self).modified_result());
            assert(old(self).spec_local_next() + Seq::<usize>::empty() =~= old(self).spec_local_next());
        }
        if checked {
            let counter = self.merge_successors(node, helper);
            modified = counter.is_changed();
            if modified {
                if self.pre_local {
                    self.local_next_must_be_checked.push(node);
                    assert(self.local_next_must_be_checked@ =~= old(self).spec_local_next()
                        + seq![node]);
                }
                self.modified_result_counter.set(node, true);
                if self.systolic {
                    let rev: &Graph = self.rev_graph.unwrap();
                    let predecessors: &Vec<usize> = rev.successors(node);
                    proof {
                        rev.lemma_wf();
                        assert(all_below(predecessors@, self.graph@.len())) by {
                            assert forall|i: int| 0 <= i < predecessors@.len() implies (
                            #[trigger] predecessors@[i]) < self.graph@.len() by {
                                assert(rev@[node as int][i] < rev@.len());
                            }
                        }
                    }
                    if self.pre_local {
                        Self::append_all(&mut self.local_next_must_be_checked, predecessors);
                        assert(self.local_next_must_be_checked@ =~= old(self).spec_local_next()
                            + (seq![node] + predecessors@));
                    } else {
                        Self::mark_all(&mut self.next_must_be_checked, predecessors);
                    }
                }
                self.iteration_context.modified_counters = self.iteration_context.modified_counters
                    + 1;
            }
            if modified || self.modified_counter.get(node) {
                self.write_result(node, &counter);
            }
        } else {
            if self.modified_counter.get(node) {
                let source = self.bits.get_counter(node);
                self.write_result(node, &source);
            }
        }
        modified
    }

    /// The node that the task at position `i` of an iteration works on: the
    /// entry of the check list in a local iteration, and else node `i`.
    pub open spec fn position_node(&self, i: int) -> int {
        if self.spec_local() {
            self.spec_local_checklist()[i] as int
        } else {
            i
        }
    }

    /// The number of positions of an iteration.
    pub open spec fn num_positions(&self) -> int {
        if self.spec_local() {
            self.spec_local_checklist().len() as int
        } else {
            self.spec_num_nodes() as int
        }
    }

    /// Whether node `u` is worked on at one of the first `pos` positions.
    pub open spec fn scanned_before(&self, u: int, pos: int) -> bool {
        if self.spec_local() {
            occurs_before(self.spec_local_checklist(), pos, u)
        } else {
            0 <= u < pos
        }
    }

    /// The number of counters that the tasks at the first `pos` positions
    /// change.
    pub open spec fn changed_before(&self, pos: int) -> nat
        decreases pos,
    {
        if pos <= 0 {
            0
        } else {
            self.changed_before(pos - 1) + (if self.node_changed(self.position_node(pos - 1)) {
                1nat
            } else {
                0nat
            })
        }
    }

    /// What the tasks at the first `pos` positions add to the list of nodes
    /// for the local iteration that follows.
    pub open spec fn gathered_before(&self, pos: int) -> Seq<usize>
        decreases pos,
    {
        if pos <= 0 {
            Seq::empty()
        } else {
            self.gathered_before(pos - 1) + self.node_local_next(self.position_node(pos - 1))
        }
    }

    /// Whether one of the tasks at the first `pos` positions marks node `v`.
    pub open spec fn marked_before(&self, v: int, pos: int) -> bool {
        exists|i: int| 0 <= i < pos && #[trigger] self.node_marks(self.position_node(i), v)
    }

    /// `now` is `self` after the tasks at the first `pos` positions.
    pub open spec fn tasks_done(&self, now: &Self, pos: int) -> bool {
        &&& now.same_iteration(self)
        &&& now.result().len() == self.spec_num_nodes()
        &&& forall|u: int|
            0 <= u < self.spec_num_nodes() ==> #[trigger] now.result()[u] == (if self.scanned_before(
                u,
                pos,
            ) {
                self.node_result(u)
            } else {
                self.result()[u]
            })
        &&& now.modified_result().len() == self.spec_num_nodes()
        &&& forall|u: int|
            0 <= u < self.spec_num_nodes() ==> #[trigger] now.modified_result()[u] == (
            self.modified_result()[u] || (self.scanned_before(u, pos) && self.node_changed(u)))
        &&& now.spec_modified_counters() == self.spec_modified_counters() + self.changed_before(
            pos,
        )
        &&& now.spec_next_must_be_checked().len() == self.spec_num_nodes()
        &&& forall|v: int|
            0 <= v < self.spec_num_nodes() ==> #[trigger] now.spec_next_must_be_checked()[v] == (
            self.spec_next_must_be_checked()[v] || self.marked_before(v, pos))
        &&& now.spec_local_next() == self.spec_local_next() + self.gathered_before(pos)
    }

    /// A strictly ascending list holds at position `i` at least `i`.
    proof fn lemma_ascending_lower_bound(list: Seq<usize>, i: int)
        requires
            strictly_ascending(list),
            0 <= i < list.len(),
        ensures
            list[i] >= i,
        decreases i,
    {
        if i > 0 {
            Self::lemma_ascending_lower_bound(list, i - 1);
            assert(list[i - 1] < list[i]);
        }
    }

    /// A strictly ascending list of nodes is no longer than there are nodes.
    proof fn lemma_checklist_short(list: Seq<usize>, n: nat)
        requires
            strictly_ascending(list),
            all_below(list, n),
        ensures
            list.len() <= n,
    {
        if list.len() > 0 {
            Self::lemma_ascending_lower_bound(list, list.len() - 1);
            assert(list[list.len() - 1] < n);
        }
    }

    /// The number of changed counters is at most the number of positions.
    proof fn lemma_changed_before_bound(&self, pos: int)
        requires
            0 <= pos,
        ensures
            self.changed_before(pos) <= pos,
        decreases pos,
    {
        if pos > 0 {
            self.lemma_changed_before_bound(pos - 1);
        }
    }

    /// The task at one position of the iteration.
    fn process_position(&mut self, pos: usize, helper: &mut ThreadHelper, Ghost(start): Ghost<
        &Self,
    >)
        requires
            old(self).task_wf(),
            start.task_wf(),
            0 <= pos < start.num_positions(),
            start.tasks_done(old(self), pos as int),
            start.spec_modified_counters() == 0,
        ensures
            final(self).task_wf(),
            final(self).spec_cursor() == old(self).spec_cursor(),
            start.tasks_done(final(self), pos + 1),
    {
        proof {
            start.lemma_changed_before_bound(pos as int);
            start.graph.lemma_wf();
            if start.spec_local() {
                Self::lemma_checklist_short(
                    start.spec_local_checklist(),
                    start.spec_num_nodes(),
                );
            }
        }
        let node: usize = if self.local {
            self.local_checklist[pos]
        } else {
            pos
        };
        let ghost u = node as int;
        let ghost before = *self;
        proof {
            // the node was not worked on before
            if start.spec_local() {
                if occurs_before(start.spec_local_checklist(), pos as int, u) {
                    let j = choose|j: int|
                        0 <= j < pos && #[trigger] start.spec_local_checklist()[j] == u;
                    assert(start.spec_local_checklist()[j] < start.spec_local_checklist()[pos as int]);
                }
            }
            assert(!start.scanned_before(u, pos as int));
            assert(before.result()[u] == start.result()[u]);
            assert(before.node_result(u) == start.node_result(u));
            assert(before.node_changed(u) == start.node_changed(u));
        }
        let changed = self.process_node(node, helper);
        proof {
            assert forall|w: int| 0 <= w < start.spec_num_nodes() implies start.scanned_before(
                w,
                pos + 1,
            ) == (start.scanned_before(w, pos as int) || w == u) by {
                if start.spec_local() {
                    let list = start.spec_local_checklist();
                    if occurs_before(list, pos as int, w) {
                        let j = choose|j: int| 0 <= j < pos && #[trigger] list[j] == w;
                        assert(0 <= j < pos + 1 && list[j] == w);
                    }
                    if occurs_before(list, pos + 1, w) {
                        let j = choose|j: int| 0 <= j < pos + 1 && #[trigger] list[j] == w;
                        if j < pos {
                            assert(occurs_before(list, pos as int, w));
                        }
                    }
                    if w == u {
                        assert(list[pos as int] == w);
                    }
                }
            }
            assert forall|v: int| 0 <= v < start.spec_num_nodes() implies start.marked_before(
                v,
                pos + 1,
            ) == (start.marked_before(v, pos as int) || start.node_marks(u, v)) by {
                if start.marked_before(v, pos as int) {
                    let i = choose|i: int|
                        0 <= i < pos && #[trigger] start.node_marks(start.position_node(i), v);
                    assert(0 <= i < pos + 1);
                }
                if start.marked_before(v, pos + 1) {
                    let i = choose|i: int|
                        0 <= i < pos + 1 && #[trigger] start.node_marks(start.position_node(i), v);
                    if i < pos {
                        assert(start.marked_before(v, pos as int));
                    }
                }
                if start.node_marks(u, v) {
                    assert(start.node_marks(start.position_node(pos as int), v));
                }
            }
            assert(before.node_local_next(u) == start.node_local_next(u));
            assert forall|v: int| 0 <= v < start.spec_num_nodes() implies before.node_marks(u, v)
                == start.node_marks(u, v) by {}
            assert(self.spec_local_next() =~= start.spec_local_next() + start.gathered_before(
                pos + 1,
            ));
        }
    }

    /// The number of arcs that a task of a non-local iteration aims at: the
    /// arcs per node times the nodes per task, rounded up, and at least 1.
    pub open spec fn arcs_per_task(&self) -> nat {
        arcs_per_task_rule(
            arc_count(self.adjacency()),
            self.spec_task_granularity(),
            self.spec_num_nodes(),
        )
    }

    /// The cumulative out-degrees of the graph.
    pub closed spec fn cumulative(&self) -> Seq<usize> {
        self.cumulative_outdegree@
    }

    fn arc_granularity(&self) -> (arcs: usize)
        requires
            self.wf(),
            self.spec_num_nodes() > 0,
        ensures
            arcs == self.arcs_per_task(),
            arcs >= 1,
    {
        let n: u128 = self.graph.num_nodes() as u128;
        let m: u128 = self.graph.num_arcs() as u128;
        let g: u128 = self.iteration_context.granularity as u128;
        assert(m * g <= 0xffff_ffff_ffff_ffff * 0xffff_ffff_ffff_ffff) by (nonlinear_arith)
            requires
                0 <= m <= 0xffff_ffff_ffff_ffff,
                0 <= g <= 0xffff_ffff_ffff_ffff,
        ;
        let arcs: u128 = (m * g + (n - 1)) / n;
        if arcs < 1 {
            1
        } else if arcs > usize::MAX as u128 {
            usize::MAX
        } else {
            arcs as usize
        }
    }

    /// Hands out the next task of the iteration: a range of positions, or
    /// `None` when every position was handed out. A local iteration hands
    /// out one position of the check list at a time. Any other iteration
    /// hands out the nodes from the cursor up to, not including, the first
    /// node before which a task's worth of arcs more than before the cursor
    /// have left, or up to the last node.
    pub fn next_task(&mut self) -> (task: Option<(usize, usize)>)
        requires
            old(self).task_wf(),
        ensures
            final(self).task_wf(),
            final(self).same_books(old(self)),
            final(self).same_setup(old(self)),
            final(self).spec_task_granularity() == old(self).spec_task_granularity(),
            final(self).spec_iteration() == old(self).spec_iteration(),
            final(self).spec_systolic() == old(self).spec_systolic(),
            final(self).spec_local() == old(self).spec_local(),
            final(self).spec_pre_local() == old(self).spec_pre_local(),
            final(self).current() == old(self).current(),
            final(self).modified_current() == old(self).modified_current(),
            final(self).spec_must_be_checked() == old(self).spec_must_be_checked(),
            final(self).spec_local_checklist() == old(self).spec_local_checklist(),
            task is None <==> old(self).next_position() >= old(self).num_positions(),
            task is None ==> final(self).spec_cursor() == old(self).spec_cursor(),
            task matches Some((start, end)) ==> {
                &&& start == old(self).next_position()
                &&& end == final(self).next_position()
                &&& start < end <= old(self).num_positions()
                &&& old(self).spec_local() ==> end == start + 1
                &&& !old(self).spec_local() ==> is_balanced_end(
                    old(self).cumulative(),
                    start as int,
                    end as int,
                    old(self).arcs_per_task(),
                )
            },
    {
        if self.local {
            let start: usize = self.iteration_context.cursor;
            if start >= self.local_checklist.len() {
                return None;
            }
            self.iteration_context.cursor = start + 1;
            Some((start, start + 1))
        } else {
            let graph: &Graph = self.graph;
            let n: usize = graph.num_nodes();
            let m: usize = graph.num_arcs();
            let (next_node, next_arc) = self.iteration_context.arc_balanced_cursor;
            if next_node >= n {
                return None;
            }
            let cumulative: &CumulativeOutdegree = self.cumulative_outdegree;
            let arcs: usize = self.arc_granularity();
            proof {
                assert forall|i: int, j: int| 0 <= i <= j < cumulative@.len() implies cumulative@[i]
                    <= cumulative@[j] by {
                    lemma_arcs_before_monotone(graph@, i, j);
                }
                lemma_arcs_before_monotone(graph@, 0, n as int);
                assert(cumulative@[n as int] == m);
            }
            let end: usize;
            let end_arc: usize;
            if arcs > usize::MAX - next_arc || next_arc + arcs >= m {
                end = n;
                end_arc = next_arc;
            } else {
                match cumulative.succ(next_arc + arcs) {
                    Some((index, value)) => {
                        end = index;
                        end_arc = value;
                        assert(index > next_node) by {
                            if index <= next_node {
                                assert(cumulative@[index as int] <= cumulative@[next_node as int]);
                            }
                        }
                    },
                    None => {
                        assert(false);
                        end = n;
                        end_arc = next_arc;
                    },
                }
            }
            self.iteration_context.arc_balanced_cursor = (end, end_arc);
            Some((next_node, end))
        }
    }

    /// Runs the tasks of the iteration, one after the other, from the
    /// cursor to the last position.
    pub fn run_tasks(&mut self, helper: &mut ThreadHelper)
        requires
            old(self).task_wf(),
            old(self).next_position() == 0,
            old(self).spec_modified_counters() == 0,
        ensures
            final(self).task_wf(),
            old(self).tasks_done(final(self), old(self).num_positions()),
    {
        let ghost start = *self;
        proof {
            assert(start.spec_local_next() + start.gathered_before(0) =~= start.spec_local_next());
            assert(start.result().len() == start.spec_num_nodes());
        }
        loop
            invariant_except_break
                self.task_wf(),
                start.task_wf(),
                start.spec_modified_counters() == 0,
                0 <= self.next_position() <= start.num_positions(),
                start.tasks_done(self, self.next_position()),
            ensures
                self.task_wf(),
                start.tasks_done(self, start.num_positions()),
            decreases start.num_positions() - self.next_position(),
        {
            let ghost head = *self;
            let task = self.next_task();
            match task {
                None => {
                    break ;
                },
                Some((first, end)) => {
                    let mut pos: usize = first;
                    while pos < end
                        invariant
                            first <= pos <= end <= start.num_positions(),
                            end == self.next_position(),
                            self.task_wf(),
                            start.task_wf(),
                            start.spec_modified_counters() == 0,
                            start.tasks_done(self, pos as int),
                        decreases end - pos,
                    {
                        self.process_position(pos, helper, Ghost(&start));
                        pos += 1;
                    }
                },
            }
        }
    }

    /// `now` is `self` made ready for its next iteration: the kind of the
    /// iteration is decided, the marks of the result array are taken back,
    /// the check list or the marks of a systolic iteration are set up, and
    /// the cursors and the count of changed counters start at zero.
    pub open spec fn prepares(&self, now: &Self) -> bool {
        let n = self.spec_num_nodes();
        &&& now.same_setup(self)
        &&& now.spec_iteration() == self.spec_iteration()
        &&& now.current() == self.current()
        &&& now.result() == self.result()
        &&& now.modified_current() == self.modified_current()
        &&& now.spec_systolic() == systolic_rule(
            self.transposed_adjacency() is Some,
            self.spec_iteration(),
            self.spec_modified_counters(),
            n,
        )
        &&& now.spec_local() == self.spec_pre_local()
        &&& now.spec_pre_local() == pre_local_rule(
            now.spec_systolic(),
            self.spec_modified_counters(),
            n,
            arc_count(self.adjacency()),
        )
        &&& now.modified_result().len() == n
        &&& forall|u: int|
            0 <= u < n ==> #[trigger] now.modified_result()[u] == (self.spec_local()
                && self.modified_result()[u] && !occurs_before(
                self.spec_local_checklist(),
                self.spec_local_checklist().len() as int,
                u,
            ))
        &&& if now.spec_local() {
            &&& strictly_ascending(now.spec_local_checklist())
            &&& forall|x: int|
                occurs_before(
                    now.spec_local_checklist(),
                    now.spec_local_checklist().len() as int,
                    x,
                ) <==> occurs_before(self.spec_local_next(), self.spec_local_next().len() as int, x)
            &&& now.spec_local_next().len() == 0
        } else {
            &&& now.spec_local_checklist() == self.spec_local_checklist()
            &&& now.spec_local_next() == self.spec_local_next()
        }
        &&& now.spec_must_be_checked().len() == n
        &&& now.spec_next_must_be_checked().len() == n
        &&& if now.spec_systolic() && !now.spec_local() {
            &&& forall|u: int| 0 <= u < n ==> !(#[trigger] now.spec_next_must_be_checked()[u])
            &&& forall|u: int|
                0 <= u < n ==> #[trigger] now.spec_must_be_checked()[u] == (!self.spec_systolic()
                    || self.spec_must_be_checked()[u])
        } else {
            &&& now.spec_must_be_checked() == self.spec_must_be_checked()
            &&& now.spec_next_must_be_checked() == self.spec_next_must_be_checked()
        }
        &&& now.spec_task_granularity() == granularity_rule(
            self.spec_granularity(),
            now.spec_local(),
            self.spec_iteration(),
            self.spec_modified_counters(),
            n,
            self.spec_num_threads(),
        )
        &&& now.spec_cursor() == (0usize, 0usize, 0usize)
        &&& now.spec_modified_counters() == 0
    }

    /// `now` is `self` after the end of an iteration: the two arrays of
    /// counters with their marks have changed places, and so have the marks
    /// of the systolic iterations; one more iteration is done.
    pub open spec fn finishes(&self, now: &Self) -> bool {
        &&& now.same_setup(self)
        &&& now.spec_task_granularity() == self.spec_task_granularity()
        &&& now.spec_iteration() == self.spec_iteration() + 1
        &&& now.spec_systolic() == self.spec_systolic()
        &&& now.spec_local() == self.spec_local()
        &&& now.spec_pre_local() == self.spec_pre_local()
        &&& now.current() == self.result()
        &&& now.result() == self.current()
        &&& now.modified_current() == self.modified_result()
        &&& now.modified_result() == self.modified_current()
        &&& now.spec_must_be_checked() == self.spec_next_must_be_checked()
        &&& now.spec_next_must_be_checked() == self.spec_must_be_checked()
        &&& now.spec_local_checklist() == self.spec_local_checklist()
        &&& now.spec_local_next() == self.spec_local_next()
        &&& now.spec_modified_counters() == self.spec_modified_counters()
    }

    fn decide_granularity(&self, local: bool) -> (g: usize)
        requires
            self.wf(),
        ensures
            g == granularity_rule(
                self.spec_granularity(),
                local,
                self.spec_iteration(),
                self.spec_modified_counters(),
                self.spec_num_nodes(),
                self.spec_num_threads(),
            ),
    {
        if local {
            1
        } else if self.iteration == 0 {
            self.granularity
        } else {
            let n: usize = self.graph.num_nodes();
            let per_thread: usize = if n / self.num_threads >= 1 {
                n / self.num_threads
            } else {
                1
            };
            let modified: usize = if self.iteration_context.modified_counters >= 1 {
                self.iteration_context.modified_counters
            } else {
                1
            };
            let base: u128 = self.granularity as u128;
            assert(base * n <= 0xffff_ffff_ffff_ffff * 0xffff_ffff_ffff_ffff) by (nonlinear_arith)
                requires
                    0 <= base <= 0xffff_ffff_ffff_ffff,
                    0 <= n <= 0xffff_ffff_ffff_ffff,
            ;
            let scaled: u128 = base * (n as u128) / (modified as u128);
            let clamped: u128 = if scaled <= per_thread as u128 {
                scaled
            } else {
                per_thread as u128
            };
            let rounded: u128 = (clamped + 63) / 64 * 64;
            if rounded <= usize::MAX as u128 {
                rounded as usize
            } else {
                usize::MAX
            }
        }
    }

    /// Makes the state ready for its next iteration.
    pub fn prepare(&mut self)
        requires
            old(self).wf(),
        ensures
            final(self).task_wf(),
            old(self).prepares(final(self)),
            final(self).next_position() == 0,
    {
        let graph: &Graph = self.graph;
        let n: usize = graph.num_nodes();
        let m: usize = graph.num_arcs();
        let modified: usize = self.iteration_context.modified_counters;
        let previous_was_systolic: bool = self.systolic;
        let previous_was_local: bool = self.local;
        let systolic: bool = self.rev_graph.is_some() && self.iteration > 0 && modified < n / 4;
        assert(modified * n <= 0xffff_ffff_ffff_ffff * 0xffff_ffff_ffff_ffff) by (nonlinear_arith)
            requires
                0 <= modified <= 0xffff_ffff_ffff_ffff,
                0 <= n <= 0xffff_ffff_ffff_ffff,
        ;
        let local: bool = self.pre_local;
        let pre_local: bool = systolic && (modified as u128) * (n as u128) < (m as u128) / 10;
        let granularity: usize = self.decide_granularity(local);
        self.systolic = systolic;
        self.local = local;
        self.pre_local = pre_local;
        if previous_was_local {
            Self::unmark_all(&mut self.modified_result_counter, &self.local_checklist);
        } else {
            Self::fill(&mut self.modified_result_counter, false);
        }
        if local {
            let mut gathered: Vec<usize> = Vec::new();
            std::mem::swap(&mut gathered, &mut self.local_next_must_be_checked);
            self.local_checklist = sorted_without_repeats(gathered);
            proof {
                assert forall|i: int| 0 <= i < self.local_checklist@.len() implies (
                #[trigger] self.local_checklist@[i]) < n by {
                    let x = self.local_checklist@[i];
                    assert(occurs_before(
                        self.local_checklist@,
                        self.local_checklist@.len() as int,
                        x as int,
                    ));
                    let j = choose|j: int|
                        0 <= j < old(self).local_next_must_be_checked@.len()
                            && #[trigger] old(self).local_next_must_be_checked@[j] == x as int;
                }
            }
        } else if systolic {
            Self::fill(&mut self.next_must_be_checked, false);
            if !previous_was_systolic {
                Self::fill(&mut self.must_be_checked, true);
            }
        }
        self.iteration_context.reset(granularity);
        proof {
            assert(self.cumulative_outdegree@[0] == 0) by {
                assert(graph@.subrange(0, 0) =~= Seq::<Seq<usize>>::empty());
            }
        }
    }

    /// Sets every mark to `value`.
    fn fill(marks: &mut Marks, value: bool)
        ensures
            final(marks)@.len() == old(marks)@.len(),
            forall|v: int| 0 <= v < old(marks)@.len() ==> #[trigger] final(marks)@[v] == value,
    {
        let mut i: usize = 0;
        while i < marks.len()
            invariant
                i <= marks@.len(),
                marks@.len() == old(marks)@.len(),
                forall|v: int| 0 <= v < i ==> #[trigger] marks@[v] == value,
            decreases marks@.len() - i,
        {
            marks.set(i, value);
            i += 1;
        }
    }

    /// Takes back the marks of all nodes of `nodes`.
    fn unmark_all(marks: &mut Marks, nodes: &Vec<usize>)
        requires
            all_below(nodes@, old(marks)@.len()),
        ensures
            final(marks)@.len() == old(marks)@.len(),
            forall|v: int|
                0 <= v < old(marks)@.len() ==> #[trigger] final(marks)@[v] == (old(marks)@[v]
                    && !occurs_before(nodes@, nodes@.len() as int, v)),
    {
        let mut i: usize = 0;
        while i < nodes.len()
            invariant
                i <= nodes@.len(),
                marks@.len() == old(marks)@.len(),
                all_below(nodes@, marks@.len()),
                forall|v: int|
                    0 <= v < marks@.len() ==> #[trigger] marks@[v] == (old(marks)@[v]
                        && !occurs_before(nodes@, i as int, v)),
            decreases nodes@.len() - i,
        {
            let node: usize = nodes[i];
            marks.set(node, false);
            proof {
                assert forall|v: int| 0 <= v < marks@.len() implies #[trigger] marks@[v] == (old(marks)@[v]
                    && !occurs_before(nodes@, i + 1, v)) by {
                    if occurs_before(nodes@, i as int, v) {
                        let j = choose|j: int| 0 <= j < i && #[trigger] nodes@[j] == v;
                        assert(0 <= j < i + 1 && nodes@[j] == v);
                    }
                    if occurs_before(nodes@, i + 1, v) {
                        let j = choose|j: int| 0 <= j < i + 1 && #[trigger] nodes@[j] == v;
                        if j < i {
                            assert(occurs_before(nodes@, i as int, v));
                        }
                    }
                    if v == node {
                        assert(nodes@[i as int] == v);
                    }
                }
            }
            i += 1;
        }
    }

    /// Ends an iteration: the current array and the result array change
    /// places.
    pub fn finish(&mut self)
        requires
            old(self).task_wf(),
            old(self).spec_iteration() < usize::MAX,
        ensures
            final(self).wf(),
            old(self).finishes(final(self)),
    {
        proof {
            self.bits.lemma_same_shape(&self.result_bits);
        }
        let swapped = self.bits.swap_with(&mut self.result_bits);
        assert(swapped is Ok);
        std::mem::swap(&mut self.modified_counter, &mut self.modified_result_counter);
        std::mem::swap(&mut self.must_be_checked, &mut self.next_must_be_checked);
        self.iteration = self.iteration + 1;
        proof {
            self.bits.lemma_same_shape(&self.result_bits);
            self.bits.lemma_same_shape(&old(self).bits);
            self.result_bits.lemma_same_shape(&old(self).result_bits);
            old(self).bits.lemma_same_shape(&old(self).result_bits);
            assert(self.current() =~= old(self).result());
            assert(self.result() =~= old(self).current());
        }
    }

    /// `now` is `self` after one iteration: the state was made ready, the
    /// tasks ran from the first position to the last, and the arrays changed
    /// places.
    pub open spec fn iterated(&self, now: &Self) -> bool {
        exists|ready: Self, done: Self|
            {
                &&& #[trigger] self.prepares(&ready)
                &&& ready.tasks_done(&done, ready.num_positions())
                &&& #[trigger] done.finishes(now)
            }
    }

    /// `now` is `self` after `count` iterations, of which none but the last
    /// left all counters as they were. The states between the iterations
    /// keep the invariant.
    pub open spec fn ran(&self, now: &Self, count: nat) -> bool
        decreases count,
    {
        if count == 0 {
            *now == *self
        } else {
            exists|mid: Self|
                mid.wf() && self.ran(&mid, (count - 1) as nat) && (count == 1
                    || mid.spec_modified_counters() != 0) && #[trigger] mid.iterated(now)
        }
    }

    /// One iteration: the state is made ready, the tasks run from the first
    /// position to the last, and the arrays change places.
    pub fn iterate(&mut self)
        requires
            old(self).wf(),
            old(self).spec_iteration() < usize::MAX,
        ensures
            final(self).wf(),
            old(self).iterated(final(self)),
            old(self).coherent() ==> final(self).coherent(),
            old(self).coherent() ==> forall|u: int, j: int|
                0 <= u < old(self).spec_num_nodes() && 0 <= j < old(self).spec_num_registers()
                    ==> old(self).current_registers(u)[j] <= #[trigger] final(self).current_registers(
                    u,
                )[j],
            old(self).coherent() && old(self).transposed_ok()
                ==> forall|start: Seq<Seq<u64>>, t: nat| #[trigger]
                old(self).holds_level(start, t) ==> final(self).holds_level(start, t + 1),
    {
        self.prepare();
        let ghost ready = *self;
        let mut helper = self.bits.get_thread_helper();
        self.run_tasks(&mut helper);
        let ghost done = *self;
        self.finish();
        assert(old(self).prepares(&ready) && ready.tasks_done(&done, ready.num_positions())
            && done.finishes(self));
        proof {
            if old(self).coherent() {
                old(self).lemma_iteration_coherent(self);
                assert forall|u: int, j: int|
                    0 <= u < old(self).spec_num_nodes() && 0 <= j < old(
                        self,
                    ).spec_num_registers() implies old(self).current_registers(u)[j]
                    <= #[trigger] self.current_registers(u)[j] by {
                    old(self).lemma_registers_never_fall(self, u, j);
                    old(self).lemma_shape();
                    self.lemma_shape();
                }
                if old(self).transposed_ok() {
                    assert forall|start: Seq<Seq<u64>>, t: nat| #[trigger]
                        old(self).holds_level(start, t) implies self.holds_level(start, t + 1) by {
                        old(self).lemma_iteration_level(self, start, t);
                    }
                }
            }
        }
    }

    /// The base-2 logarithm of the number of registers of a counter.
    pub closed spec fn spec_log_2_num_registers(&self) -> nat {
        self.bits.spec_log_2_num_registers()
    }

    /// The number of registers of a counter.
    pub closed spec fn spec_num_registers(&self) -> nat {
        self.bits.spec_num_registers()
    }

    /// Whether the nodes have weights.
    pub closed spec fn has_weights(&self) -> bool {
        self.weight is Some
    }

    /// The weights of the nodes; empty where they have none.
    pub closed spec fn spec_weights(&self) -> Seq<usize> {
        match self.weight {
            Some(w) => w@,
            None => Seq::empty(),
        }
    }

    /// With weights there is one for every node.
    pub proof fn lemma_weights(&self)
        requires
            self.wf(),
        ensures
            self.has_weights() ==> self.spec_weights().len() == self.spec_num_nodes(),
            !self.has_weights() ==> self.spec_weights().len() == 0,
    {
    }

    /// What an initialisation leaves as it was: the graphs and the setup.
    pub open spec fn same_setup(&self, before: &Self) -> bool {
        &&& self.adjacency() == before.adjacency()
        &&& self.transposed_adjacency() == before.transposed_adjacency()
        &&& self.spec_register_size() == before.spec_register_size()
        &&& self.spec_log_2_num_registers() == before.spec_log_2_num_registers()
        &&& self.spec_num_registers() == before.spec_num_registers()
        &&& self.spec_granularity() == before.spec_granularity()
        &&& self.spec_num_threads() == before.spec_num_threads()
        &&& self.has_weights() == before.has_weights()
        &&& self.spec_weights() == before.spec_weights()
    }

    /// The state before the first iteration: no iteration done, no kind of
    /// iteration chosen, every current counter marked as changed, every
    /// counter of the result array empty. Without weights the current
    /// counter of a node holds the node and nothing else; with weights it
    /// holds as many elements as the node weighs.
    pub open spec fn is_initial(&self) -> bool {
        &&& self.spec_iteration() == 0
        &&& !self.spec_systolic()
        &&& !self.spec_local()
        &&& !self.spec_pre_local()
        &&& self.spec_modified_counters() == 0
        &&& self.modified_current().len() == self.spec_num_nodes()
        &&& forall|u: int| 0 <= u < self.spec_num_nodes() ==> #[trigger] self.modified_current()[u]
        &&& !self.has_weights() ==> forall|u: int|
            0 <= u < self.spec_num_nodes() ==> #[trigger] self.current_registers(u)
                == registers_after_add(
                Seq::new(self.spec_num_registers(), |j: int| 0u64),
                element_hash(u as usize),
                self.spec_log_2_num_registers(),
                self.spec_register_size(),
            )
        &&& self.has_weights() ==> forall|u: int|
            0 <= u < self.spec_num_nodes() ==> filled_by(
                #[trigger] self.current_registers(u),
                Seq::new(self.spec_num_registers(), |j: int| 0u64),
                self.spec_weights()[u] as nat,
                self.spec_log_2_num_registers(),
                self.spec_register_size(),
            )
        &&& forall|u: int|
            0 <= u < self.spec_num_nodes() ==> #[trigger] self.result_bits_registers(u) == Seq::new(
                self.spec_num_registers(),
                |j: int| 0u64,
            )
    }

    /// Brings the state to before the first iteration. Every counter of
    /// both arrays is emptied; then, without weights, every node is added
    /// to its own current counter, and with weights as many random elements
    /// are added to the current counter of a node as the node weighs.
    pub fn init(&mut self)
        requires
            old(self).wf(),
        ensures
            final(self).wf(),
            final(self).same_setup(old(self)),
            final(self).is_initial(),
            final(self).coherent(),
            final(self).has_weights() ==> forall|u: int|
                0 <= u < final(self).spec_num_nodes() ==> filled_by(
                    #[trigger] final(self).current_registers(u),
                    Seq::new(final(self).spec_num_registers(), |j: int| 0u64),
                    final(self).spec_weights()[u] as nat,
                    final(self).spec_log_2_num_registers(),
                    final(self).spec_register_size(),
                ),
            forall|u: int|
                0 <= u < final(self).spec_num_nodes() ==> #[trigger] final(self).result_bits_registers(
                    u,
                ) == Seq::new(final(self).spec_num_registers(), |j: int| 0u64),
    {
        let n: usize = self.graph.num_nodes();
        self.bits.clear();
        self.result_bits.clear();
        proof {
            self.bits.lemma_same_shape(&old(self).bits);
            self.result_bits.lemma_same_shape(&old(self).result_bits);
        }
        let ghost m = self.bits.spec_num_registers();
        let ghost zeros = Seq::new(m, |j: int| 0u64);
        let ghost p = self.bits.spec_log_2_num_registers();
        let ghost r = self.bits.spec_register_size();
        proof {
            assert forall|u: int| 0 <= u < n implies #[trigger] self.result_bits.registers(u)
                == zeros by {
                self.bits.lemma_sizes();
                self.result_bits.lemma_sizes();
                assert forall|j: int| 0 <= j < m implies self.result_bits.registers(u)[j] == 0 by {
                    assert(self.result_bits.registers(u)[j] == 0);
                }
                assert(self.result_bits.registers(u) =~= zeros);
            }
        }
        let mut i: usize = 0;
        while i < n
            invariant
                i <= n,
                n == self.graph@.len(),
                self.wf(),
                self.same_setup(old(self)),
                m == self.bits.spec_num_registers(),
                p == self.bits.spec_log_2_num_registers(),
                r == self.bits.spec_register_size(),
                zeros == Seq::new(m, |j: int| 0u64),
                self.weight is None ==> forall|u: int|
                    0 <= u < i ==> #[trigger] self.bits.registers(u) == registers_after_add(
                        zeros,
                        element_hash(u as usize),
                        p,
                        r,
                    ),
                self.weight is Some ==> forall|u: int|
                    0 <= u < i ==> filled_by(
                        #[trigger] self.bits.registers(u),
                        zeros,
                        self.spec_weights()[u] as nat,
                        p,
                        r,
                    ),
                forall|u: int| i <= u < n ==> #[trigger] self.bits.registers(u) =~= zeros,
                forall|u: int| 0 <= u < n ==> #[trigger] self.result_bits.registers(u) == zeros,
            decreases n - i,
        {
            let mut counter = self.bits.get_counter(i);
            let ghost before = self.bits;
            let ghost result_before = self.result_bits;
            match self.weight {
                Some(weights) => {
                    let weight: usize = weights[i];
                    let mut k: usize = 0;
                    let ghost mut hashes: Seq<u64> = Seq::empty();
                    proof {
                        assert(counter.registers(&before) == before.registers(i as int));
                        assert(before.registers(i as int) == zeros);
                    }
                    while k < weight
                        invariant
                            k <= weight,
                            i < n,
                            n == self.graph@.len(),
                            self.wf(),
                            self.same_setup(old(self)),
                            self.weight is Some,
                            self.weight == Some(weights),
                            weight == self.spec_weights()[i as int],
                            counter.wf(&self.bits),
                            counter.spec_index() == i,
                            counter.spec_cached() is None,
                            self.bits.differs_only_at(&before, i as int),
                            self.result_bits == result_before,
                            p == self.bits.spec_log_2_num_registers(),
                            r == self.bits.spec_register_size(),
                            hashes.len() == k,
                            counter.registers(&self.bits) == registers_after_adds(zeros, hashes, p, r),
                        decreases weight - k,
                    {
                        let ghost step = self.bits;
                        let element: usize = random_element();
                        counter.add(&mut self.bits, element);
                        proof {
                            lemma_one_more_add(zeros, hashes, element_hash(element), p, r);
                            hashes = hashes.push(element_hash(element));
                            assert forall|d: int|
                                0 <= d < self.bits.spec_num_counters()
                                    && d != i implies #[trigger] self.bits.counter_words(
                                d,
                            ) == before.counter_words(d) by {
                                assert(self.bits.counter_words(d) == step.counter_words(d));
                            }
                            self.bits.lemma_same_shape(&step);
                        }
                        k += 1;
                    }
                    proof {
                        assert(counter.registers(&self.bits) == self.bits.registers(i as int));
                        assert(filled_by(
                            self.bits.registers(i as int),
                            zeros,
                            self.spec_weights()[i as int] as nat,
                            p,
                            r,
                        ));
                    }
                },
                None => {
                    assert(counter.registers(&before) == before.registers(i as int));
                    assert(before.registers(i as int) == zeros);
                    counter.add(&mut self.bits, i);
                    proof {
                        self.bits.lemma_same_shape(&before);
                        assert(counter.registers(&self.bits) == self.bits.registers(i as int));
                        assert(self.bits.registers(i as int) == registers_after_add(
                            zeros,
                            element_hash(i),
                            p,
                            r,
                        ));
                    }
                },
            }
            proof {
                self.bits.lemma_same_shape(&before);
                assert forall|u: int| 0 <= u < n && u != i implies #[trigger] self.bits.registers(u)
                    == before.registers(u) by {
                    assert(self.bits.counter_words(u) == before.counter_words(u));
                }
            }
            i += 1;
        }
        self.iteration = 0;
        self.systolic = false;
        self.local = false;
        self.pre_local = false;
        self.iteration_context.reset(self.granularity);
        Self::fill(&mut self.modified_counter, true);
    }

    /// Initialises the state and iterates until an iteration changes no
    /// counter, at most `upper_bound` times and at most as often as there
    /// are nodes.
    pub fn run_until_stable(&mut self, upper_bound: usize)
        requires
            old(self).wf(),
        ensures
            final(self).wf(),
            final(self).same_setup(old(self)),
            final(self).spec_iteration() <= upper_bound,
            final(self).spec_iteration() <= final(self).spec_num_nodes(),
            final(self).spec_iteration() == upper_bound
                || final(self).spec_iteration() == final(self).spec_num_nodes()
                || (final(self).spec_iteration() > 0 && final(self).spec_modified_counters() == 0),
            final(self).spec_iteration() == 0 ==> final(self).is_initial(),
            exists|start: Self|
                start.wf() && start.same_setup(old(self)) && start.is_initial() && #[trigger] start.ran(
                    final(self),
                    final(self).spec_iteration(),
                ) && (old(self).transposed_ok() ==> final(self).holds_level(
                    start.register_table(),
                    final(self).spec_iteration(),
                )),
            final(self).coherent(),
    {
        let n: usize = self.graph.num_nodes();
        let bound: usize = if upper_bound <= n {
            upper_bound
        } else {
            n
        };
        self.init();
        let ghost start = *self;
        let mut i: usize = 0;
        while i < bound
            invariant_except_break
                i <= bound,
                i == self.spec_iteration(),
                i > 0 ==> self.spec_modified_counters() != 0,
            invariant
                self.coherent(),
                start.wf(),
                start.same_setup(old(self)),
                start.is_initial(),
                start.ran(self, self.spec_iteration()),
                bound <= upper_bound,
                bound <= n,
                bound == upper_bound || bound == n,
                n == self.spec_num_nodes(),
                self.wf(),
                self.same_setup(old(self)),
                self.spec_iteration() == 0 ==> self.is_initial(),
            ensures
                self.spec_iteration() <= bound,
                self.spec_iteration() == bound || (self.spec_iteration() > 0
                    && self.spec_modified_counters() == 0),
            decreases bound - i,
        {
            let ghost before = *self;
            self.iterate();
            proof {
                let (ready, done) = choose|ready: Self, done: Self|
                    {
                        &&& #[trigger] before.prepares(&ready)
                        &&& ready.tasks_done(&done, ready.num_positions())
                        &&& #[trigger] done.finishes(self)
                    };
                assert(self.same_setup(&before));
                assert(self.spec_iteration() == before.spec_iteration() + 1);
                assert(start.ran(&before, ((i + 1) as nat - 1) as nat));
                assert(before.iterated(self));
                assert(start.ran(self, (i + 1) as nat));
            }
            i += 1;
            if self.iteration_context.modified_counters == 0 {
                break ;
            }
        }
        proof {
            if old(self).transposed_ok() {
                start.lemma_ran_level(self, self.spec_iteration());
            }
        }
    }

    /// Initialises the state and iterates until an iteration changes no
    /// counter, at most as often as there are nodes.
    pub fn run_until_done(&mut self)
        requires
            old(self).wf(),
        ensures
            final(self).wf(),
            final(self).same_setup(old(self)),
            final(self).spec_iteration() <= final(self).spec_num_nodes(),
            final(self).spec_iteration() == final(self).spec_num_nodes()
                || (final(self).spec_iteration() > 0 && final(self).spec_modified_counters() == 0),
            exists|start: Self|
                start.wf() && start.same_setup(old(self)) && start.is_initial() && #[trigger] start.ran(
                    final(self),
                    final(self).spec_iteration(),
                ) && (old(self).transposed_ok() ==> final(self).holds_level(
                    start.register_table(),
                    final(self).spec_iteration(),
                )),
            final(self).coherent(),
    {
        proof {
            self.graph.lemma_wf();
        }
        self.run_until_stable(usize::MAX);
    }
}

/// Why `build` refuses the settings of a builder, or `None` where it builds.
pub open spec fn hyperball_build_error(builder: HyperBallBuilder<'_>) -> Option<HyperBallError> {
    let n = builder.graph@.len();
    if builder.rev_graph matches Some(t) && (t@.len() != n || arc_count(t@) != arc_count(
        builder.graph@,
    )) {
        Some(HyperBallError::MismatchedTranspose)
    } else if builder.weights matches Some(w) && w@.len() != n {
        Some(HyperBallError::MismatchedWeights)
    } else if !builder.cumulative_outdegree.is_for(builder.graph@) {
        Some(HyperBallError::MismatchedCumulativeOutdegree)
    } else {
        match build_error(
            builder.hyper_log_log_settings.spec_log_2_num_registers(),
            builder.hyper_log_log_settings.spec_num_elements(),
            n,
        ) {
            Some(e) => Some(HyperBallError::Counters(e)),
            None => None,
        }
    }
}

impl<'a> HyperBallBuilder<'a> {
    /// Builds the state for the graph of the builder.
    ///
    /// Fails where the transposed graph differs from the graph in the number
    /// of nodes or of arcs, where there is not one weight per node, where the
    /// cumulative out-degrees are not those of the graph, and where the
    /// arrays of counters cannot be built.
    pub fn build(self) -> (res: Result<HyperBall<'a>, HyperBallError>)
        requires
            self.graph.wf(),
            self.rev_graph matches Some(t) ==> t.wf(),
        ensures
            match res {
                Ok(hyperball) => {
                    &&& hyperball_build_error(self) is None
                    &&& hyperball.wf()
                    &&& hyperball.adjacency() == self.graph@
                    &&& hyperball.transposed_adjacency() == (match self.rev_graph {
                        Some(t) => Some(t@),
                        None => None,
                    })
                    &&& hyperball.has_weights() == self.weights is Some
                    &&& hyperball.spec_weights() == (match self.weights {
                        Some(w) => w@,
                        None => Seq::empty(),
                    })
                    &&& hyperball.spec_num_threads() == (if self.num_threads == 0 {
                        1
                    } else {
                        self.num_threads as nat
                    })
                    &&& hyperball.spec_granularity() == (if round_up_to_word(
                        self.granularity as nat,
                    ) <= usize::MAX {
                        round_up_to_word(self.granularity as nat)
                    } else {
                        usize::MAX as nat
                    })
                    &&& hyperball.spec_log_2_num_registers()
                        == self.hyper_log_log_settings.spec_log_2_num_registers()
                    &&& hyperball.spec_iteration() == 0
                    &&& hyperball.spec_modified_counters() == 0
                },
                Err(e) => hyperball_build_error(self) == Some(e),
            },
    {
        let graph: &Graph = self.graph;
        let n: usize = graph.num_nodes();
        match self.rev_graph {
            Some(t) => {
                if t.num_nodes() != n || t.num_arcs() != graph.num_arcs() {
                    return Err(HyperBallError::MismatchedTranspose);
                }
            },
            None => {},
        }
        match self.weights {
            Some(w) => {
                if w.len() != n {
                    return Err(HyperBallError::MismatchedWeights);
                }
            },
            None => {},
        }
        if !self.cumulative_outdegree.is_for_graph(graph) {
            return Err(HyperBallError::MismatchedCumulativeOutdegree);
        }
        let bits = match self.hyper_log_log_settings.build(n) {
            Ok(array) => array,
            Err(e) => {
                return Err(HyperBallError::Counters(e));
            },
        };
        let result_bits = match self.hyper_log_log_settings.build(n) {
            Ok(array) => array,
            Err(e) => {
                return Err(HyperBallError::Counters(e));
            },
        };
        let rounded: u128 = (self.granularity as u128 + 63) / 64 * 64;
        let granularity: usize = if rounded <= usize::MAX as u128 {
            rounded as usize
        } else {
            usize::MAX
        };
        let hyperball = HyperBall {
            graph,
            rev_graph: self.rev_graph,
            cumulative_outdegree: self.cumulative_outdegree,
            weight: self.weights,
            granularity,
            num_threads: if self.num_threads == 0 {
                1
            } else {
                self.num_threads
            },
            bits,
            result_bits,
            iteration: 0,
            systolic: false,
            local: false,
            pre_local: false,
            modified_counter: Marks::new(n),
            modified_result_counter: Marks::new(n),
            local_checklist: Vec::new(),
            local_next_must_be_checked: Vec::new(),
            must_be_checked: Marks::new(n),
            next_must_be_checked: Marks::new(n),
            iteration_context: IterationContext::new(),
        };
        Ok(hyperball)
    }
}

/// `rand::random`: a value drawn by the generator of the running thread.
/// Nothing is promised of the value.
#[verifier::external_body]
fn random_element() -> usize {
    rand::random::<u64>() as usize
}

/// `ParallelSliceMut::par_sort_unstable` of rayon, which sorts a slice in
/// place on the threads of the pool: afterwards the vector holds the
/// elements it held, each as often as before, in ascending order.
#[verifier::external_body]
fn par_sort_unstable(list: &mut Vec<usize>)
    ensures
        final(list)@.to_multiset() == old(list)@.to_multiset(),
        forall|i: int, j: int| 0 <= i <= j < final(list)@.len() ==> final(list)@[i] <= final(list)@[j],
{
    rayon::slice::ParallelSliceMut::par_sort_unstable(list.as_mut_slice());
}

/// The elements of `list`, each once, in ascending order.
pub fn sorted_without_repeats(list: Vec<usize>) -> (res: Vec<usize>)
    ensures
        strictly_ascending(res@),
        forall|x: int|
            occurs_before(res@, res@.len() as int, x) <==> occurs_before(
                list@,
                list@.len() as int,
                x,
            ),
{
    let mut sorted = list;
    par_sort_unstable(&mut sorted);
    proof {
        sorted@.to_multiset_ensures();
        list@.to_multiset_ensures();
        assert forall|x: int|
            occurs_before(sorted@, sorted@.len() as int, x) <==> occurs_before(
                list@,
                list@.len() as int,
                x,
            ) by {
            if occurs_before(sorted@, sorted@.len() as int, x) {
                let j = choose|j: int| 0 <= j < sorted@.len() && #[trigger] sorted@[j] == x;
                assert(sorted@.contains(sorted@[j]));
                assert(sorted@.to_multiset().count(sorted@[j]) > 0);
                assert(list@.to_multiset().count(sorted@[j]) > 0);
                assert(list@.contains(sorted@[j]));
                let k = choose|k: int| 0 <= k < list@.len() && list@[k] == sorted@[j];
                assert(list@[k] == x);
            }
            if occurs_before(list@, list@.len() as int, x) {
                let j = choose|j: int| 0 <= j < list@.len() && #[trigger] list@[j] == x;
                assert(list@.contains(list@[j]));
                assert(list@.to_multiset().count(list@[j]) > 0);
                assert(sorted@.to_multiset().count(list@[j]) > 0);
                assert(sorted@.contains(list@[j]));
                let k = choose|k: int| 0 <= k < sorted@.len() && sorted@[k] == list@[j];
                assert(sorted@[k] == x);
            }
        }
    }
    let mut res: Vec<usize> = Vec::new();
    let mut i: usize = 0;
    while i < sorted.len()
        invariant
            i <= sorted@.len(),
            forall|a: int, b: int| 0 <= a <= b < sorted@.len() ==> sorted@[a] <= sorted@[b],
            strictly_ascending(res@),
            res@.len() <= i,
            res@.len() > 0 ==> i > 0 && res@[res@.len() - 1] == sorted@[i - 1],
            i > 0 ==> res@.len() > 0,
            forall|x: int|
                #![trigger occurs_before(res@, res@.len() as int, x)]
                #![trigger occurs_before(sorted@, i as int, x)]
                occurs_before(res@, res@.len() as int, x) <==> occurs_before(sorted@, i as int, x),
        decreases sorted@.len() - i,
    {
        let value: usize = sorted[i];
        let ghost before = res@;
        let fresh: bool = res.len() == 0 || res[res.len() - 1] != value;
        if fresh {
            res.push(value);
        }
        proof {
            assert forall|x: int|
                occurs_before(res@, res@.len() as int, x) <==> occurs_before(
                    sorted@,
                    i + 1,
                    x,
                ) by {
                if occurs_before(res@, res@.len() as int, x) {
                    let j = choose|j: int| 0 <= j < res@.len() && #[trigger] res@[j] == x;
                    if j < before.len() {
                        assert(before[j] == x);
                        assert(occurs_before(before, before.len() as int, x));
                        assert(occurs_before(sorted@, i as int, x));
                        let k = choose|k: int| 0 <= k < i && #[trigger] sorted@[k] == x;
                        assert(0 <= k < i + 1);
                    } else {
                        assert(sorted@[i as int] == x);
                    }
                }
                if occurs_before(sorted@, i + 1, x) {
                    let k = choose|k: int| 0 <= k < i + 1 && #[trigger] sorted@[k] == x;
                    if k < i {
                        assert(occurs_before(sorted@, i as int, x));
                        assert(occurs_before(before, before.len() as int, x));
                        let j = choose|j: int| 0 <= j < before.len() && #[trigger] before[j] == x;
                        assert(res@[j] == x);
                    } else {
                        if fresh {
                            assert(res@[res@.len() - 1] == x);
                        } else {
                            assert(res@[res@.len() - 1] == x);
                        }
                    }
                }
            }
            if fresh && before.len() > 0 {
                assert(before[before.len() - 1] == sorted@[i - 1]);
                assert(sorted@[i - 1] <= sorted@[i as int]);
                assert forall|a: int, b: int| 0 <= a < b < res@.len() implies res@[a] < res@[b] by {
                    if b == res@.len() - 1 {
                        if a < before.len() - 1 {
                            assert(before[a] < before[before.len() - 1]);
                        }
                    } else {
                        assert(before[a] < before[b]);
                    }
                }
            }
        }
        i += 1;
    }
    res
}

/// The number of arcs that a task aims at, for `m` arcs, `g` nodes per task
/// and `n` nodes: `m * g / n` rounded up, at least 1 and at most
/// `usize::MAX`.
pub open spec fn arcs_per_task_rule(m: nat, g: nat, n: nat) -> nat {
    let arcs = (m * g + (n - 1)) / (n as int);
    if arcs < 1 {
        1
    } else if arcs > usize::MAX {
        usize::MAX as nat
    } else {
        arcs as nat
    }
}

/// `end` is where a task ends that starts at node `start` and aims at
/// `arcs` arcs: the first position whose cumulative out-degree exceeds that
/// of `start` by `arcs` or more, and the last position where the arcs run
/// out before.
pub open spec fn is_balanced_end(cumulative: Seq<usize>, start: int, end: int, arcs: nat) -> bool {
    let target = cumulative[start] + arcs;
    let last = cumulative.len() - 1;
    if target >= cumulative[last] {
        end == last
    } else {
        &&& cumulative[end] >= target
        &&& forall|i: int| 0 <= i < end ==> cumulative[i] < target
    }
}

/// A diffusion in which no merge changed a word leaves the counter as it
/// was.
pub proof fn lemma_unchanged_diffusion(
    successors: Seq<usize>,
    current: Seq<Seq<u64>>,
    modified: Seq<bool>,
    r: nat,
    u: int,
    k: int,
)
    requires
        !diffusion_changed(successors, current, modified, r, u, k),
    ensures
        diffused(successors, current, modified, r, u, k) == current[u],
    decreases k,
{
    if k > 0 {
        lemma_unchanged_diffusion(successors, current, modified, r, u, k - 1);
    }
}

/// The counters have `w` words each, which hold `m` registers of `r` bits
/// in whole blocks.
pub open spec fn counters_shaped(current: Seq<Seq<u64>>, r: nat, m: nat, w: nat) -> bool {
    &&& valid_register_size(r)
    &&& w % (block_words(r) as nat) == 0
    &&& m * r == 64 * w
    &&& forall|v: int| 0 <= v < current.len() ==> (#[trigger] current[v]).len() == w
}

/// A diffusion lowers no register of the counter.
pub proof fn lemma_diffusion_never_lowers(
    successors: Seq<usize>,
    current: Seq<Seq<u64>>,
    modified: Seq<bool>,
    r: nat,
    m: nat,
    w: nat,
    u: int,
    k: int,
    j: int,
)
    requires
        counters_shaped(current, r, m, w),
        forall|i: int| 0 <= i < successors.len() ==> (#[trigger] successors[i]) < current.len(),
        0 <= u < current.len(),
        0 <= k <= successors.len(),
        0 <= j < m,
    ensures
        diffused(successors, current, modified, r, u, k).len() == w,
        registers_of(diffused(successors, current, modified, r, u, k), r, m)[j] >= registers_of(
            current[u],
            r,
            m,
        )[j],
    decreases k,
{
    if k > 0 {
        lemma_diffusion_never_lowers(successors, current, modified, r, m, w, u, k - 1, j);
        let before = diffused(successors, current, modified, r, u, k - 1);
        let v = successors[k - 1] as int;
        if v != u && modified[v] {
            assert(current[v].len() == w);
            assert(merged_words(before, current[v], r).len() == w) by {
                reveal(merged_words);
            }
            lemma_merge_registers(before, current[v], r, m);
        }
    }
}

impl<'a> HyperBall<'a> {
    /// The two arrays agree on the counter of every node but where the last
    /// iteration changed it; and where a local iteration follows, such a
    /// node is on the list for it.
    pub open spec fn coherent(&self) -> bool {
        forall|u: int|
            0 <= u < self.spec_num_nodes() && (#[trigger] self.current()[u]) != self.result()[u]
                ==> self.modified_current()[u] && (self.spec_pre_local() ==> occurs_before(
                self.spec_local_next(),
                self.spec_local_next().len() as int,
                u,
            ))
    }

    /// The shape of the counters.
    proof fn lemma_shape(&self)
        requires
            self.wf(),
        ensures
            counters_shaped(
                self.current(),
                self.spec_register_size(),
                self.spec_num_registers(),
                self.bits.spec_words_per_counter(),
            ),
            self.current().len() == self.spec_num_nodes(),
            self.result().len() == self.spec_num_nodes(),
            self.modified_current().len() == self.spec_num_nodes(),
            self.spec_num_nodes() < usize::MAX,
            successors_in_range(self.adjacency()),
            forall|u: int|
                0 <= u < self.spec_num_nodes() ==> #[trigger] self.current_registers(u) == registers_of(
                    self.current()[u],
                    self.spec_register_size(),
                    self.spec_num_registers(),
                ),
    {
        self.bits.lemma_sizes();
        self.graph.lemma_wf();
        let w = self.bits.spec_words_per_counter() as int;
        let n = self.graph@.len() as int;
        assert forall|v: int| 0 <= v < self.current().len() implies (#[trigger] self.current()[v]).len()
            == w by {
            assert(v * w + w <= n * w) by (nonlinear_arith)
                requires
                    0 <= v < n,
                    0 <= w,
            ;
            assert(0 <= v * w) by (nonlinear_arith)
                requires
                    0 <= v,
                    0 <= w,
            ;
        }
    }

    /// What the tasks at the first `pos` positions add to the list for the
    /// local iteration holds what the task at every one of these positions
    /// adds.
    proof fn lemma_gathered(&self, pos: int, i: int, x: int)
        requires
            0 <= i < pos,
            occurs_before(
                self.node_local_next(self.position_node(i)),
                self.node_local_next(self.position_node(i)).len() as int,
                x,
            ),
        ensures
            occurs_before(self.gathered_before(pos), self.gathered_before(pos).len() as int, x),
        decreases pos,
    {
        let head = self.gathered_before(pos - 1);
        let tail = self.node_local_next(self.position_node(pos - 1));
        if i == pos - 1 {
            let k = choose|k: int| 0 <= k < tail.len() && #[trigger] tail[k] == x;
            assert((head + tail)[head.len() + k] == x);
        } else {
            self.lemma_gathered(pos - 1, i, x);
            let k = choose|k: int| 0 <= k < head.len() && #[trigger] head[k] == x;
            assert((head + tail)[k] == x);
        }
    }

    /// The state before the first iteration is coherent.
    pub proof fn lemma_initial_coherent(&self)
        requires
            self.wf(),
            self.is_initial(),
        ensures
            self.coherent(),
    {
    }

    /// What an iteration makes of the counter of a node: where the node is
    /// worked on and its counter changes, what the merges make of it, and
    /// else the counter as it was.
    proof fn lemma_iteration_at(&self, ready: &Self, done: &Self, now: &Self, u: int)
        requires
            self.wf(),
            self.coherent(),
            self.prepares(ready),
            ready.tasks_done(done, ready.num_positions()),
            done.finishes(now),
            0 <= u < self.spec_num_nodes(),
        ensures
            now.result()[u] == self.current()[u],
            now.current()[u] == self.current()[u] || (now.current()[u] == ready.node_diffused(u)
                && ready.node_changed(u) && now.modified_current()[u] && (now.spec_pre_local()
                ==> occurs_before(now.spec_local_next(), now.spec_local_next().len() as int, u))),
            ready.adjacency() == self.adjacency(),
            ready.current() == self.current(),
            ready.modified_current() == self.modified_current(),
            ready.spec_register_size() == self.spec_register_size(),
    {
        self.lemma_shape();
        let n = self.spec_num_nodes() as int;
        let positions = ready.num_positions();
        assert(now.current()[u] == done.result()[u]);
        assert(self.current()[u] != self.result()[u] ==> self.modified_current()[u] && (
        self.spec_pre_local() ==> occurs_before(
            self.spec_local_next(),
            self.spec_local_next().len() as int,
            u,
        )));
        if ready.scanned_before(u, positions) {
            if ready.node_checked(u) {
                if ready.node_changed(u) {
                    // the node is at one of the positions
                    let i = if ready.spec_local() {
                        choose|i: int|
                            0 <= i < positions && #[trigger] ready.spec_local_checklist()[i] == u
                    } else {
                        u
                    };
                    assert(ready.position_node(i) == u);
                    if ready.spec_pre_local() {
                        let added = ready.node_local_next(u);
                        assert(seq![u as usize][0] == u);
                        assert(added.len() > 0 && added[0] == u as usize);
                        ready.lemma_gathered(positions, i, u);
                        let gathered = ready.gathered_before(positions);
                        let k = choose|k: int| 0 <= k < gathered.len() && #[trigger] gathered[k] == u;
                        assert((ready.spec_local_next() + gathered)[ready.spec_local_next().len() + k]
                            == u);
                    }
                } else {
                    lemma_unchanged_diffusion(
                        ready.adjacency()[u],
                        ready.current(),
                        ready.modified_current(),
                        ready.spec_register_size(),
                        u,
                        ready.adjacency()[u].len() as int,
                    );
                }
            }
        } else {
            // a local iteration, and the node is not on its list
            assert(ready.spec_local());
            if self.current()[u] != self.result()[u] {
                assert(occurs_before(
                    self.spec_local_next(),
                    self.spec_local_next().len() as int,
                    u,
                ));
                assert(occurs_before(
                    ready.spec_local_checklist(),
                    ready.spec_local_checklist().len() as int,
                    u,
                ));
            }
        }
    }

    /// An iteration of a coherent state leaves a coherent state.
    pub proof fn lemma_iteration_coherent(&self, now: &Self)
        requires
            self.wf(),
            self.coherent(),
            self.iterated(now),
            now.spec_num_nodes() == self.spec_num_nodes(),
        ensures
            now.coherent(),
    {
        let (ready, done) = choose|ready: Self, done: Self|
            {
                &&& #[trigger] self.prepares(&ready)
                &&& ready.tasks_done(&done, ready.num_positions())
                &&& #[trigger] done.finishes(now)
            };
        assert forall|u: int|
            0 <= u < now.spec_num_nodes() && (#[trigger] now.current()[u])
                != now.result()[u] implies now.modified_current()[u] && (now.spec_pre_local()
            ==> occurs_before(now.spec_local_next(), now.spec_local_next().len() as int, u)) by {
            self.lemma_iteration_at(&ready, &done, now, u);
        }
    }

    /// An iteration of a coherent state lowers no register of a counter.
    pub proof fn lemma_registers_never_fall(&self, now: &Self, u: int, j: int)
        requires
            self.wf(),
            self.coherent(),
            self.iterated(now),
            0 <= u < self.spec_num_nodes(),
            0 <= j < self.spec_num_registers(),
        ensures
            registers_of(now.current()[u], self.spec_register_size(), self.spec_num_registers())[j]
                >= registers_of(
                self.current()[u],
                self.spec_register_size(),
                self.spec_num_registers(),
            )[j],
    {
        let (ready, done) = choose|ready: Self, done: Self|
            {
                &&& #[trigger] self.prepares(&ready)
                &&& ready.tasks_done(&done, ready.num_positions())
                &&& #[trigger] done.finishes(now)
            };
        self.lemma_iteration_at(&ready, &done, now, u);
        self.lemma_shape();
        if now.current()[u] != self.current()[u] {
            assert(self.adjacency()[u].len() >= 0);
            assert forall|i: int| 0 <= i < self.adjacency()[u].len() implies (
            #[trigger] self.adjacency()[u][i]) < self.current().len() by {}
            lemma_diffusion_never_lowers(
                self.adjacency()[u],
                self.current(),
                self.modified_current(),
                self.spec_register_size(),
                self.spec_num_registers(),
                self.bits.spec_words_per_counter(),
                u,
                self.adjacency()[u].len() as int,
                j,
            );
        }
    }
}

/// The registers of a diffusion are the registers of the node merged with
/// the registers of its successors, where the successors that the
/// diffusion leaves out have no register above the node's.
pub proof fn lemma_diffusion_is_spread(
    successors: Seq<usize>,
    current: Seq<Seq<u64>>,
    modified: Seq<bool>,
    r: nat,
    m: nat,
    w: nat,
    table: Seq<Seq<u64>>,
    u: int,
    k: int,
)
    requires
        counters_shaped(current, r, m, w),
        table.len() == current.len(),
        forall|v: int| 0 <= v < current.len() ==> #[trigger] table[v] == registers_of(current[v], r, m),
        forall|i: int| 0 <= i < successors.len() ==> (#[trigger] successors[i]) < current.len(),
        0 <= u < current.len(),
        0 <= k <= successors.len(),
        forall|i: int|
            0 <= i < successors.len() && !modified[(#[trigger] successors[i]) as int] ==> below(
                table[successors[i] as int],
                table[u],
            ),
    ensures
        diffused(successors, current, modified, r, u, k).len() == w,
        registers_of(diffused(successors, current, modified, r, u, k), r, m) == spread(
            successors,
            table,
            u,
            k,
        ),
        below(table[u], spread(successors, table, u, k)),
    decreases k,
{
    assert(table[u] == registers_of(current[u], r, m));
    if k > 0 {
        lemma_diffusion_is_spread(successors, current, modified, r, m, w, table, u, k - 1);
        let before = diffused(successors, current, modified, r, u, k - 1);
        let v = successors[k - 1] as int;
        assert(successors[k - 1] < current.len());
        assert(current[v].len() == w);
        assert(table[v] == registers_of(current[v], r, m));
        let so_far = spread(successors, table, u, k - 1);
        if v != u && modified[v] {
            assert(merged_words(before, current[v], r).len() == w) by {
                reveal(merged_words);
            }
            lemma_merge_registers(before, current[v], r, m);
        } else {
            if v != u {
                assert(below(table[successors[k - 1] as int], table[u]));
            }
            lemma_below_twice(table[v], table[u], so_far);
            lemma_merge_below(so_far, table[v]);
        }
    }
}

impl<'a> HyperBall<'a> {
    /// The transposed graph, where there is one, holds every arc of the
    /// graph turned round.
    pub open spec fn transposed_ok(&self) -> bool {
        self.transposed_adjacency() matches Some(radj) ==> crate::graph::holds_reversed(
            self.adjacency(),
            radj,
        )
    }

    /// The last iteration has changed the counter of node `u` and has left
    /// its marks: the counter is marked as changed; after a systolic
    /// iteration that prepares no local one the predecessors of `u` are
    /// marked for the next; and where a local iteration follows, `u` and its
    /// predecessors are on the list for it.
    pub open spec fn marked_changed(&self, u: int) -> bool {
        &&& self.modified_current()[u]
        &&& (self.spec_systolic() && !self.spec_pre_local()) ==> forall|i: int|
            0 <= i < self.predecessors(u).len() ==> self.spec_must_be_checked()[(
            #[trigger] self.predecessors(u)[i]) as int]
        &&& self.spec_pre_local() ==> occurs_before(
            self.spec_local_next(),
            self.spec_local_next().len() as int,
            u,
        ) && forall|i: int|
            0 <= i < self.predecessors(u).len() ==> occurs_before(
                self.spec_local_next(),
                self.spec_local_next().len() as int,
                (#[trigger] self.predecessors(u)[i]) as int,
            )
    }

    /// The current counters hold the registers of level `t` from the
    /// registers `start`, and the counters that differ from level `t - 1`
    /// have left their marks.
    pub open spec fn holds_level(&self, start: Seq<Seq<u64>>, t: nat) -> bool {
        let n = self.spec_num_nodes();
        let adj = self.adjacency();
        &&& self.spec_iteration() == t
        &&& table_shaped(adj, start, self.spec_num_registers())
        &&& self.spec_pre_local() ==> self.spec_systolic()
        &&& self.spec_systolic() ==> self.transposed_adjacency() is Some && t >= 1
        &&& forall|u: int|
            0 <= u < n ==> registers_of(
                #[trigger] self.current()[u],
                self.spec_register_size(),
                self.spec_num_registers(),
            ) == level(adj, start, t)[u]
        &&& t == 0 ==> forall|u: int| 0 <= u < n ==> #[trigger] self.modified_current()[u]
        &&& t >= 1 ==> forall|u: int|
            0 <= u < n && level(adj, start, t)[u] != level(adj, start, (t - 1) as nat)[u]
                ==> #[trigger] self.marked_changed(u)
    }

    /// A state before the first iteration holds level 0 from its own
    /// registers.
    pub proof fn lemma_initial_level(&self)
        requires
            self.wf(),
            self.is_initial(),
        ensures
            self.holds_level(
                Seq::new(
                    self.spec_num_nodes(),
                    |u: int|
                        registers_of(
                            self.current()[u],
                            self.spec_register_size(),
                            self.spec_num_registers(),
                        ),
                ),
                0,
            ),
    {
        self.lemma_shape();
        let start = Seq::new(
            self.spec_num_nodes(),
            |u: int|
                registers_of(self.current()[u], self.spec_register_size(), self.spec_num_registers()),
        );
        assert forall|u: int| 0 <= u < self.spec_num_nodes() implies registers_of(
            #[trigger] self.current()[u],
            self.spec_register_size(),
            self.spec_num_registers(),
        ) == level(self.adjacency(), start, 0)[u] by {}
    }

    /// The successors of node `u` that the last iteration has left as they
    /// were at level `t - 1` have no register above those of `u` at level
    /// `t`.
    proof fn lemma_rested_below(&self, start: Seq<Seq<u64>>, t: nat, u: int, i: int)
        requires
            self.wf(),
            self.holds_level(start, t),
            0 <= u < self.spec_num_nodes(),
            0 <= i < self.adjacency()[u].len(),
            !self.modified_current()[self.adjacency()[u][i] as int],
        ensures
            below(
                level(self.adjacency(), start, t)[self.adjacency()[u][i] as int],
                level(self.adjacency(), start, t)[u],
            ),
    {
        self.lemma_shape();
        let adj = self.adjacency();
        let v = adj[u][i] as int;
        assert(adj[u][i] < adj.len());
        assert(t >= 1) by {
            if t == 0 {
                assert(self.modified_current()[v]);
            }
        }
        if level(adj, start, t)[v] != level(adj, start, (t - 1) as nat)[v] {
            assert(self.marked_changed(v));
        }
        lemma_level_grows(adj, start, self.spec_num_registers(), (t - 1) as nat, u, i);
    }
}

impl<'a> HyperBall<'a> {
    /// The predecessors of a node are nodes, and a node is among the
    /// predecessors of its successors.
    proof fn lemma_predecessors(&self, u: int, i: int)
        requires
            self.wf(),
            self.transposed_ok(),
            self.transposed_adjacency() is Some,
            0 <= u < self.spec_num_nodes(),
        ensures
            0 <= i < self.predecessors(u).len() ==> self.predecessors(u)[i] < self.spec_num_nodes(),
            0 <= i < self.adjacency()[u].len() ==> occurs_before(
                self.predecessors(self.adjacency()[u][i] as int),
                self.predecessors(self.adjacency()[u][i] as int).len() as int,
                u,
            ),
    {
        self.lemma_shape();
        match self.rev_graph {
            Some(t) => {
                t.lemma_wf();
                let radj = t@;
                if 0 <= i < radj[u].len() {
                    assert(radj[u][i] < radj.len());
                }
                if 0 <= i < self.adjacency()[u].len() {
                    let v = self.adjacency()[u][i] as int;
                    assert(crate::graph::has_arc(radj, self.adjacency()[u][i] as int, u));
                    let k = choose|k: int| 0 <= k < radj[v].len() && #[trigger] radj[v][k] == u;
                    assert(self.predecessors(v)[k] == u);
                }
            },
            None => {},
        }
    }

    /// What an iteration makes of the counter of a node, level by level.
    proof fn lemma_level_at(
        &self,
        ready: &Self,
        done: &Self,
        now: &Self,
        start: Seq<Seq<u64>>,
        t: nat,
        u: int,
    )
        requires
            self.wf(),
            self.coherent(),
            self.transposed_ok(),
            self.holds_level(start, t),
            self.prepares(ready),
            ready.tasks_done(done, ready.num_positions()),
            done.finishes(now),
            0 <= u < self.spec_num_nodes(),
        ensures
            registers_of(now.current()[u], self.spec_register_size(), self.spec_num_registers())
                == level(self.adjacency(), start, t + 1)[u],
            level(self.adjacency(), start, t + 1)[u] != level(self.adjacency(), start, t)[u]
                ==> now.marked_changed(u),
    {
        self.lemma_shape();
        self.lemma_iteration_at(ready, done, now, u);
        let adj = self.adjacency();
        let n = self.spec_num_nodes() as int;
        let r = self.spec_register_size();
        let m = self.spec_num_registers();
        let w = self.bits.spec_words_per_counter();
        let cur = self.current();
        let mc = self.modified_current();
        let here = level(adj, start, t);
        let next = level(adj, start, t + 1);
        let positions = ready.num_positions();
        lemma_level_shaped(adj, start, m, t);
        assert(next[u] == spread(adj[u], here, u, adj[u].len() as int));
        assert(registers_of(cur[u], r, m) == here[u]);
        assert(self.current()[u] != self.result()[u] ==> self.modified_current()[u] && (
        self.spec_pre_local() ==> occurs_before(
            self.spec_local_next(),
            self.spec_local_next().len() as int,
            u,
        )));
        if ready.scanned_before(u, positions) && ready.node_checked(u) {
            assert forall|i: int| 0 <= i < adj[u].len() && !mc[(#[trigger] adj[u][i]) as int] implies below(
                here[adj[u][i] as int],
                here[u],
            ) by {
                self.lemma_rested_below(start, t, u, i);
            }
            assert forall|v: int| 0 <= v < cur.len() implies #[trigger] here[v] == registers_of(
                cur[v],
                r,
                m,
            ) by {
                assert(registers_of(self.current()[v], r, m) == here[v]);
            }
            assert forall|i: int| 0 <= i < adj[u].len() implies (#[trigger] adj[u][i]) < cur.len() by {}
            lemma_diffusion_is_spread(adj[u], cur, mc, r, m, w, here, u, adj[u].len() as int);
            if !(ready.node_changed(u) || mc[u]) {
                lemma_unchanged_diffusion(adj[u], cur, mc, r, u, adj[u].len() as int);
            }
            assert(registers_of(now.current()[u], r, m) == next[u]);
            if next[u] != here[u] {
                assert(now.current()[u] != cur[u]);
                assert(ready.node_changed(u));
                let p = if ready.spec_local() {
                    choose|i: int| 0 <= i < positions && #[trigger] ready.spec_local_checklist()[i] == u
                } else {
                    u
                };
                assert(ready.position_node(p) == u);
                let preds = ready.predecessors(u);
                assert(preds == self.predecessors(u));
                assert(now.predecessors(u) == preds);
                if ready.spec_systolic() {
                    assert forall|i: int| 0 <= i < preds.len() implies (#[trigger] preds[i]) < n by {
                        self.lemma_predecessors(u, i);
                    }
                }
                if ready.spec_systolic() && !ready.spec_pre_local() {
                    assert forall|i: int| 0 <= i < preds.len() implies now.spec_must_be_checked()[(
                    #[trigger] preds[i]) as int] by {
                        let v = preds[i] as int;
                        assert(ready.node_marks(ready.position_node(p), v));
                        assert(ready.marked_before(v, positions));
                        assert(done.spec_next_must_be_checked()[v]);
                    }
                }
                if ready.spec_pre_local() {
                    let added = ready.node_local_next(u);
                    assert(added == seq![u as usize] + preds);
                    let gathered = ready.gathered_before(positions);
                    assert forall|i: int| 0 <= i < preds.len() implies occurs_before(
                        now.spec_local_next(),
                        now.spec_local_next().len() as int,
                        (#[trigger] preds[i]) as int,
                    ) by {
                        let v = preds[i] as int;
                        assert(added[1 + i] == preds[i]);
                        ready.lemma_gathered(positions, p, v);
                        let k = choose|k: int| 0 <= k < gathered.len() && #[trigger] gathered[k] == v;
                        assert((ready.spec_local_next() + gathered)[ready.spec_local_next().len() + k]
                            == v);
                    }
                }
            }
        } else {
            // the counter stays as it is, and so does its level
            if !ready.scanned_before(u, positions) {
                assert(ready.spec_local());
                if self.current()[u] != self.result()[u] {
                    assert(occurs_before(
                        self.spec_local_next(),
                        self.spec_local_next().len() as int,
                        u,
                    ));
                    assert(occurs_before(
                        ready.spec_local_checklist(),
                        ready.spec_local_checklist().len() as int,
                        u,
                    ));
                }
            }
            assert(now.current()[u] == cur[u]);
            assert(t >= 1);
            assert(self.transposed_adjacency() is Some);
            assert forall|i: int| 0 <= i < adj[u].len() implies here[(#[trigger] adj[u][i]) as int]
                == level(adj, start, (t - 1) as nat)[adj[u][i] as int] by {
                let v = adj[u][i] as int;
                assert(adj[u][i] < n);
                if here[v] != level(adj, start, (t - 1) as nat)[v] {
                    assert(self.marked_changed(v));
                    self.lemma_predecessors(u, i);
                    let k = choose|k: int|
                        0 <= k < self.predecessors(v).len() && #[trigger] self.predecessors(v)[k]
                            == u;
                    if ready.scanned_before(u, positions) {
                        // a systolic iteration does not look at the node
                        assert(ready.spec_systolic() && !ready.spec_local());
                        assert(!ready.spec_must_be_checked()[u]);
                        assert(self.spec_must_be_checked()[self.predecessors(v)[k] as int]);
                        assert(false);
                    } else {
                        assert(occurs_before(
                            self.spec_local_next(),
                            self.spec_local_next().len() as int,
                            self.predecessors(v)[k] as int,
                        ));
                        assert(occurs_before(
                            ready.spec_local_checklist(),
                            ready.spec_local_checklist().len() as int,
                            u,
                        ));
                        assert(false);
                    }
                }
            }
            lemma_level_rests(adj, start, m, t, u);
        }
    }

    /// An iteration leads from one level to the next: where the current
    /// counters held the registers of level `t`, they hold those of level
    /// `t + 1` afterwards.
    pub proof fn lemma_iteration_level(&self, now: &Self, start: Seq<Seq<u64>>, t: nat)
        requires
            self.wf(),
            self.coherent(),
            self.transposed_ok(),
            self.holds_level(start, t),
            self.iterated(now),
        ensures
            now.holds_level(start, t + 1),
            now.transposed_ok(),
    {
        let (ready, done) = choose|ready: Self, done: Self|
            {
                &&& #[trigger] self.prepares(&ready)
                &&& ready.tasks_done(&done, ready.num_positions())
                &&& #[trigger] done.finishes(now)
            };
        let adj = self.adjacency();
        assert(now.adjacency() == adj);
        assert forall|u: int| 0 <= u < now.spec_num_nodes() implies registers_of(
            #[trigger] now.current()[u],
            now.spec_register_size(),
            now.spec_num_registers(),
        ) == level(adj, start, t + 1)[u] by {
            self.lemma_level_at(&ready, &done, now, start, t, u);
        }
        assert forall|u: int|
            0 <= u < now.spec_num_nodes() && level(adj, start, t + 1)[u] != level(
                adj,
                start,
                t,
            )[u] implies #[trigger] now.marked_changed(u) by {
            self.lemma_level_at(&ready, &done, now, start, t, u);
        }
    }
}

impl<'a> HyperBall<'a> {
    /// The registers of the current counter of every node.
    pub open spec fn register_table(&self) -> Seq<Seq<u64>> {
        Seq::new(
            self.spec_num_nodes(),
            |u: int|
                registers_of(self.current()[u], self.spec_register_size(), self.spec_num_registers()),
        )
    }

    /// After `count` iterations from a state before the first, the current
    /// counters hold the registers of level `count` from the registers of
    /// that state, and the state is coherent.
    pub proof fn lemma_ran_level(&self, now: &Self, count: nat)
        requires
            self.wf(),
            self.is_initial(),
            self.transposed_ok(),
            self.ran(now, count),
        ensures
            now.holds_level(self.register_table(), count),
            now.coherent(),
            now.transposed_ok(),
        decreases count,
    {
        if count == 0 {
            self.lemma_initial_level();
            self.lemma_initial_coherent();
        } else {
            let mid = choose|mid: Self|
                mid.wf() && self.ran(&mid, (count - 1) as nat) && (count == 1
                    || mid.spec_modified_counters() != 0) && #[trigger] mid.iterated(now);
            self.lemma_ran_level(&mid, (count - 1) as nat);
            mid.lemma_iteration_coherent(now);
            mid.lemma_iteration_level(now, self.register_table(), (count - 1) as nat);
        }
    }
}

} // verus!
