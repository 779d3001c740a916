//! The cumulative out-degrees of a graph, with a search for the first node
//! at which a given number of arcs is reached.
use crate::graph::{
    arc_count, arcs_before, lemma_arcs_before_monotone, lemma_arcs_before_step, Graph,
};
use crate::utils::successors::{
    count_values, finish, limits_of, new_builder, push_value, successor, taken_by, value_at,
    values_of, SuccessorList,
};
use vstd::prelude::*;

verus! {

/// For every node, and for the number of nodes itself, the number of arcs
/// that leave the nodes before it.
pub struct CumulativeOutdegree {
    list: SuccessorList,
}

impl View for CumulativeOutdegree {
    type V = Seq<usize>;

    closed spec fn view(&self) -> Seq<usize> {
        values_of(self.list)
    }
}

impl CumulativeOutdegree {
    /// The sequence belongs to the adjacency lists `adj`.
    pub open spec fn is_for(&self, adj: Seq<Seq<usize>>) -> bool {
        &&& self@.len() == adj.len() + 1
        &&& forall|i: int| 0 <= i <= adj.len() ==> #[trigger] self@[i] == arcs_before(adj, i)
    }

    /// The cumulative out-degrees of `graph`, whose nodes must be few
    /// enough for the list to be built.
    pub fn new(graph: &Graph) -> (cumulative: CumulativeOutdegree)
        requires
            graph.wf(),
            64 * (graph@.len() + 1) <= usize::MAX,
        ensures
            cumulative.is_for(graph@),
    {
        let n: usize = graph.num_nodes();
        let bound: usize = graph.num_arcs();
        proof {
            graph.lemma_wf();
            assert(graph@.subrange(0, 0) =~= Seq::<Seq<usize>>::empty());
            lemma_arcs_before_monotone(graph@, 0, n as int);
        }
        let mut builder = new_builder(n + 1, bound);
        let mut total: usize = 0;
        push_value(&mut builder, 0);
        let mut u: usize = 0;
        while u < n
            invariant
                u <= n,
                n == graph@.len(),
                n < usize::MAX,
                bound == arc_count(graph@),
                limits_of(builder) == (((n + 1) as usize, bound)),
                taken_by(builder).len() == u + 1,
                total == arcs_before(graph@, u as int),
                forall|i: int|
                    0 <= i <= u ==> #[trigger] taken_by(builder)[i] == arcs_before(graph@, i),
            decreases n - u,
        {
            proof {
                lemma_arcs_before_step(graph@, u as int);
                lemma_arcs_before_monotone(graph@, u + 1, n as int);
            }
            total = total + graph.outdegree(u);
            push_value(&mut builder, total);
            u += 1;
        }
        CumulativeOutdegree { list: finish(builder) }
    }

    /// Whether the sequence holds the cumulative out-degrees of `graph`.
    pub fn is_for_graph(&self, graph: &Graph) -> (b: bool)
        requires
            graph.wf(),
        ensures
            b == self.is_for(graph@),
    {
        let n: usize = graph.num_nodes();
        proof {
            graph.lemma_wf();
            assert(graph@.subrange(0, 0) =~= Seq::<Seq<usize>>::empty());
        }
        if count_values(&self.list) != n + 1 || value_at(&self.list, 0) != 0 {
            return false;
        }
        let mut u: usize = 0;
        while u < n
            invariant
                u <= n,
                n == graph@.len(),
                n < usize::MAX,
                arc_count(graph@) <= usize::MAX,
                self@.len() == n + 1,
                forall|i: int| 0 <= i <= u ==> #[trigger] self@[i] == arcs_before(graph@, i),
            decreases n - u,
        {
            proof {
                lemma_arcs_before_step(graph@, u as int);
                lemma_arcs_before_monotone(graph@, u + 1, n as int);
            }
            let degree: usize = graph.outdegree(u);
            let here: usize = value_at(&self.list, u);
            let next: usize = value_at(&self.list, u + 1);
            if next < degree || next - degree != here {
                return false;
            }
            u += 1;
        }
        true
    }

    /// The cumulative out-degrees of a graph do not fall from one position
    /// to the next.
    pub proof fn lemma_ascending(&self, adj: Seq<Seq<usize>>)
        requires
            self.is_for(adj),
        ensures
            forall|i: int, j: int| 0 <= i <= j < self@.len() ==> self@[i] <= self@[j],
    {
        assert forall|i: int, j: int| 0 <= i <= j < self@.len() implies self@[i] <= self@[j] by {
            lemma_arcs_before_monotone(adj, i, j);
        }
    }

    /// The first position whose cumulative out-degree is at least `target`,
    /// with that cumulative out-degree, or `None` where even the number of
    /// all arcs is smaller.
    pub fn succ(&self, target: usize) -> (res: Option<(usize, usize)>)
        ensures
            res is None <==> forall|i: int| 0 <= i < self@.len() ==> self@[i] < target,
            res matches Some((index, value)) ==> {
                &&& index < self@.len()
                &&& value == self@[index as int]
                &&& value >= target
                &&& forall|i: int| 0 <= i < index ==> self@[i] < target
            },
    {
        successor(&self.list, target)
    }

    /// The cumulative out-degree at position `i`.
    pub fn get(&self, i: usize) -> (value: usize)
        requires
            i < self@.len(),
        ensures
            value == self@[i as int],
    {
        value_at(&self.list, i)
    }

    /// The number of positions: one more than the number of nodes.
    pub fn len(&self) -> (n: usize)
        ensures
            n == self@.len(),
    {
        count_values(&self.list)
    }
}

} // verus!
