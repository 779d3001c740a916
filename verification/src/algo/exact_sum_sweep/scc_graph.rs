//! The graph of the strongly connected components: for every pair of
//! components that an arc joins, one arc of the graph that stands for all
//! of them.
use crate::algo::sccs::basic::BasicSccs;
use crate::graph::{has_arc, successors_in_range, Graph};
use vstd::prelude::*;

verus! {

/// The arc that stands for the arcs from one component to another.
#[derive(Clone, Copy, Debug)]
pub struct SccGraphConnection {
    /// The component that the arc leads to.
    pub target: usize,
    /// The node at which the arc starts.
    pub start: usize,
    /// The node at which the arc ends.
    pub end: usize,
}

/// The value by which the arcs between two components are compared: the
/// number of predecessors of the start and of successors of the end.
pub open spec fn arc_value(adj: Seq<Seq<usize>>, radj: Seq<Seq<usize>>, start: int, end: int) -> nat {
    radj[start].len() + adj[end].len()
}

/// The connection stands for an arc from component `c` to another
/// component: it starts in `c`, ends in its target, and is an arc of the
/// graph.
pub open spec fn is_bridge(
    adj: Seq<Seq<usize>>,
    component: Seq<usize>,
    c: int,
    x: SccGraphConnection,
) -> bool {
    &&& x.start < adj.len()
    &&& x.end < adj.len()
    &&& component[x.start as int] == c
    &&& component[x.end as int] == x.target
    &&& x.target != c
    &&& has_arc(adj, x.start as int, x.end as int)
}

/// No arc from the component of the connection to its target has a larger
/// value than the connection.
pub open spec fn is_best(
    adj: Seq<Seq<usize>>,
    radj: Seq<Seq<usize>>,
    component: Seq<usize>,
    c: int,
    x: SccGraphConnection,
) -> bool {
    forall|u: int, j: int|
        0 <= u < adj.len() && 0 <= j < adj[u].len() && component[u] == c && component[(
        #[trigger] adj[u][j]) as int] == x.target ==> arc_value(adj, radj, u, adj[u][j] as int)
            <= arc_value(adj, radj, x.start as int, x.end as int)
}

/// The graph of the strongly connected components of a graph.
pub struct SccGraph {
    /// For every component the position of its first connection in `data`.
    segments_offset: Vec<usize>,
    /// The connections, component after component.
    data: Vec<SccGraphConnection>,
}

impl SccGraph {
    /// The position of the first connection of every component.
    pub closed spec fn offsets(&self) -> Seq<usize> {
        self.segments_offset@
    }

    /// All connections, component after component.
    pub closed spec fn connections(&self) -> Seq<SccGraphConnection> {
        self.data@
    }

    /// The number of components.
    pub open spec fn spec_num_components(&self) -> nat {
        self.offsets().len()
    }

    /// The position after the last connection of component `c`.
    pub open spec fn segment_end(&self, c: int) -> int {
        end_of(self.offsets(), self.connections(), c)
    }

    /// The connections of component `c`.
    pub open spec fn spec_children(&self, c: int) -> Seq<SccGraphConnection> {
        segment(self.offsets(), self.connections(), c)
    }

    /// The segments follow each other.
    pub open spec fn wf(&self) -> bool {
        segments_in_order(self.offsets(), self.connections())
    }

    /// The connections are those of the graph `adj` with the transposed
    /// graph `radj` and the components `component`: every connection of a
    /// component is an arc from it to another component, the best one to
    /// its target; no two connections of a component have the same target;
    /// and every arc that leaves a component has its target among the
    /// connections of the component.
    pub open spec fn is_for(
        &self,
        adj: Seq<Seq<usize>>,
        radj: Seq<Seq<usize>>,
        component: Seq<usize>,
    ) -> bool {
        &&& self.wf()
        &&& forall|c: int, i: int|
            0 <= c < self.spec_num_components() && 0 <= i < self.spec_children(c).len() ==> is_bridge(
                adj,
                component,
                c,
                #[trigger] self.spec_children(c)[i],
            ) && is_best(adj, radj, component, c, self.spec_children(c)[i])
        &&& forall|c: int, i: int, k: int|
            0 <= c < self.spec_num_components() && 0 <= i < k < self.spec_children(c).len() ==> (
            #[trigger] self.spec_children(c)[i]).target != (#[trigger] self.spec_children(
                c,
            )[k]).target
        &&& forall|u: int, j: int|
            0 <= u < adj.len() && 0 <= j < adj[u].len() && component[u] != component[(
            #[trigger] adj[u][j]) as int] ==> has_target(
                self.spec_children(component[u] as int),
                component[adj[u][j] as int] as int,
            )
    }

    /// The connections of `component`.
    pub fn children(&self, component: usize) -> (list: &[SccGraphConnection])
        requires
            self.wf(),
            component < self.spec_num_components(),
        ensures
            list@ == self.spec_children(component as int),
    {
        assert(self.segments_offset.len() == self.offsets().len());
        let offset: usize = self.segments_offset[component];
        let end: usize = if component + 1 < self.segments_offset.len() {
            self.segments_offset[component + 1]
        } else {
            self.data.len()
        };
        vstd::slice::slice_subrange(self.data.as_slice(), offset, end)
    }

    /// The number of components.
    pub fn num_components(&self) -> (k: usize)
        ensures
            k == self.spec_num_components(),
    {
        self.segments_offset.len()
    }
}

/// The position after the last connection of component `c`.
pub open spec fn end_of(offsets: Seq<usize>, data: Seq<SccGraphConnection>, c: int) -> int {
    if c + 1 < offsets.len() {
        offsets[c + 1] as int
    } else {
        data.len() as int
    }
}

/// The connections of component `c`.
pub open spec fn segment(offsets: Seq<usize>, data: Seq<SccGraphConnection>, c: int) -> Seq<
    SccGraphConnection,
> {
    data.subrange(offsets[c] as int, end_of(offsets, data, c))
}

/// The segments follow each other.
pub open spec fn segments_in_order(offsets: Seq<usize>, data: Seq<SccGraphConnection>) -> bool {
    forall|c: int|
        0 <= c < offsets.len() ==> 0 <= #[trigger] offsets[c] <= end_of(offsets, data, c)
            <= data.len()
}

/// One of the connections leads to component `target`.
pub open spec fn has_target(list: Seq<SccGraphConnection>, target: int) -> bool {
    exists|i: int| 0 <= i < list.len() && (#[trigger] list[i]).target == target
}


/// The list holds the arcs that stand for the arcs that leave component
/// `c`: each is an arc from `c` to another component and the best one to
/// its target; no two have the same target; every arc that leaves `c` has
/// its target in the list.
pub open spec fn is_segment_of(
    adj: Seq<Seq<usize>>,
    radj: Seq<Seq<usize>>,
    component: Seq<usize>,
    c: int,
    list: Seq<SccGraphConnection>,
) -> bool {
    &&& forall|i: int|
        0 <= i < list.len() ==> is_bridge(adj, component, c, #[trigger] list[i]) && is_best(
            adj,
            radj,
            component,
            c,
            list[i],
        )
    &&& forall|i: int, k: int|
        0 <= i < k < list.len() ==> (#[trigger] list[i]).target != (#[trigger] list[k]).target
    &&& forall|u: int, j: int|
        0 <= u < adj.len() && 0 <= j < adj[u].len() && component[u] == c && component[(
        #[trigger] adj[u][j]) as int] != c ==> has_target(list, component[adj[u][j] as int] as int)
}

/// The views of the lists of `lists`.
pub open spec fn views(lists: Seq<Vec<usize>>) -> Seq<Seq<usize>> {
    Seq::new(lists.len(), |i: int| lists[i]@)
}

/// The lists sort the nodes by their component: list `c` holds the nodes
/// of component `c` among the first `n` nodes, each once.
pub open spec fn sorted_into(lists: Seq<Seq<usize>>, component: Seq<usize>, n: int) -> bool {
    &&& forall|c: int, i: int|
        0 <= c < lists.len() && 0 <= i < lists[c].len() ==> (#[trigger] lists[c][i]) < n
            && component[lists[c][i] as int] == c
    &&& forall|v: int| 0 <= v < n ==> #[trigger] lists[component[v] as int].contains(v as usize)
}

/// The nodes of every component.
fn members_of(scc: &BasicSccs) -> (buckets: Vec<Vec<usize>>)
    requires
        scc.wf(),
    ensures
        buckets@.len() == scc.spec_num_components(),
        sorted_into(views(buckets@), scc.components(), scc.components().len() as int),
{
    let k: usize = scc.num_components();
    let n: usize = scc.num_nodes();
    let mut buckets: Vec<Vec<usize>> = Vec::with_capacity(k);
    let mut c: usize = 0;
    while c < k
        invariant
            c <= k,
            buckets@.len() == c,
            forall|i: int| 0 <= i < c ==> (#[trigger] buckets@[i])@.len() == 0,
        decreases k - c,
    {
        buckets.push(Vec::new());
        c += 1;
    }
    let mut v: usize = 0;
    while v < n
        invariant
            v <= n,
            n == scc.components().len(),
            k == scc.spec_num_components(),
            scc.wf(),
            buckets@.len() == k,
            sorted_into(views(buckets@), scc.components(), v as int),
        decreases n - v,
    {
        let c: usize = scc.component_of(v);
        assert(scc.components()[v as int] < scc.spec_num_components());
        let ghost before = views(buckets@);
        let mut list: Vec<usize> = Vec::new();
        std::mem::swap(&mut list, &mut buckets[c]);
        list.push(v);
        buckets[c] = list;
        proof {
            let after = views(buckets@);
            assert(after =~= before.update(c as int, before[c as int].push(v)));
            assert forall|d: int, i: int| 0 <= d < after.len() && 0 <= i < after[d].len() implies (
            #[trigger] after[d][i]) < v + 1 && scc.components()[after[d][i] as int] == d by {
                if d == c && i == before[c as int].len() {
                } else {
                    assert(before[d][i] < v);
                }
            }
            assert forall|w: int| 0 <= w < v + 1 implies #[trigger] after[scc.components()[w] as int].contains(
                w as usize,
            ) by {
                let d = scc.components()[w] as int;
                assert(scc.components()[w] < scc.spec_num_components());
                if w == v {
                    assert(after[d][before[d].len() as int] == w as usize);
                } else {
                    assert(before[d].contains(w as usize));
                    let i = choose|i: int| 0 <= i < before[d].len() && before[d][i] == w as usize;
                    assert(after[d][i] == w as usize);
                }
            }
        }
        v += 1;
    }
    buckets
}

/// The arc number `j` of the member at position `i` was looked at when the
/// scan stood at arc `k` of member `m`.
pub open spec fn scanned(adj: Seq<Seq<usize>>, members: Seq<usize>, m: int, k: int, i: int, j: int) -> bool {
    0 <= i < members.len() && 0 <= j < adj[members[i] as int].len() && (i < m || (i == m && j < k))
}

/// The connection is an arc from component `c` to component `t`, and no
/// arc to `t` that was looked at has a larger value.
pub open spec fn best_so_far(
    adj: Seq<Seq<usize>>,
    radj: Seq<Seq<usize>>,
    component: Seq<usize>,
    c: int,
    members: Seq<usize>,
    m: int,
    k: int,
    t: int,
    x: SccGraphConnection,
) -> bool {
    &&& x.target == t
    &&& is_bridge(adj, component, c, x)
    &&& forall|i: int, j: int|
        #[trigger] scanned(adj, members, m, k, i, j) && component[adj[members[i] as int][j] as int]
            == t ==> arc_value(adj, radj, members[i] as int, adj[members[i] as int][j] as int)
            <= arc_value(adj, radj, x.start as int, x.end as int)
}

/// What the scan of the members of component `c` has found when it stands
/// at arc `k` of member `m`: for every other component a best arc to it if
/// one was looked at, and the list of those components.
pub open spec fn scan_state(
    adj: Seq<Seq<usize>>,
    radj: Seq<Seq<usize>>,
    component: Seq<usize>,
    c: int,
    members: Seq<usize>,
    m: int,
    k: int,
    best: Seq<Option<SccGraphConnection>>,
    found: Seq<usize>,
) -> bool {
    &&& found.no_duplicates()
    &&& forall|i: int| 0 <= i < found.len() ==> (#[trigger] found[i]) < best.len()
    &&& forall|t: int| 0 <= t < best.len() ==> ((#[trigger] best[t]) is Some <==> found.contains(t as usize))
    &&& forall|t: int|
        0 <= t < best.len() && (#[trigger] best[t]) is Some ==> best_so_far(
            adj,
            radj,
            component,
            c,
            members,
            m,
            k,
            t,
            best[t].unwrap(),
        )
    &&& forall|i: int, j: int|
        #[trigger] scanned(adj, members, m, k, i, j) && component[adj[members[i] as int][j] as int]
            != c ==> best[component[adj[members[i] as int][j] as int] as int] is Some
}

/// The value of the arc from `start` to `end`.
fn value_of(graph: &Graph, reversed_graph: &Graph, start: usize, end: usize) -> (value: u128)
    requires
        start < reversed_graph@.len(),
        end < graph@.len(),
    ensures
        value == arc_value(graph@, reversed_graph@, start as int, end as int),
{
    reversed_graph.outdegree(start) as u128 + graph.outdegree(end) as u128
}

/// Looks at all arcs of the members of component `c` and keeps for every
/// other component the best arc to it.
fn scan_component(
    graph: &Graph,
    reversed_graph: &Graph,
    scc: &BasicSccs,
    c: usize,
    members: &Vec<usize>,
    best: &mut Vec<Option<SccGraphConnection>>,
    found: &mut Vec<usize>,
)
    requires
        graph.wf(),
        reversed_graph@.len() == graph@.len(),
        scc.wf(),
        scc.components().len() == graph@.len(),
        c < scc.spec_num_components(),
        forall|i: int|
            0 <= i < members@.len() ==> (#[trigger] members@[i]) < graph@.len()
                && scc.components()[members@[i] as int] == c,
        old(best)@.len() == scc.spec_num_components(),
        forall|t: int| 0 <= t < old(best)@.len() ==> (#[trigger] old(best)@[t]) is None,
        old(found)@.len() == 0,
    ensures
        final(best)@.len() == old(best)@.len(),
        scan_state(
            graph@,
            reversed_graph@,
            scc.components(),
            c as int,
            members@,
            members@.len() as int,
            0,
            final(best)@,
            final(found)@,
        ),
{
    let ghost adj = graph@;
    let ghost radj = reversed_graph@;
    let ghost comp = scc.components();
    proof {
        graph.lemma_wf();
    }
    let size: usize = best.len();
    let mut m: usize = 0;
    while m < members.len()
        invariant
            m <= members@.len(),
            best@.len() == size,
            adj == graph@,
            radj == reversed_graph@,
            comp == scc.components(),
            radj.len() == adj.len(),
            comp.len() == adj.len(),
            successors_in_range(adj),
            scc.wf(),
            c < scc.spec_num_components(),
            forall|i: int|
                0 <= i < members@.len() ==> (#[trigger] members@[i]) < adj.len()
                    && comp[members@[i] as int] == c,
            best@.len() == scc.spec_num_components(),
            scan_state(adj, radj, comp, c as int, members@, m as int, 0, best@, found@),
        decreases members@.len() - m,
    {
        let v: usize = members[m];
        let successors: &Vec<usize> = graph.successors(v);
        let mut k: usize = 0;
        while k < successors.len()
            invariant
                k <= successors@.len(),
                m < members@.len(),
                best@.len() == size,
                v == members@[m as int],
                successors@ == adj[v as int],
                adj == graph@,
                radj == reversed_graph@,
                comp == scc.components(),
                radj.len() == adj.len(),
                comp.len() == adj.len(),
                successors_in_range(adj),
                scc.wf(),
                c < scc.spec_num_components(),
                forall|i: int|
                    0 <= i < members@.len() ==> (#[trigger] members@[i]) < adj.len()
                        && comp[members@[i] as int] == c,
                best@.len() == scc.spec_num_components(),
                scan_state(adj, radj, comp, c as int, members@, m as int, k as int, best@, found@),
            decreases successors@.len() - k,
        {
            let succ: usize = successors[k];
            assert(succ < adj.len()) by {
                assert(adj[v as int][k as int] < adj.len());
            }
            let t: usize = scc.component_of(succ);
            assert(comp[succ as int] < scc.spec_num_components());
            let ghost old_best = best@;
            let ghost old_found = found@;
            if t != c {
                let candidate = SccGraphConnection { target: t, start: v, end: succ };
                let better: bool = match best[t] {
                    None => true,
                    Some(current) => value_of(graph, reversed_graph, v, succ) > value_of(
                        graph,
                        reversed_graph,
                        current.start,
                        current.end,
                    ),
                };
                if best[t].is_none() {
                    found.push(t);
                }
                if better {
                    best.set(t, Some(candidate));
                }
            }
            proof {
                lemma_scan_step(
                    adj,
                    radj,
                    comp,
                    c as int,
                    members@,
                    m as int,
                    k as int,
                    old_best,
                    old_found,
                    best@,
                    found@,
                );
            }
            k += 1;
        }
        proof {
            assert forall|i: int, j: int|
                scanned(adj, members@, m + 1, 0, i, j) <==> scanned(
                    adj,
                    members@,
                    m as int,
                    successors@.len() as int,
                    i,
                    j,
                ) by {}
            lemma_scan_same(
                adj,
                radj,
                comp,
                c as int,
                members@,
                m as int,
                successors@.len() as int,
                m + 1,
                0,
                best@,
                found@,
            );
        }
        m += 1;
    }
}

/// The state of a scan depends on the arcs that were looked at alone.
proof fn lemma_scan_same(
    adj: Seq<Seq<usize>>,
    radj: Seq<Seq<usize>>,
    component: Seq<usize>,
    c: int,
    members: Seq<usize>,
    m: int,
    k: int,
    m2: int,
    k2: int,
    best: Seq<Option<SccGraphConnection>>,
    found: Seq<usize>,
)
    requires
        scan_state(adj, radj, component, c, members, m, k, best, found),
        forall|i: int, j: int|
            scanned(adj, members, m2, k2, i, j) <==> scanned(adj, members, m, k, i, j),
    ensures
        scan_state(adj, radj, component, c, members, m2, k2, best, found),
{
    assert forall|t: int| 0 <= t < best.len() && (#[trigger] best[t]) is Some implies best_so_far(
        adj,
        radj,
        component,
        c,
        members,
        m2,
        k2,
        t,
        best[t].unwrap(),
    ) by {
        assert(best_so_far(adj, radj, component, c, members, m, k, t, best[t].unwrap()));
    }
}

/// Looking at one arc more keeps the state of the scan.
proof fn lemma_scan_step(
    adj: Seq<Seq<usize>>,
    radj: Seq<Seq<usize>>,
    component: Seq<usize>,
    c: int,
    members: Seq<usize>,
    m: int,
    k: int,
    best: Seq<Option<SccGraphConnection>>,
    found: Seq<usize>,
    new_best: Seq<Option<SccGraphConnection>>,
    new_found: Seq<usize>,
)
    requires
        scan_state(adj, radj, component, c, members, m, k, best, found),
        successors_in_range(adj),
        component.len() == adj.len(),
        0 <= m < members.len(),
        forall|i: int|
            0 <= i < members.len() ==> (#[trigger] members[i]) < adj.len() && component[members[i] as int]
                == c,
        0 <= k < adj[members[m] as int].len(),
        forall|v: int| 0 <= v < component.len() ==> (#[trigger] component[v]) < best.len(),
        best.len() <= usize::MAX,
        new_best.len() == best.len(),
        ({
            let u = members[m] as int;
            let v = adj[u][k] as int;
            let t = component[v] as int;
            let candidate = SccGraphConnection {
                target: t as usize,
                start: u as usize,
                end: v as usize,
            };
            if t == c {
                new_best == best && new_found == found
            } else {
                &&& new_found == (if best[t] is None {
                    found.push(t as usize)
                } else {
                    found
                })
                &&& new_best == (if best[t] is None || arc_value(adj, radj, u, v) > arc_value(
                    adj,
                    radj,
                    best[t].unwrap().start as int,
                    best[t].unwrap().end as int,
                ) {
                    best.update(t, Some(candidate))
                } else {
                    best
                })
            }
        }),
    ensures
        scan_state(adj, radj, component, c, members, m, k + 1, new_best, new_found),
{
    let u = members[m] as int;
    assert(members[m] < adj.len());
    let v = adj[u][k] as int;
    assert(adj[u][k] < adj.len());
    let t = component[v] as int;
    assert(component[v] < best.len());
    // an arc that was looked at was looked at before, or is the new one
    assert forall|i: int, j: int| #[trigger] scanned(adj, members, m, k + 1, i, j) implies (scanned(
        adj,
        members,
        m,
        k,
        i,
        j,
    ) || (i == m && j == k)) by {}
    // the best arcs that stay are still the best
    assert forall|x: int|
        0 <= x < best.len() && (#[trigger] best[x]) is Some && x != t implies best_so_far(
        adj,
        radj,
        component,
        c,
        members,
        m,
        k + 1,
        x,
        best[x].unwrap(),
    ) by {
        let y = best[x].unwrap();
        assert(best_so_far(adj, radj, component, c, members, m, k, x, y));
        assert forall|i: int, j: int|
            #[trigger] scanned(adj, members, m, k + 1, i, j) && component[adj[members[i] as int][j] as int]
                == x implies arc_value(adj, radj, members[i] as int, adj[members[i] as int][j] as int)
            <= arc_value(adj, radj, y.start as int, y.end as int) by {
            if !(i == m && j == k) {
                assert(scanned(adj, members, m, k, i, j));
            }
        }
    }
    if t == c {
        assert forall|x: int| 0 <= x < new_best.len() && (#[trigger] new_best[x]) is Some implies best_so_far(
            adj,
            radj,
            component,
            c,
            members,
            m,
            k + 1,
            x,
            new_best[x].unwrap(),
        ) by {
            let y = best[x].unwrap();
            assert(best_so_far(adj, radj, component, c, members, m, k, x, y));
            assert(x != t);
        }
        assert forall|i: int, j: int|
            #[trigger] scanned(adj, members, m, k + 1, i, j) && component[adj[members[i] as int][j] as int]
                != c implies new_best[component[adj[members[i] as int][j] as int] as int] is Some by {
            assert(scanned(adj, members, m, k, i, j));
        }
    } else {
        assert(has_arc(adj, u, v));
        if best[t] is None {
            assert(!found.contains(t as usize));
            assert forall|a: int, b: int|
                0 <= a < new_found.len() && 0 <= b < new_found.len() && a != b implies new_found[a]
                != new_found[b] by {
                if a < found.len() {
                    assert(found.contains(found[a]));
                }
                if b < found.len() {
                    assert(found.contains(found[b]));
                }
            }
            assert forall|x: int| 0 <= x < new_best.len() implies ((#[trigger] new_best[x]) is Some
                <==> new_found.contains(x as usize)) by {
                if x == t {
                    assert(new_found[found.len() as int] == x as usize);
                } else {
                    assert(new_best[x] == best[x]);
                    if found.contains(x as usize) {
                        let i = choose|i: int| 0 <= i < found.len() && found[i] == x as usize;
                        assert(new_found[i] == x as usize);
                    }
                    if new_found.contains(x as usize) {
                        let i = choose|i: int|
                            0 <= i < new_found.len() && new_found[i] == x as usize;
                        assert(i < found.len());
                        assert(found[i] == x as usize);
                    }
                }
            }
        } else {
            assert forall|x: int| 0 <= x < new_best.len() implies ((#[trigger] new_best[x]) is Some
                <==> new_found.contains(x as usize)) by {
                assert(best[x] is Some <==> found.contains(x as usize));
            }
        }
        assert forall|x: int| 0 <= x < new_best.len() && (#[trigger] new_best[x]) is Some implies best_so_far(
            adj,
            radj,
            component,
            c,
            members,
            m,
            k + 1,
            x,
            new_best[x].unwrap(),
        ) by {
            if x != t {
                assert(new_best[x] == best[x]);
            } else {
                let y = new_best[t].unwrap();
                if best[t] is Some {
                    let z = best[t].unwrap();
                    assert(best_so_far(adj, radj, component, c, members, m, k, t, z));
                    assert(arc_value(adj, radj, z.start as int, z.end as int) <= arc_value(
                        adj,
                        radj,
                        y.start as int,
                        y.end as int,
                    ));
                    assert(arc_value(adj, radj, u, v) <= arc_value(
                        adj,
                        radj,
                        y.start as int,
                        y.end as int,
                    ));
                }
                assert forall|i: int, j: int|
                    #[trigger] scanned(adj, members, m, k + 1, i, j)
                        && component[adj[members[i] as int][j] as int]
                        == t implies arc_value(
                    adj,
                    radj,
                    members[i] as int,
                    adj[members[i] as int][j] as int,
                ) <= arc_value(adj, radj, y.start as int, y.end as int) by {
                    if !(i == m && j == k) {
                        assert(scanned(adj, members, m, k, i, j));
                        assert(best[t] is Some);
                    }
                }
            }
        }
        assert forall|i: int, j: int|
            #[trigger] scanned(adj, members, m, k + 1, i, j) && component[adj[members[i] as int][j] as int]
                != c implies new_best[component[adj[members[i] as int][j] as int] as int] is Some by {
            if !(i == m && j == k) {
                assert(scanned(adj, members, m, k, i, j));
                let w = component[adj[members[i] as int][j] as int] as int;
                assert(best[w] is Some);
                assert(members[i] < adj.len());
                assert(adj[members[i] as int][j] < adj.len());
            }
        }
    }
}


/// Appends to `data` the best arcs that a scan has found, in the order in
/// which their targets were found, and empties the state of the scan.
fn emit(
    data: &mut Vec<SccGraphConnection>,
    best: &mut Vec<Option<SccGraphConnection>>,
    found: &mut Vec<usize>,
)
    requires
        old(found)@.no_duplicates(),
        forall|i: int| 0 <= i < old(found)@.len() ==> (#[trigger] old(found)@[i]) < old(best)@.len(),
        forall|t: int|
            0 <= t < old(best)@.len()
                ==> ((#[trigger] old(best)@[t]) is Some <==> old(found)@.contains(t as usize)),
    ensures
        final(best)@.len() == old(best)@.len(),
        forall|t: int| 0 <= t < final(best)@.len() ==> (#[trigger] final(best)@[t]) is None,
        final(found)@.len() == 0,
        final(data)@.len() == old(data)@.len() + old(found)@.len(),
        final(data)@.subrange(0, old(data)@.len() as int) == old(data)@,
        forall|i: int|
            0 <= i < old(found)@.len() ==> Some(#[trigger] final(data)@[old(data)@.len() + i])
                == old(best)@[old(found)@[i] as int],
{
    let size: usize = best.len();
    proof {
        assert forall|t: int| 0 <= t < best@.len() && (#[trigger] best@[t]) is Some implies exists|
            k: int,
        |
            0 <= k < found@.len() && found@[k] == t by {
            assert(found@.contains(t as usize));
            let k = choose|k: int| 0 <= k < found@.len() && found@[k] == t as usize;
            assert(found@[k] == t);
        }
        assert forall|k: int| 0 <= k < found@.len() implies best@[#[trigger] found@[k] as int] is Some by {
            assert(found@.contains(found@[k]));
        }
    }
    let mut i: usize = 0;
    while i < found.len()
        invariant
            i <= found@.len(),
            found@ == old(found)@,
            found@.no_duplicates(),
            best@.len() == old(best)@.len(),
            forall|k: int| 0 <= k < found@.len() ==> (#[trigger] found@[k]) < best@.len(),
            forall|k: int|
                i <= k < found@.len() ==> best@[#[trigger] found@[k] as int] == old(best)@[found@[k] as int]
                    && best@[found@[k] as int] is Some,
            forall|t: int|
                0 <= t < best@.len() && (#[trigger] best@[t]) is Some ==> exists|k: int|
                    i <= k < found@.len() && found@[k] == t,
            data@.len() == old(data)@.len() + i,
            data@.subrange(0, old(data)@.len() as int) == old(data)@,
            forall|k: int|
                0 <= k < i ==> Some(#[trigger] data@[old(data)@.len() + k]) == old(best)@[found@[k] as int],
        decreases found@.len() - i,
    {
        let t: usize = found[i];
        let ghost before = best@;
        let ghost data_before = data@;
        assert(best@[found@[i as int] as int] is Some);
        let x: SccGraphConnection = best[t].unwrap();
        data.push(x);
        best.set(t, None);
        proof {
            assert(data@.subrange(0, old(data)@.len() as int) =~= data_before.subrange(
                0,
                old(data)@.len() as int,
            ));
            assert forall|k: int| i + 1 <= k < found@.len() implies best@[
            #[trigger] found@[k] as int] == old(best)@[found@[k] as int]
                && best@[found@[k] as int] is Some by {
                assert(found@[k] != found@[i as int]);
                assert(before[found@[k] as int] == old(best)@[found@[k] as int]);
            }
            assert forall|u: int| 0 <= u < best@.len() && (#[trigger] best@[u]) is Some implies exists|
                k: int,
            |
                i + 1 <= k < found@.len() && found@[k] == u by {
                assert(before[u] is Some);
                let k = choose|k: int| i <= k < found@.len() && found@[k] == u;
                assert(k != i);
            }
            assert forall|k: int| 0 <= k < i + 1 implies Some(
                #[trigger] data@[old(data)@.len() + k],
            ) == old(best)@[found@[k] as int] by {
                if k < i {
                    assert(data@[old(data)@.len() + k] == data_before[old(data)@.len() + k]);
                }
            }
        }
        i += 1;
    }
    found.clear();
}

impl SccGraph {
    /// The graph of the components `scc` of `graph`, whose transposed graph
    /// is `reversed_graph`.
    pub fn new(graph: &Graph, reversed_graph: &Graph, scc: &BasicSccs) -> (res: SccGraph)
        requires
            graph.wf(),
            reversed_graph@.len() == graph@.len(),
            scc.wf(),
            scc.components().len() == graph@.len(),
        ensures
            res.is_for(graph@, reversed_graph@, scc.components()),
            res.spec_num_components() == scc.spec_num_components(),
            res.offsets().len() > 0 ==> res.offsets()[0] == 0,
    {
        let ghost adj = graph@;
        let ghost radj = reversed_graph@;
        let ghost comp = scc.components();
        proof {
            graph.lemma_wf();
        }
        let k: usize = scc.num_components();
        let buckets: Vec<Vec<usize>> = members_of(scc);
        let mut best: Vec<Option<SccGraphConnection>> = Vec::with_capacity(k);
        let mut t: usize = 0;
        while t < k
            invariant
                t <= k,
                best@.len() == t,
                forall|i: int| 0 <= i < t ==> (#[trigger] best@[i]) is None,
            decreases k - t,
        {
            best.push(None);
            t += 1;
        }
        let mut found: Vec<usize> = Vec::new();
        let mut offsets: Vec<usize> = Vec::with_capacity(k);
        let mut data: Vec<SccGraphConnection> = Vec::new();
        let mut c: usize = 0;
        while c < k
            invariant
                c <= k,
                k == scc.spec_num_components(),
                adj == graph@,
                radj == reversed_graph@,
                comp == scc.components(),
                graph.wf(),
                successors_in_range(adj),
                adj.len() < usize::MAX,
                radj.len() == adj.len(),
                scc.wf(),
                comp.len() == adj.len(),
                buckets@.len() == k,
                sorted_into(views(buckets@), comp, comp.len() as int),
                best@.len() == k,
                forall|i: int| 0 <= i < k ==> (#[trigger] best@[i]) is None,
                found@.len() == 0,
                offsets@.len() == c,
                c == 0 ==> data@.len() == 0,
                c > 0 ==> offsets@[0] == 0,
                segments_in_order(offsets@, data@),
                forall|d: int|
                    0 <= d < c ==> is_segment_of(adj, radj, comp, d, #[trigger] segment(offsets@, data@, d)),
            decreases k - c,
        {
            let ghost offsets_before = offsets@;
            let ghost data_before = data@;
            offsets.push(data.len());
            let members: &Vec<usize> = &buckets[c];
            proof {
                assert(views(buckets@)[c as int] == members@);
                assert forall|i: int| 0 <= i < members@.len() implies (#[trigger] members@[i])
                    < adj.len() && comp[members@[i] as int] == c by {
                    assert(views(buckets@)[c as int][i] < comp.len());
                }
            }
            scan_component(graph, reversed_graph, scc, c, members, &mut best, &mut found);
            let ghost scan_best = best@;
            let ghost scan_found = found@;
            emit(&mut data, &mut best, &mut found);
            proof {
                let list = segment(offsets@, data@, c as int);
                assert(list.len() == scan_found.len());
                assert forall|i: int| 0 <= i < list.len() implies Some(#[trigger] list[i])
                    == scan_best[scan_found[i] as int] by {
                    assert(list[i] == data@[data_before.len() + i]);
                }
                assert forall|u: int| 0 <= u < adj.len() && comp[u] == c implies #[trigger] members@.contains(
                    u as usize,
                ) by {
                    assert(views(buckets@)[comp[u] as int].contains(u as usize));
                }
                lemma_segment_found(adj, radj, comp, c as int, members@, scan_best, scan_found, list);
                assert forall|d: int| 0 <= d < c + 1 implies is_segment_of(
                    adj,
                    radj,
                    comp,
                    d,
                    #[trigger] segment(offsets@, data@, d),
                ) by {
                    if d < c {
                        assert(offsets_before[d] <= end_of(offsets_before, data_before, d)
                            <= data_before.len());
                        assert(segment(offsets@, data@, d) =~= segment(
                            offsets_before,
                            data_before,
                            d,
                        )) by {
                            assert forall|i: int|
                                0 <= i < segment(offsets_before, data_before, d).len() implies segment(
                                offsets@,
                                data@,
                                d,
                            )[i] == segment(offsets_before, data_before, d)[i] by {
                                assert(data@.subrange(0, data_before.len() as int)[offsets_before[d]
                                    + i] == data_before[offsets_before[d] + i]);
                            }
                        }
                    }
                }
                assert forall|d: int| 0 <= d < offsets@.len() implies 0 <= #[trigger] offsets@[d]
                    <= end_of(offsets@, data@, d) <= data@.len() by {
                    if d < c {
                        assert(offsets_before[d] <= end_of(offsets_before, data_before, d)
                            <= data_before.len());
                    }
                }
            }
            c += 1;
        }
        SccGraph { segments_offset: offsets, data }
    }
}

/// What a whole scan of the members of a component has found is the
/// segment of the component.
proof fn lemma_segment_found(
    adj: Seq<Seq<usize>>,
    radj: Seq<Seq<usize>>,
    component: Seq<usize>,
    c: int,
    members: Seq<usize>,
    best: Seq<Option<SccGraphConnection>>,
    found: Seq<usize>,
    list: Seq<SccGraphConnection>,
)
    requires
        scan_state(adj, radj, component, c, members, members.len() as int, 0, best, found),
        successors_in_range(adj),
        adj.len() <= usize::MAX,
        component.len() == adj.len(),
        best.len() <= usize::MAX,
        forall|v: int| 0 <= v < component.len() ==> (#[trigger] component[v]) < best.len(),
        forall|u: int| 0 <= u < adj.len() && component[u] == c ==> #[trigger] members.contains(u as usize),
        list.len() == found.len(),
        forall|i: int| 0 <= i < list.len() ==> Some(#[trigger] list[i]) == best[found[i] as int],
    ensures
        is_segment_of(adj, radj, component, c, list),
{
    let m = members.len() as int;
    assert forall|i: int| 0 <= i < list.len() implies is_bridge(adj, component, c, #[trigger] list[i])
        && is_best(adj, radj, component, c, list[i]) by {
        let t = found[i] as int;
        assert(found.contains(found[i]));
        assert(best[t] is Some);
        assert(best_so_far(adj, radj, component, c, members, m, 0, t, best[t].unwrap()));
        let x = list[i];
        assert forall|u: int, j: int|
            0 <= u < adj.len() && 0 <= j < adj[u].len() && component[u] == c && component[(
            #[trigger] adj[u][j]) as int] == x.target implies arc_value(adj, radj, u, adj[u][j] as int)
            <= arc_value(adj, radj, x.start as int, x.end as int) by {
            assert(members.contains(u as usize));
            let p = choose|p: int| 0 <= p < members.len() && members[p] == u as usize;
            assert(scanned(adj, members, m, 0, p, j));
        }
    }
    assert forall|i: int, k: int| 0 <= i < k < list.len() implies (#[trigger] list[i]).target != (
    #[trigger] list[k]).target by {
        assert(found.contains(found[i]));
        assert(found.contains(found[k]));
        assert(best_so_far(adj, radj, component, c, members, m, 0, found[i] as int, best[found[i] as int].unwrap()));
        assert(best_so_far(adj, radj, component, c, members, m, 0, found[k] as int, best[found[k] as int].unwrap()));
    }
    assert forall|u: int, j: int|
        0 <= u < adj.len() && 0 <= j < adj[u].len() && component[u] == c && component[(
        #[trigger] adj[u][j]) as int] != c implies has_target(list, component[adj[u][j] as int] as int) by {
        assert(members.contains(u as usize));
        let p = choose|p: int| 0 <= p < members.len() && members[p] == u as usize;
        assert(scanned(adj, members, m, 0, p, j));
        assert(adj[u][j] < adj.len());
        let t = component[adj[u][j] as int] as int;
        assert(best[t] is Some);
        assert(found.contains(t as usize));
        let i = choose|i: int| 0 <= i < found.len() && found[i] == t as usize;
        assert(best_so_far(adj, radj, component, c, members, m, 0, t, best[t].unwrap()));
        assert(list[i].target == t);
    }
}

} // verus!
