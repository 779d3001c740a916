//! What the counters of HyperBall hold after a number of iterations.
//!
//! An iteration merges into the counter of every node the counters of its
//! successors. The iterations of HyperBall leave out the merges and the
//! nodes that cannot change a counter; that they come to the same counters
//! is what this module shows.
use crate::distance::{
    lemma_within_first_arc, lemma_within_itself, lemma_within_more, lemma_within_none,
    lemma_within_prepend, within,
};
use crate::graph::has_arc;
use crate::utils::hyper_log_log::counter_array::registers_max;
use vstd::prelude::*;

verus! {

/// No register of `a` is above the register of `b` at its place.
pub open spec fn below(a: Seq<u64>, b: Seq<u64>) -> bool {
    &&& a.len() == b.len()
    &&& forall|j: int| 0 <= j < a.len() ==> (#[trigger] a[j]) <= b[j]
}

/// The registers of node `u` in `table`, merged with the registers of its
/// first `k` successors.
pub open spec fn spread(successors: Seq<usize>, table: Seq<Seq<u64>>, u: int, k: int) -> Seq<u64>
    decreases k,
{
    if k <= 0 {
        table[u]
    } else {
        registers_max(spread(successors, table, u, k - 1), table[successors[k - 1] as int])
    }
}

/// The registers of every node after `t` full iterations from the
/// registers `start`: every iteration merges into the registers of every
/// node the registers of all its successors.
pub open spec fn level(adj: Seq<Seq<usize>>, start: Seq<Seq<u64>>, t: nat) -> Seq<Seq<u64>>
    decreases t,
{
    if t == 0 {
        start
    } else {
        Seq::new(
            adj.len(),
            |u: int| spread(adj[u], level(adj, start, (t - 1) as nat), u, adj[u].len() as int),
        )
    }
}

/// Every node has `m` registers in `table`, and there are as many nodes
/// as lists of successors, all of which name nodes.
pub open spec fn table_shaped(adj: Seq<Seq<usize>>, table: Seq<Seq<u64>>, m: nat) -> bool {
    &&& table.len() == adj.len()
    &&& forall|v: int| 0 <= v < table.len() ==> (#[trigger] table[v]).len() == m
    &&& forall|u: int, i: int|
        0 <= u < adj.len() && 0 <= i < adj[u].len() ==> (#[trigger] adj[u][i]) < adj.len()
}

/// Merging raises: what is merged is below the result.
pub proof fn lemma_spread_grows(
    adj: Seq<Seq<usize>>,
    table: Seq<Seq<u64>>,
    m: nat,
    u: int,
    k: int,
    i: int,
)
    requires
        table_shaped(adj, table, m),
        0 <= u < adj.len(),
        0 <= k <= adj[u].len(),
    ensures
        spread(adj[u], table, u, k).len() == m,
        below(table[u], spread(adj[u], table, u, k)),
        0 <= i < k ==> below(table[adj[u][i] as int], spread(adj[u], table, u, k)),
    decreases k,
{
    if k > 0 {
        lemma_spread_grows(adj, table, m, u, k - 1, i);
        let v = adj[u][k - 1] as int;
        assert(adj[u][k - 1] < adj.len());
        assert(table[v].len() == m);
    }
}

/// Every level has `m` registers for every node.
pub proof fn lemma_level_shaped(adj: Seq<Seq<usize>>, start: Seq<Seq<u64>>, m: nat, t: nat)
    requires
        table_shaped(adj, start, m),
    ensures
        table_shaped(adj, level(adj, start, t), m),
    decreases t,
{
    if t > 0 {
        lemma_level_shaped(adj, start, m, (t - 1) as nat);
        let before = level(adj, start, (t - 1) as nat);
        assert forall|v: int| 0 <= v < adj.len() implies (#[trigger] level(adj, start, t)[v]).len()
            == m by {
            lemma_spread_grows(adj, before, m, v, adj[v].len() as int, 0);
        }
    }
}

/// The registers of a node and of its successors at one level are below
/// the registers of the node at the next.
pub proof fn lemma_level_grows(
    adj: Seq<Seq<usize>>,
    start: Seq<Seq<u64>>,
    m: nat,
    t: nat,
    u: int,
    i: int,
)
    requires
        table_shaped(adj, start, m),
        0 <= u < adj.len(),
    ensures
        below(level(adj, start, t)[u], level(adj, start, t + 1)[u]),
        0 <= i < adj[u].len() ==> below(
            level(adj, start, t)[adj[u][i] as int],
            level(adj, start, t + 1)[u],
        ),
{
    lemma_level_shaped(adj, start, m, t);
    lemma_spread_grows(adj, level(adj, start, t), m, u, adj[u].len() as int, i);
}

/// Merging what is below changes nothing.
pub proof fn lemma_merge_below(a: Seq<u64>, b: Seq<u64>)
    requires
        below(b, a),
    ensures
        registers_max(a, b) == a,
{
    assert(registers_max(a, b) =~= a);
}

/// Being below carries over.
pub proof fn lemma_below_twice(a: Seq<u64>, b: Seq<u64>, c: Seq<u64>)
    requires
        below(a, b),
        below(b, c),
    ensures
        below(a, c),
{
}

/// Where no successor of a node has other registers at a level than at
/// the level before, the node has the same registers at the next level.
pub proof fn lemma_level_rests(adj: Seq<Seq<usize>>, start: Seq<Seq<u64>>, m: nat, t: nat, u: int)
    requires
        table_shaped(adj, start, m),
        0 <= u < adj.len(),
        t >= 1,
        forall|i: int|
            0 <= i < adj[u].len() ==> level(adj, start, t)[(#[trigger] adj[u][i]) as int] == level(
                adj,
                start,
                (t - 1) as nat,
            )[adj[u][i] as int],
    ensures
        level(adj, start, t + 1)[u] == level(adj, start, t)[u],
{
    lemma_level_shaped(adj, start, m, t);
    lemma_rests_upto(adj, start, m, t, u, adj[u].len() as int);
}

/// The same for the first `k` successors.
proof fn lemma_rests_upto(
    adj: Seq<Seq<usize>>,
    start: Seq<Seq<u64>>,
    m: nat,
    t: nat,
    u: int,
    k: int,
)
    requires
        table_shaped(adj, start, m),
        0 <= u < adj.len(),
        t >= 1,
        0 <= k <= adj[u].len(),
        forall|i: int|
            0 <= i < adj[u].len() ==> level(adj, start, t)[(#[trigger] adj[u][i]) as int] == level(
                adj,
                start,
                (t - 1) as nat,
            )[adj[u][i] as int],
    ensures
        spread(adj[u], level(adj, start, t), u, k) == level(adj, start, t)[u],
    decreases k,
{
    if k > 0 {
        lemma_rests_upto(adj, start, m, t, u, k - 1);
        let v = adj[u][k - 1] as int;
        assert(adj[u][k - 1] < adj.len());
        lemma_level_grows(adj, start, m, (t - 1) as nat, u, k - 1);
        assert(level(adj, start, t)[adj[u][k - 1] as int] == level(adj, start, (t - 1) as nat)[v]);
        lemma_merge_below(level(adj, start, t)[u], level(adj, start, t)[v]);
    }
}

/// Every register of a node merged with its first `k` successors is the
/// register of the node or of one of these successors: the result says
/// which, with -1 for the node itself.
pub proof fn lemma_spread_attained(
    adj: Seq<Seq<usize>>,
    table: Seq<Seq<u64>>,
    m: nat,
    u: int,
    k: int,
    j: int,
) -> (i: int)
    requires
        table_shaped(adj, table, m),
        0 <= u < adj.len(),
        0 <= k <= adj[u].len(),
        0 <= j < m,
    ensures
        -1 <= i < k,
        i == -1 ==> spread(adj[u], table, u, k)[j] == table[u][j],
        i >= 0 ==> spread(adj[u], table, u, k)[j] == table[adj[u][i] as int][j],
    decreases k,
{
    if k <= 0 {
        -1
    } else {
        let before = lemma_spread_attained(adj, table, m, u, k - 1, j);
        lemma_spread_grows(adj, table, m, u, k - 1, 0);
        let v = adj[u][k - 1] as int;
        assert(adj[u][k - 1] < adj.len());
        assert(table[v].len() == m);
        if spread(adj[u], table, u, k - 1)[j] >= table[v][j] {
            before
        } else {
            k - 1
        }
    }
}

/// The registers of a node at level `t` are at least the registers that
/// every node within `t` arcs of it started with.
pub proof fn lemma_ball_below(
    adj: Seq<Seq<usize>>,
    start: Seq<Seq<u64>>,
    m: nat,
    t: nat,
    u: int,
    v: int,
)
    requires
        table_shaped(adj, start, m),
        within(adj, u, v, t as int),
    ensures
        below(start[v], level(adj, start, t)[u]),
    decreases t,
{
    lemma_within_none(adj, u, v, t as int);
    if t > 0 {
        if u == v {
            lemma_within_itself(adj, u, t - 1);
            lemma_ball_below(adj, start, m, (t - 1) as nat, u, v);
            lemma_level_grows(adj, start, m, (t - 1) as nat, u, 0);
            lemma_below_twice(
                start[v],
                level(adj, start, (t - 1) as nat)[u],
                level(adj, start, t)[u],
            );
        } else {
            let i = lemma_within_first_arc(adj, u, v, t as int);
            let s = adj[u][i] as int;
            lemma_ball_below(adj, start, m, (t - 1) as nat, s, v);
            lemma_level_grows(adj, start, m, (t - 1) as nat, u, i);
            lemma_below_twice(
                start[v],
                level(adj, start, (t - 1) as nat)[s],
                level(adj, start, t)[u],
            );
        }
    } else {
        assert(start[v].len() == m);
    }
}

/// Every register of a node at level `t` is the register that a node
/// within `t` arcs of it started with.
pub proof fn lemma_ball_attained(
    adj: Seq<Seq<usize>>,
    start: Seq<Seq<u64>>,
    m: nat,
    t: nat,
    u: int,
    j: int,
) -> (v: int)
    requires
        table_shaped(adj, start, m),
        0 <= u < adj.len(),
        0 <= j < m,
    ensures
        within(adj, u, v, t as int),
        level(adj, start, t)[u][j] == start[v][j],
    decreases t,
{
    if t == 0 {
        lemma_within_itself(adj, u, 0);
        u
    } else {
        let before = level(adj, start, (t - 1) as nat);
        lemma_level_shaped(adj, start, m, (t - 1) as nat);
        let i = lemma_spread_attained(adj, before, m, u, adj[u].len() as int, j);
        if i < 0 {
            let v = lemma_ball_attained(adj, start, m, (t - 1) as nat, u, j);
            lemma_within_more(adj, u, v, t - 1, t as int);
            v
        } else {
            let s = adj[u][i] as int;
            assert(adj[u][i] < adj.len());
            let v = lemma_ball_attained(adj, start, m, (t - 1) as nat, s, j);
            assert(has_arc(adj, u, adj[u][i] as int));
            lemma_within_prepend(adj, u, s, v, t - 1);
            v
        }
    }
}

} // verus!
