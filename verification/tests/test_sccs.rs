use webgraph_algo::algo::exact_sum_sweep::scc_graph::{SccGraph, SccGraphConnection};
use webgraph_algo::algo::sccs::basic::BasicSccs;
use webgraph_algo::algo::sccs::kosaraju::kosaraju;
use webgraph_algo::algo::sccs::symm_seq::SymmSeq;
use webgraph_algo::algo::sccs::tarjan::tarjan;
use webgraph_algo::graph::Graph;

/// The graph with every arc of `arcs` turned round.
fn transposed(num_nodes: usize, arcs: &[(usize, usize)]) -> Graph {
    let reversed: Vec<(usize, usize)> = arcs.iter().map(|&(u, v)| (v, u)).collect();
    Graph::from_arcs(num_nodes, &reversed).unwrap()
}

const TWO_TRIANGLES: [(usize, usize); 7] = [(0, 1), (1, 2), (2, 0), (2, 3), (3, 4), (4, 5), (5, 3)];

#[test]
fn tarjan_on_two_triangles() {
    let graph = Graph::from_arcs(6, &TWO_TRIANGLES).unwrap();
    let sccs = tarjan(&graph);
    assert_eq!(sccs.num_components(), 2);
    // the triangle that closes first gets the largest index
    assert_eq!(sccs.component(), &vec![0, 0, 0, 1, 1, 1]);
    assert_eq!(sccs.compute_sizes(), vec![3, 3]);
    assert_eq!(sccs.component_of(4), 1);
    assert_eq!(sccs.num_nodes(), 6);
}

#[test]
fn tarjan_numbers_the_components_in_topological_order() {
    let arcs = [(3, 2), (2, 1), (1, 0), (0, 1), (4, 3), (3, 4), (5, 0), (2, 6), (6, 2)];
    let graph = Graph::from_arcs(7, &arcs).unwrap();
    let sccs = tarjan(&graph);
    let component = sccs.component();
    assert_eq!(sccs.num_components(), 4);
    for &(u, v) in arcs.iter() {
        assert!(component[u] <= component[v]);
    }
    assert_eq!(component[0], component[1]);
    assert_eq!(component[3], component[4]);
    assert_eq!(component[2], component[6]);
    assert_ne!(component[2], component[3]);
    assert_ne!(component[5], component[0]);
    let sizes = sccs.compute_sizes();
    assert_eq!(sizes.iter().sum::<usize>(), 7);
    assert!(sizes.iter().all(|&s| s > 0));
}

#[test]
fn components_of_a_graph_without_nodes() {
    let graph = Graph::new(0);
    assert_eq!(tarjan(&graph).num_components(), 0);
    assert_eq!(kosaraju(&graph, &graph).num_components(), 0);
    assert_eq!(SymmSeq::compute(&graph).num_components(), 0);
    assert!(tarjan(&graph).compute_sizes().is_empty());
}

#[test]
fn components_of_a_graph_without_arcs() {
    let graph = Graph::new(3);
    let sccs = tarjan(&graph);
    assert_eq!(sccs.num_components(), 3);
    assert_eq!(sccs.component(), &vec![2, 1, 0]);
    let sccs = kosaraju(&graph, &graph);
    assert_eq!(sccs.num_components(), 3);
    assert_eq!(sccs.compute_sizes(), vec![1, 1, 1]);
}

#[test]
fn kosaraju_on_two_triangles() {
    let graph = Graph::from_arcs(6, &TWO_TRIANGLES).unwrap();
    let transpose = transposed(6, &TWO_TRIANGLES);
    let sccs = kosaraju(&graph, &transpose);
    assert_eq!(sccs.num_components(), 2);
    assert_eq!(sccs.component(), &vec![0, 0, 0, 1, 1, 1]);
}

#[test]
fn kosaraju_and_tarjan_find_the_same_components() {
    let arcs = [
        (0, 1),
        (1, 2),
        (2, 0),
        (1, 3),
        (3, 4),
        (4, 5),
        (5, 3),
        (6, 5),
        (6, 7),
        (7, 6),
        (8, 8),
        (9, 0),
    ];
    let graph = Graph::from_arcs(10, &arcs).unwrap();
    let transpose = transposed(10, &arcs);
    let left = tarjan(&graph);
    let right = kosaraju(&graph, &transpose);
    assert_eq!(left.num_components(), 5);
    assert_eq!(right.num_components(), 5);
    for u in 0..10 {
        for v in 0..10 {
            assert_eq!(
                left.component_of(u) == left.component_of(v),
                right.component_of(u) == right.component_of(v)
            );
        }
    }
    for &(u, v) in arcs.iter() {
        assert!(left.component_of(u) <= left.component_of(v));
        assert!(right.component_of(u) <= right.component_of(v));
    }
}

#[test]
fn symm_seq_finds_the_connected_components() {
    let arcs = [(0, 1), (1, 0), (1, 2), (2, 1), (3, 4), (4, 3)];
    let graph = Graph::from_arcs(6, &arcs).unwrap();
    let sccs = SymmSeq::compute(&graph);
    assert_eq!(sccs.num_components(), 3);
    assert_eq!(sccs.component(), &vec![0, 0, 0, 1, 1, 2]);
    let with_t = SymmSeq::compute_with_t(&graph, &graph);
    assert_eq!(with_t.component(), sccs.component());
}

#[test]
fn basic_sccs_counts_the_sizes() {
    let sccs = BasicSccs::new(3, vec![0, 0, 0, 1, 2, 2, 1, 2, 0, 0]);
    assert_eq!(sccs.compute_sizes(), vec![5, 2, 3]);
    assert_eq!(sccs.num_components(), 3);
    assert_eq!(sccs.into_component(), vec![0, 0, 0, 1, 2, 2, 1, 2, 0, 0]);
}

#[test]
fn scc_graph_keeps_one_bridge_per_pair_of_components() {
    let arcs = [(0, 1), (1, 0), (0, 2), (1, 2), (1, 3), (2, 3), (3, 2), (1, 4), (4, 4), (3, 4)];
    let graph = Graph::from_arcs(5, &arcs).unwrap();
    let transpose = transposed(5, &arcs);
    let sccs = tarjan(&graph);
    assert_eq!(sccs.num_components(), 3);
    let component = sccs.component().clone();
    let scc_graph = SccGraph::new(&graph, &transpose, &sccs);
    assert_eq!(scc_graph.num_components(), 3);
    let mut seen = Vec::new();
    for c in 0..3 {
        for &SccGraphConnection { target, start, end } in scc_graph.children(c) {
            assert_eq!(component[start], c);
            assert_eq!(component[end], target);
            assert_ne!(target, c);
            assert!(graph.successors(start).contains(&end));
            assert!(!seen.contains(&(c, target)));
            seen.push((c, target));
        }
    }
    seen.sort();
    let first = component[0];
    let second = component[2];
    let third = component[4];
    let mut expected = vec![(first, second), (first, third), (second, third)];
    expected.sort();
    assert_eq!(seen, expected);
    // among the arcs from {0, 1} to {2, 3}, the arc (1, 3) joins the node with
    // the most arcs coming in to the node with the most arcs going out
    let bridge = scc_graph
        .children(first)
        .iter()
        .find(|connection| connection.target == second)
        .unwrap();
    assert_eq!((bridge.start, bridge.end), (1, 3));
}

#[test]
fn kosaraju_with_the_transposed_graph_of_the_library() {
    let mut state: u64 = 0x9E3779B97F4A7C15;
    for round in 0..30 {
        let n = 1 + round % 11;
        let mut arcs = Vec::new();
        for u in 0..n {
            for v in 0..n {
                state ^= state << 13;
                state ^= state >> 7;
                state ^= state << 17;
                if state % 100 < 15 {
                    arcs.push((u, v));
                }
            }
        }
        let graph = Graph::from_arcs(n, &arcs).unwrap();
        let transpose = graph.transpose();
        let left = tarjan(&graph);
        let right = kosaraju(&graph, &transpose);
        assert_eq!(left.num_components(), right.num_components());
        // two nodes have one component where each reaches the other
        let mut reach = vec![vec![false; n]; n];
        for u in 0..n {
            reach[u][u] = true;
        }
        for &(u, v) in arcs.iter() {
            reach[u][v] = true;
        }
        for k in 0..n {
            for u in 0..n {
                for v in 0..n {
                    if reach[u][k] && reach[k][v] {
                        reach[u][v] = true;
                    }
                }
            }
        }
        for u in 0..n {
            for v in 0..n {
                let together = reach[u][v] && reach[v][u];
                assert_eq!(left.component_of(u) == left.component_of(v), together);
                assert_eq!(right.component_of(u) == right.component_of(v), together);
            }
        }
    }
}
