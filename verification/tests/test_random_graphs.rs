use webgraph_algo::algo::acyclicity;
use webgraph_algo::algo::exact_sum_sweep::scc_graph::SccGraph;
use webgraph_algo::algo::hyperball::HyperBallBuilder;
use webgraph_algo::algo::sccs::symm_seq::SymmSeq;
use webgraph_algo::algo::sccs::tarjan::tarjan;
use webgraph_algo::algo::top_sort;
use webgraph_algo::algo::visits::breadth_first::SingleThreadedBreadthFirstVisit;
use webgraph_algo::algo::visits::parallel_fast_cb::ParallelBreadthFirstVisitFastCBBuilder;
use webgraph_algo::graph::Graph;
use webgraph_algo::utils::cumulative_outdegree::CumulativeOutdegree;
use webgraph_algo::utils::hyper_log_log::counter_array::HyperLogLogCounterArrayBuilder;

/// A source of numbers that gives the same numbers in every run.
struct Numbers(u64);

impl Numbers {
    fn next(&mut self) -> u64 {
        self.0 ^= self.0 << 13;
        self.0 ^= self.0 >> 7;
        self.0 ^= self.0 << 17;
        self.0
    }

    /// The arcs of a graph on `n` nodes in which an arc stands with the
    /// given chance in a hundred.
    fn arcs(&mut self, n: usize, percent: u64) -> Vec<(usize, usize)> {
        let mut arcs = Vec::new();
        for u in 0..n {
            for v in 0..n {
                if self.next() % 100 < percent {
                    arcs.push((u, v));
                }
            }
        }
        arcs
    }
}

/// For every pair of nodes whether the first reaches the second.
fn reachability(n: usize, arcs: &[(usize, usize)]) -> Vec<Vec<bool>> {
    let mut reach = vec![vec![false; n]; n];
    for u in 0..n {
        reach[u][u] = true;
    }
    for &(u, v) in arcs {
        reach[u][v] = true;
    }
    for k in 0..n {
        for u in 0..n {
            for v in 0..n {
                if reach[u][k] && reach[k][v] {
                    reach[u][v] = true;
                }
            }
        }
    }
    reach
}

/// The distances from `root` by repeated relaxation.
fn distances(n: usize, arcs: &[(usize, usize)], root: usize) -> Vec<Option<usize>> {
    let mut dist = vec![None; n];
    dist[root] = Some(0);
    for _ in 0..n {
        for &(u, v) in arcs {
            if let Some(d) = dist[u] {
                if dist[v].map_or(true, |old| old > d + 1) {
                    dist[v] = Some(d + 1);
                }
            }
        }
    }
    dist
}

#[test]
fn visits_find_the_distances_on_random_graphs() {
    let mut numbers = Numbers(0x1234_5678_9ABC_DEF1);
    for round in 0..60 {
        let n = 1 + round % 17;
        let arcs = numbers.arcs(n, 4 + (round as u64 % 7) * 5);
        let graph = Graph::from_arcs(n, &arcs).unwrap();
        let root = (numbers.next() % n as u64) as usize;
        let expected = distances(n, &arcs, root);
        let mut visit = SingleThreadedBreadthFirstVisit::new(&graph);
        visit.distances_from(root);
        let found: Vec<Option<usize>> = (0..n).map(|v| visit.distance(v)).collect();
        assert_eq!(found, expected);
        // the visit by levels tells the same distances
        let mut levels = ParallelBreadthFirstVisitFastCBBuilder::new(&graph).build();
        let told = std::cell::RefCell::new(vec![None; n]);
        let completed = levels.visit_from_node(
            root,
            &|e| {
                if let webgraph_algo::algo::visits::breadth_first::Event::Unknown {
                    curr,
                    distance,
                    ..
                } = e
                {
                    assert!(told.borrow()[curr].is_none());
                    told.borrow_mut()[curr] = Some(distance);
                }
                true
            },
            &|_| true,
        );
        assert!(completed);
        assert_eq!(told.into_inner(), expected);
        for v in 0..n {
            assert_eq!(levels.is_visited(v), expected[v].is_some());
        }
    }
}

#[test]
fn acyclicity_and_top_sort_on_random_graphs() {
    let mut numbers = Numbers(0x0F0F_1234_ABCD_9876);
    for round in 0..60 {
        let n = 1 + round % 13;
        let mut arcs = numbers.arcs(n, 6 + (round as u64 % 5) * 6);
        if round % 2 == 0 {
            // keep the arcs that lead to a larger node: there is no cycle
            arcs.retain(|&(u, v)| u < v);
        }
        let graph = Graph::from_arcs(n, &arcs).unwrap();
        let reach = reachability(n, &arcs);
        let cyclic = arcs.iter().any(|&(u, v)| reach[v][u]);
        assert_eq!(acyclicity::run(&graph), !cyclic);
        let order = top_sort::run(&graph);
        let mut sorted = order.clone();
        sorted.sort();
        assert_eq!(sorted, (0..n).collect::<Vec<usize>>());
        if !cyclic {
            let place = |v: usize| order.iter().position(|&x| x == v).unwrap();
            for &(u, v) in arcs.iter() {
                assert!(place(u) < place(v));
            }
        }
    }
}

#[test]
fn components_and_their_graph_on_random_graphs() {
    let mut numbers = Numbers(0xDEAD_BEEF_0BAD_F00D);
    for round in 0..50 {
        let n = 1 + round % 14;
        let arcs = numbers.arcs(n, 5 + (round as u64 % 6) * 4);
        let graph = Graph::from_arcs(n, &arcs).unwrap();
        let transpose = graph.transpose();
        let reach = reachability(n, &arcs);
        let sccs = tarjan(&graph);
        let component = sccs.component().clone();
        for u in 0..n {
            for v in 0..n {
                assert_eq!(component[u] == component[v], reach[u][v] && reach[v][u]);
            }
        }
        for &(u, v) in arcs.iter() {
            assert!(component[u] <= component[v]);
        }
        let scc_graph = SccGraph::new(&graph, &transpose, &sccs);
        for c in 0..sccs.num_components() {
            let children = scc_graph.children(c);
            for (i, x) in children.iter().enumerate() {
                assert_eq!(component[x.start], c);
                assert_eq!(component[x.end], x.target);
                assert_ne!(x.target, c);
                assert!(graph.successors(x.start).contains(&x.end));
                assert!(children[..i].iter().all(|y| y.target != x.target));
                let value = transpose.outdegree(x.start) + graph.outdegree(x.end);
                for &(u, v) in arcs.iter() {
                    if component[u] == c && component[v] == x.target {
                        assert!(transpose.outdegree(u) + graph.outdegree(v) <= value);
                    }
                }
            }
            for &(u, v) in arcs.iter() {
                if component[u] == c && component[v] != c {
                    assert!(children.iter().any(|x| x.target == component[v]));
                }
            }
        }
        // the connected components of the graph with every arc both ways
        let mut both = arcs.clone();
        both.extend(arcs.iter().map(|&(u, v)| (v, u)));
        let symmetric = Graph::from_arcs(n, &both).unwrap();
        let joined = reachability(n, &both);
        let connected = SymmSeq::compute(&symmetric);
        for u in 0..n {
            for v in 0..n {
                assert_eq!(
                    connected.component()[u] == connected.component()[v],
                    joined[u][v]
                );
            }
        }
    }
}

#[test]
fn hyperball_counters_are_the_balls_on_random_graphs() {
    let mut numbers = Numbers(0x5151_5151_A0A0_0A0A);
    for round in 0..25 {
        let n = 2 + round % 23;
        let arcs = numbers.arcs(n, 3 + (round as u64 % 4) * 3);
        let graph = Graph::from_arcs(n, &arcs).unwrap();
        let transpose = graph.transpose();
        let cumulative = CumulativeOutdegree::new(&graph);
        let settings = HyperLogLogCounterArrayBuilder::new()
            .log_2_num_registers(6)
            .num_elements_upper_bound(n);
        let builder = HyperBallBuilder::new(&graph, &cumulative).hyperloglog_settings(settings);
        let mut hyperball = if round % 2 == 0 {
            builder.transposed(Some(&transpose)).build().unwrap()
        } else {
            builder.build().unwrap()
        };
        hyperball.init();
        let own: Vec<Vec<u64>> = (0..n).map(|v| hyperball.current_register_values(v)).collect();
        for t in 1..=n {
            let before: Vec<Vec<u64>> =
                (0..n).map(|v| hyperball.current_register_values(v)).collect();
            hyperball.iterate();
            for u in 0..n {
                // the registers of the nodes within t arcs, merged
                let near = distances(n, &arcs, u);
                let mut expected = vec![0u64; 64];
                for v in 0..n {
                    if near[v].map_or(false, |d| d <= t) {
                        for (slot, &value) in own[v].iter().enumerate() {
                            expected[slot] = expected[slot].max(value);
                        }
                    }
                }
                let now = hyperball.current_register_values(u);
                assert_eq!(now, expected);
                assert!(before[u].iter().zip(now.iter()).all(|(a, b)| a <= b));
            }
        }
        assert_eq!(hyperball.iteration(), n);
    }
}
