use webgraph_algo::algo::hyperball::{
    sorted_without_repeats, HyperBall, HyperBallBuilder, HyperBallError,
};
use webgraph_algo::graph::Graph;
use webgraph_algo::utils::cumulative_outdegree::CumulativeOutdegree;
use webgraph_algo::utils::hyper_log_log::counter_array::{
    HyperLogLogCounterArrayBuilder, HyperLogLogError,
};

/// The graph with every arc of `arcs` turned round.
fn reversed_graph(num_nodes: usize, arcs: &[(usize, usize)]) -> Graph {
    let reversed: Vec<(usize, usize)> = arcs.iter().map(|&(u, v)| (v, u)).collect();
    Graph::from_arcs(num_nodes, &reversed).unwrap()
}

fn deviation(log_2_num_registers: usize) -> f64 {
    let tmp = match log_2_num_registers {
        4 => 1.106,
        5 => 1.070,
        6 => 1.054,
        7 => 1.046,
        _ => 1.04,
    };
    tmp / ((1u64 << log_2_num_registers) as f64).sqrt()
}

/// The estimate of the number of distinct elements behind the registers.
fn estimate(registers: &[u64], log_2_num_registers: usize) -> f64 {
    let m = registers.len() as f64;
    let alpha = match log_2_num_registers {
        4 => 0.673,
        5 => 0.697,
        6 => 0.709,
        _ => 0.7213 / (1.0 + 1.079 / m),
    };
    let mut harmonic_mean = 0.0;
    let mut zeroes = 0;
    for &value in registers {
        if value == 0 {
            zeroes += 1;
        }
        harmonic_mean += 1.0 / (1u64 << value) as f64;
    }
    let mut estimate = alpha * m * m / harmonic_mean;
    if zeroes != 0 && estimate < 2.5 * m {
        estimate = m * (m / zeroes as f64).ln();
    }
    estimate
}

fn settings(log_2_num_registers: usize, num_elements: usize) -> HyperLogLogCounterArrayBuilder {
    HyperLogLogCounterArrayBuilder::new()
        .log_2_num_registers(log_2_num_registers)
        .num_elements_upper_bound(num_elements)
}

fn neighbourhood(hyperball: &HyperBall, log_2_num_registers: usize) -> f64 {
    (0..hyperball.num_nodes())
        .map(|v| estimate(&hyperball.current_register_values(v), log_2_num_registers))
        .sum()
}

/// The nodes that `root` reaches, itself among them.
fn reached_from(graph: &Graph, root: usize) -> Vec<usize> {
    let mut seen = vec![false; graph.num_nodes()];
    let mut stack = vec![root];
    seen[root] = true;
    while let Some(u) = stack.pop() {
        for &v in graph.successors(u) {
            if !seen[v] {
                seen[v] = true;
                stack.push(v);
            }
        }
    }
    (0..graph.num_nodes()).filter(|&v| seen[v]).collect()
}

#[test]
fn hyperball_on_a_line() {
    let arcs = [(0, 1), (1, 2), (2, 3), (3, 4)];
    let graph = Graph::from_arcs(5, &arcs).unwrap();
    let cumulative = CumulativeOutdegree::new(&graph);
    let mut hyperball = HyperBallBuilder::new(&graph, &cumulative)
        .hyperloglog_settings(settings(6, 5))
        .build()
        .unwrap();
    hyperball.init();
    let rsd = deviation(6);
    let mut last = neighbourhood(&hyperball, 6);
    assert!((last - 5.0).abs() / 5.0 < 2.0 * rsd);
    for _ in 0..5 {
        hyperball.iterate();
        let next = neighbourhood(&hyperball, 6);
        assert!(next >= last);
        last = next;
    }
    assert!((last - 15.0).abs() / 15.0 < 2.0 * rsd);
    let first = estimate(&hyperball.current_register_values(0), 6);
    let end = estimate(&hyperball.current_register_values(4), 6);
    assert!((first - 5.0).abs() / 5.0 < 2.0 * rsd);
    assert!((end - 1.0).abs() < 2.0 * rsd);
    assert_eq!(hyperball.iteration(), 5);
}

#[test]
fn hyperball_stops_when_nothing_changes() {
    let arcs = [(0, 1), (1, 2), (2, 3), (3, 4)];
    let graph = Graph::from_arcs(5, &arcs).unwrap();
    let cumulative = CumulativeOutdegree::new(&graph);
    let mut hyperball = HyperBallBuilder::new(&graph, &cumulative)
        .hyperloglog_settings(settings(6, 5))
        .build()
        .unwrap();
    hyperball.run_until_stable(5);
    assert_eq!(hyperball.iteration(), 5);
    assert_eq!(hyperball.modified_counters(), 0);
    hyperball.run_until_stable(2);
    assert_eq!(hyperball.iteration(), 2);
    assert!(hyperball.modified_counters() > 0);
    hyperball.run_until_done();
    assert_eq!(hyperball.iteration(), 5);
}

#[test]
fn hyperball_counters_hold_what_the_node_reaches() {
    let arcs = [
        (0, 1),
        (1, 2),
        (2, 0),
        (1, 3),
        (3, 4),
        (4, 5),
        (5, 3),
        (6, 5),
        (6, 7),
        (7, 6),
        (8, 8),
        (9, 0),
    ];
    let graph = Graph::from_arcs(10, &arcs).unwrap();
    let cumulative = CumulativeOutdegree::new(&graph);
    let mut hyperball = HyperBallBuilder::new(&graph, &cumulative)
        .hyperloglog_settings(settings(8, 10))
        .build()
        .unwrap();
    hyperball.init();
    let own: Vec<Vec<u64>> = (0..10).map(|v| hyperball.current_register_values(v)).collect();
    hyperball.run_until_done();
    for v in 0..10 {
        let mut expected = vec![0u64; 256];
        for w in reached_from(&graph, v) {
            for (slot, &value) in own[w].iter().enumerate() {
                expected[slot] = expected[slot].max(value);
            }
        }
        assert_eq!(hyperball.current_register_values(v), expected);
    }
}

#[test]
fn hyperball_registers_never_fall() {
    let arcs = [(0, 1), (1, 2), (2, 3), (3, 0), (3, 4), (4, 5), (5, 6), (6, 4), (7, 0)];
    let graph = Graph::from_arcs(8, &arcs).unwrap();
    let cumulative = CumulativeOutdegree::new(&graph);
    let mut hyperball = HyperBallBuilder::new(&graph, &cumulative)
        .hyperloglog_settings(settings(6, 8))
        .build()
        .unwrap();
    hyperball.init();
    let mut last: Vec<Vec<u64>> = (0..8).map(|v| hyperball.current_register_values(v)).collect();
    for _ in 0..8 {
        hyperball.iterate();
        let next: Vec<Vec<u64>> = (0..8).map(|v| hyperball.current_register_values(v)).collect();
        for v in 0..8 {
            assert!(last[v].iter().zip(next[v].iter()).all(|(a, b)| a <= b));
        }
        last = next;
    }
}

#[test]
fn hyperball_with_a_transposed_graph_gives_the_same_counters() {
    // a path of ten nodes that leads into thirty nodes with all arcs
    // between them: in the end few counters change and there are many arcs
    let mut arcs = Vec::new();
    for v in 0..10 {
        arcs.push((v, v + 1));
    }
    for u in 10..40 {
        for v in 10..40 {
            if u != v {
                arcs.push((u, v));
            }
        }
    }
    let graph = Graph::from_arcs(40, &arcs).unwrap();
    let transpose = reversed_graph(40, &arcs);
    let cumulative = CumulativeOutdegree::new(&graph);
    let mut plain = HyperBallBuilder::new(&graph, &cumulative)
        .hyperloglog_settings(settings(6, 40))
        .build()
        .unwrap();
    let mut systolic = HyperBallBuilder::new(&graph, &cumulative)
        .transposed(Some(&transpose))
        .hyperloglog_settings(settings(6, 40))
        .granularity(3)
        .num_threads(2)
        .build()
        .unwrap();
    plain.init();
    systolic.init();
    let mut saw_systolic = false;
    let mut saw_local = false;
    for _ in 0..40 {
        plain.iterate();
        systolic.iterate();
        saw_systolic |= systolic.is_systolic();
        saw_local |= systolic.is_local();
        assert!(!plain.is_systolic() && !plain.is_local() && !plain.is_pre_local());
        assert_eq!(plain.modified_counters(), systolic.modified_counters());
        for v in 0..40 {
            assert_eq!(
                plain.current_register_values(v),
                systolic.current_register_values(v)
            );
        }
    }
    assert!(saw_systolic);
    assert!(saw_local);
    assert_eq!(plain.modified_counters(), 0);
}

#[test]
fn hyperball_on_a_graph_without_nodes() {
    let graph = Graph::new(0);
    let cumulative = CumulativeOutdegree::new(&graph);
    let mut hyperball = HyperBallBuilder::new(&graph, &cumulative)
        .hyperloglog_settings(settings(6, 1))
        .build()
        .unwrap();
    hyperball.run_until_done();
    assert_eq!(hyperball.iteration(), 0);
    assert_eq!(hyperball.num_nodes(), 0);
    hyperball.run_until_stable(10);
    assert_eq!(hyperball.iteration(), 0);
}

#[test]
fn hyperball_on_a_single_node_with_a_loop() {
    let graph = Graph::from_arcs(1, &[(0, 0)]).unwrap();
    let cumulative = CumulativeOutdegree::new(&graph);
    let mut hyperball = HyperBallBuilder::new(&graph, &cumulative)
        .hyperloglog_settings(settings(6, 1))
        .build()
        .unwrap();
    hyperball.run_until_done();
    let count = estimate(&hyperball.current_register_values(0), 6);
    assert!((count - 1.0).abs() < 2.0 * deviation(6));
    assert_eq!(count.round(), 1.0);
    assert_eq!(hyperball.iteration(), 1);
    assert_eq!(hyperball.modified_counters(), 0);
}

#[test]
fn hyperball_refuses_what_does_not_fit_the_graph() {
    let arcs = [(0, 1), (1, 2)];
    let graph = Graph::from_arcs(3, &arcs).unwrap();
    let other = Graph::from_arcs(3, &[(0, 1)]).unwrap();
    let cumulative = CumulativeOutdegree::new(&graph);
    let foreign = CumulativeOutdegree::new(&other);
    let weights = vec![1usize, 2];
    assert_eq!(
        HyperBallBuilder::new(&graph, &cumulative)
            .transposed(Some(&other))
            .build()
            .err(),
        Some(HyperBallError::MismatchedTranspose)
    );
    assert_eq!(
        HyperBallBuilder::new(&graph, &cumulative)
            .weights(Some(&weights))
            .build()
            .err(),
        Some(HyperBallError::MismatchedWeights)
    );
    assert_eq!(
        HyperBallBuilder::new(&graph, &foreign).build().err(),
        Some(HyperBallError::MismatchedCumulativeOutdegree)
    );
    assert_eq!(
        HyperBallBuilder::new(&graph, &cumulative)
            .hyperloglog_settings(settings(3, 3))
            .build()
            .err(),
        Some(HyperBallError::Counters(HyperLogLogError::TooFewRegisters))
    );
    assert_eq!(
        HyperBallBuilder::new(&graph, &cumulative)
            .hyperloglog_settings(settings(4, 3))
            .build()
            .err(),
        Some(HyperBallError::Counters(HyperLogLogError::Misaligned))
    );
}

#[test]
fn hyperball_with_weights_adds_as_many_elements_as_a_node_weighs() {
    let graph = Graph::new(3);
    let cumulative = CumulativeOutdegree::new(&graph);
    let weights = vec![0usize, 1, 40];
    let mut hyperball = HyperBallBuilder::new(&graph, &cumulative)
        .weights(Some(&weights))
        .hyperloglog_settings(settings(8, 64))
        .build()
        .unwrap();
    hyperball.init();
    let filled = |v: usize| {
        hyperball
            .current_register_values(v)
            .iter()
            .filter(|&&x| x != 0)
            .count()
    };
    assert_eq!(filled(0), 0);
    assert_eq!(filled(1), 1);
    assert!(filled(2) > 20 && filled(2) <= 40);
}

#[test]
fn sorted_without_repeats_sorts_and_drops_repeats() {
    assert_eq!(
        sorted_without_repeats(vec![5, 3, 9, 3, 0, 5, 5, 1]),
        vec![0, 1, 3, 5, 9]
    );
    assert_eq!(sorted_without_repeats(Vec::new()), Vec::<usize>::new());
    assert_eq!(sorted_without_repeats(vec![2, 2, 2]), vec![2]);
}

#[test]
fn hyperball_errors_say_what_is_wrong() {
    assert_eq!(
        HyperBallError::MismatchedWeights.message(),
        "there is not one weight per node"
    );
    assert_eq!(
        HyperBallError::Counters(HyperLogLogError::Misaligned).message(),
        HyperLogLogError::Misaligned.message()
    );
    assert!(HyperBallError::MismatchedTranspose.message().contains("transposed"));
    assert!(HyperBallError::MismatchedCumulativeOutdegree.message().contains("out-degrees"));
}
