use webgraph_algo::algo::exact_sum_sweep::computer::{DirExactSumSweepComputer, Output};
use webgraph_algo::algo::hyperball::HyperBallBuilder;
use webgraph_algo::graph::Graph;
use webgraph_algo::utils::cumulative_outdegree::CumulativeOutdegree;
use webgraph_algo::utils::hyper_log_log::counter_array::{
    HyperLogLogCounterArrayBuilder, DEFAULT_LOG_2_NUM_REGISTERS,
};

fn filled(registers: &[u64]) -> usize {
    registers.iter().filter(|&&value| value != 0).count()
}

#[test]
fn a_new_counter_builder_builds() {
    let counters = HyperLogLogCounterArrayBuilder::new().build(3).unwrap();
    assert_eq!(DEFAULT_LOG_2_NUM_REGISTERS, 6);
    assert_eq!(counters.log_2_num_registers(), 6);
    assert_eq!(counters.num_registers(), 64);
    assert_eq!(counters.register_size(), 5);
    assert_eq!(counters.words_per_counter(), 5);
    assert_eq!(counters.len(), 3);
    let wide = HyperLogLogCounterArrayBuilder::default()
        .num_elements_upper_bound(usize::MAX)
        .build(2)
        .unwrap();
    assert_eq!(wide.register_size(), 6);
    assert_eq!(wide.words_per_counter(), 6);
}

#[test]
fn a_new_hyperball_builder_builds() {
    let graph = Graph::from_arcs(4, &[(0, 1), (1, 2), (2, 3)]).unwrap();
    let cumulative = CumulativeOutdegree::new(&graph);
    let mut hyperball = HyperBallBuilder::new(&graph, &cumulative).build().unwrap();
    hyperball.run_until_done();
    assert_eq!(hyperball.current_register_values(0).len(), 64);
    // node 0 reaches every node, node 3 itself only
    assert_eq!(filled(&hyperball.current_register_values(3)), 1);
    assert!(filled(&hyperball.current_register_values(0)) >= 2);
}

#[test]
fn init_adds_to_a_counter_as_many_elements_as_the_node_weighs() {
    let graph = Graph::from_arcs(4, &[(0, 1), (1, 2), (2, 3)]).unwrap();
    let cumulative = CumulativeOutdegree::new(&graph);
    let weights: Vec<usize> = vec![0, 1, 5, 400];
    let mut hyperball = HyperBallBuilder::new(&graph, &cumulative)
        .weights(Some(&weights))
        .build()
        .unwrap();
    hyperball.init();
    assert_eq!(filled(&hyperball.current_register_values(0)), 0);
    assert_eq!(filled(&hyperball.current_register_values(1)), 1);
    let five = filled(&hyperball.current_register_values(2));
    assert!(1 <= five && five <= 5);
    // 400 elements leave few of 64 registers empty
    assert!(filled(&hyperball.current_register_values(3)) > 32);
    for node in 0..4 {
        assert!(hyperball.is_modified(node));
        assert_eq!(filled(&hyperball.previous_register_values(node)), 0);
    }
    assert_eq!(hyperball.iteration(), 0);
}

#[test]
fn init_empties_both_arrays() {
    let graph = Graph::from_arcs(3, &[(0, 1), (1, 2), (2, 0)]).unwrap();
    let cumulative = CumulativeOutdegree::new(&graph);
    let mut hyperball = HyperBallBuilder::new(&graph, &cumulative).build().unwrap();
    hyperball.run_until_done();
    assert!(hyperball.iteration() > 0);
    // after a run both arrays hold what the nodes reach
    assert!(filled(&hyperball.previous_register_values(0)) >= 2);
    hyperball.init();
    assert_eq!(hyperball.iteration(), 0);
    for node in 0..3 {
        assert_eq!(filled(&hyperball.current_register_values(node)), 1);
        assert_eq!(filled(&hyperball.previous_register_values(node)), 0);
    }
}

#[test]
fn add_marks_a_cached_counter_where_a_register_rises() {
    let mut counters = HyperLogLogCounterArrayBuilder::new().build(2).unwrap();
    let mut plain = counters.get_counter(0);
    plain.add(&mut counters, 7);
    assert!(!plain.is_changed());

    let mut cached = counters.get_counter(0);
    cached.cache(&counters);
    assert!(!cached.is_changed());
    // the element is in the counter already: no register rises
    cached.add(&mut counters, 7);
    assert!(!cached.is_changed());
    let before = counters.as_slice().to_vec();
    let mut element = 8;
    while !cached.is_changed() {
        cached.add(&mut counters, element);
        element += 1;
        assert!(element < 1000);
    }
    assert_eq!(counters.as_slice(), before.as_slice());
    let held = cached.register_values(&counters);
    cached.commit_changes(&mut counters, false);
    assert!(!cached.is_cached());
    assert_ne!(counters.as_slice(), before.as_slice());
    assert_eq!(counters.get_counter(0).register_values(&counters), held);
}

#[test]
fn radial_vertices_of_a_graph_without_nodes() {
    let graph = Graph::new(0);
    let mut computer =
        DirExactSumSweepComputer::new(&graph, &graph, Output::All, None).unwrap();
    computer.compute_radial_vertices();
    assert_eq!(computer.num_nodes(), 0);
    assert_eq!(computer.iterations(), 0);
}
