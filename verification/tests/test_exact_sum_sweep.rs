use webgraph_algo::algo::exact_sum_sweep::computer::{
    DirExactSumSweepComputer, Output, SumSweepError,
};
use webgraph_algo::graph::Graph;

/// The graph with every arc of `arcs` turned round.
fn turned_round(num_nodes: usize, arcs: &[(usize, usize)]) -> Graph {
    let reversed: Vec<(usize, usize)> = arcs.iter().map(|&(u, v)| (v, u)).collect();
    Graph::from_arcs(num_nodes, &reversed).unwrap()
}

/// The position of the first largest score.
fn best_move(points: &[f64; 5]) -> usize {
    let mut best = 0;
    for i in 1..5 {
        if points[i] > points[best] {
            best = i;
        }
    }
    best
}

/// Runs the computation to its end: after the start, the move that has
/// settled the most bounds of late is made until no bound is open, and
/// after every move the bounds are checked to be in order.
fn compute(computer: &mut DirExactSumSweepComputer) {
    let n = computer.num_nodes();
    if n == 0 {
        return;
    }
    computer.begin();
    check_bounds(computer);
    let mut points = [n as f64; 5];
    let mut missing = computer.find_missing_nodes();
    let mut rounds = 0;
    while missing > 0 {
        let step = best_move(&points);
        computer.perform_move(step);
        check_bounds(computer);
        let old_missing = missing;
        missing = computer.find_missing_nodes();
        points[step] = (old_missing - missing) as f64;
        for i in 0..5 {
            if i != step && points[i] >= 0.0 {
                points[i] += 2.0 / computer.iterations() as f64;
            }
        }
        rounds += 1;
        assert!(rounds < 1000);
    }
}

fn check_bounds(computer: &DirExactSumSweepComputer) {
    for v in 0..computer.num_nodes() {
        let (low, high) = computer.forward_bounds(v);
        assert!(low <= high);
        let (low, high) = computer.backward_bounds(v);
        assert!(low <= high);
    }
}

/// The largest distance from `root` to a node that it reaches.
fn eccentricity(graph: &Graph, root: usize) -> usize {
    let n = graph.num_nodes();
    let mut distance = vec![usize::MAX; n];
    let mut queue = vec![root];
    distance[root] = 0;
    let mut head = 0;
    let mut largest = 0;
    while head < queue.len() {
        let u = queue[head];
        head += 1;
        for &v in graph.successors(u) {
            if distance[v] == usize::MAX {
                distance[v] = distance[u] + 1;
                largest = distance[v];
                queue.push(v);
            }
        }
    }
    largest
}

fn check_against_visits(num_nodes: usize, arcs: &[(usize, usize)]) {
    let graph = Graph::from_arcs(num_nodes, arcs).unwrap();
    let transpose = turned_round(num_nodes, arcs);
    let mut computer =
        DirExactSumSweepComputer::new(&graph, &transpose, Output::All, None).unwrap();
    compute(&mut computer);
    let mut diameter = 0;
    let mut radius = usize::MAX;
    for v in 0..num_nodes {
        let forward = eccentricity(&graph, v);
        let backward = eccentricity(&transpose, v);
        assert_eq!(computer.forward_bounds(v), (forward, forward));
        assert_eq!(computer.backward_bounds(v), (backward, backward));
        diameter = diameter.max(forward);
        if computer.is_radial(v) {
            radius = radius.min(forward);
        }
    }
    assert_eq!(computer.diameter().0, diameter);
    assert_eq!(computer.radius().0, radius);
    let (radius, witness) = computer.radius();
    assert!(computer.is_radial(witness));
    assert_eq!(eccentricity(&graph, witness), radius);
    // the witness of the diameter is the start of a forward or backward visit
    let (diameter, witness) = computer.diameter();
    assert!(
        eccentricity(&graph, witness) == diameter || eccentricity(&transpose, witness) == diameter
    );
}

#[test]
fn sum_sweep_on_a_directed_cycle() {
    let arcs = [(0, 1), (1, 2), (2, 3), (3, 4), (4, 0)];
    let graph = Graph::from_arcs(5, &arcs).unwrap();
    let transpose = turned_round(5, &arcs);
    let mut computer =
        DirExactSumSweepComputer::new(&graph, &transpose, Output::All, None).unwrap();
    compute(&mut computer);
    assert_eq!(computer.radius().0, 4);
    assert_eq!(computer.diameter().0, 4);
    for v in 0..5 {
        assert_eq!(computer.forward_bounds(v), (4, 4));
        assert_eq!(computer.backward_bounds(v), (4, 4));
        assert!(computer.is_radial(v));
    }
    assert_eq!(computer.sccs().num_components(), 1);
    assert_eq!(computer.scc_graph().num_components(), 1);
    assert!(computer.scc_graph().children(0).is_empty());
}

#[test]
fn sum_sweep_on_a_graph_without_nodes() {
    let graph = Graph::new(0);
    let mut computer =
        DirExactSumSweepComputer::new(&graph, &graph, Output::All, None).unwrap();
    compute(&mut computer);
    computer.begin();
    assert_eq!(computer.iterations(), 0);
    assert_eq!(computer.num_nodes(), 0);
    assert_eq!(computer.find_missing_nodes(), 0);
    assert_eq!(computer.sccs().num_components(), 0);
}

#[test]
fn sum_sweep_on_a_single_node_with_a_loop() {
    let graph = Graph::from_arcs(1, &[(0, 0)]).unwrap();
    let mut computer =
        DirExactSumSweepComputer::new(&graph, &graph, Output::RadiusDiameter, None).unwrap();
    compute(&mut computer);
    assert_eq!(computer.radius(), (0, 0));
    assert_eq!(computer.diameter(), (0, 0));
}

#[test]
fn sum_sweep_agrees_with_visits_from_every_node() {
    check_against_visits(5, &[(0, 1), (1, 2), (2, 3), (3, 4), (4, 0)]);
    check_against_visits(5, &[(0, 1), (1, 2), (2, 3), (3, 4)]);
    check_against_visits(
        6,
        &[(0, 1), (1, 2), (2, 0), (2, 3), (3, 4), (4, 5), (5, 3)],
    );
    check_against_visits(
        8,
        &[
            (0, 1),
            (1, 0),
            (1, 2),
            (2, 1),
            (2, 3),
            (3, 2),
            (3, 4),
            (4, 3),
            (4, 5),
            (5, 4),
            (1, 6),
            (6, 1),
            (6, 7),
            (7, 6),
        ],
    );
    check_against_visits(
        10,
        &[
            (0, 1),
            (1, 2),
            (2, 0),
            (1, 3),
            (3, 4),
            (4, 5),
            (5, 3),
            (6, 5),
            (6, 7),
            (7, 6),
            (8, 8),
            (9, 0),
            (5, 9),
            (4, 8),
        ],
    );
}

#[test]
fn sum_sweep_agrees_with_visits_on_scattered_graphs() {
    let mut state: u64 = 0x2545F4914F6CDD1D;
    for round in 0..40 {
        let n = 2 + round % 13;
        let mut arcs = Vec::new();
        for u in 0..n {
            for v in 0..n {
                state ^= state << 13;
                state ^= state >> 7;
                state ^= state << 17;
                if state % 100 < 8 + (round as u64 % 5) * 6 {
                    arcs.push((u, v));
                }
            }
        }
        check_against_visits(n, &arcs);
    }
}

#[test]
fn sum_sweep_for_the_radius_and_the_diameter_alone() {
    let arcs = [(0, 1), (1, 2), (2, 0), (2, 3), (3, 4), (4, 5), (5, 3), (0, 4)];
    let graph = Graph::from_arcs(6, &arcs).unwrap();
    let transpose = turned_round(6, &arcs);
    for output in [Output::Radius, Output::Diameter, Output::RadiusDiameter, Output::AllForward] {
        let mut computer = DirExactSumSweepComputer::new(&graph, &transpose, output, None).unwrap();
        compute(&mut computer);
        let eccentricities: Vec<usize> = (0..6).map(|v| eccentricity(&graph, v)).collect();
        if output != Output::Diameter {
            let radius = (0..6)
                .filter(|&v| computer.is_radial(v))
                .map(|v| eccentricities[v])
                .min()
                .unwrap();
            assert_eq!(computer.radius().0, radius);
        }
        if output != Output::Radius {
            assert_eq!(computer.diameter().0, *eccentricities.iter().max().unwrap());
        }
    }
}

#[test]
fn sum_sweep_refuses_a_transposed_graph_of_another_size() {
    let graph = Graph::from_arcs(3, &[(0, 1), (1, 2)]).unwrap();
    let fewer_nodes = Graph::from_arcs(2, &[(1, 0), (0, 1)]).unwrap();
    let fewer_arcs = Graph::from_arcs(3, &[(1, 0)]).unwrap();
    assert_eq!(
        DirExactSumSweepComputer::new(&graph, &fewer_nodes, Output::All, None).err(),
        Some(SumSweepError::MismatchedTranspose)
    );
    assert_eq!(
        DirExactSumSweepComputer::new(&graph, &fewer_arcs, Output::All, None).err(),
        Some(SumSweepError::MismatchedTranspose)
    );
    let transpose = turned_round(3, &[(0, 1), (1, 2)]);
    assert_eq!(
        DirExactSumSweepComputer::new(&graph, &transpose, Output::All, Some(vec![true, false]))
            .err(),
        Some(SumSweepError::MismatchedRadialVertices)
    );
}

#[test]
fn sum_sweep_takes_the_radial_vertices_it_is_given() {
    let arcs = [(0, 1), (1, 2), (2, 3)];
    let graph = Graph::from_arcs(4, &arcs).unwrap();
    let transpose = turned_round(4, &arcs);
    let marks = vec![false, true, true, false];
    let mut computer =
        DirExactSumSweepComputer::new(&graph, &transpose, Output::All, Some(marks)).unwrap();
    compute(&mut computer);
    assert!(!computer.is_radial(0));
    assert!(computer.is_radial(1));
    assert_eq!(computer.radius(), (1, 2));
    assert_eq!(computer.diameter().0, 3);
}

#[test]
fn sum_sweep_of_an_undirected_graph() {
    let arcs = [(0, 1), (1, 0), (1, 2), (2, 1), (2, 3), (3, 2)];
    let graph = Graph::from_arcs(4, &arcs).unwrap();
    let mut computer = DirExactSumSweepComputer::new_undirected(&graph, Output::All).unwrap();
    compute(&mut computer);
    assert_eq!(computer.radius().0, 2);
    assert_eq!(computer.diameter().0, 3);
    assert_eq!(computer.forward_bounds(1), (2, 2));
    let after = computer.found_after();
    assert!(after.0.is_some() && after.1.is_some());
}

#[test]
fn sum_sweep_picks_one_pivot_in_every_component() {
    let arcs = [(0, 1), (1, 2), (2, 0), (2, 3), (3, 4), (4, 5), (5, 3)];
    let graph = Graph::from_arcs(6, &arcs).unwrap();
    let transpose = turned_round(6, &arcs);
    let mut computer =
        DirExactSumSweepComputer::new(&graph, &transpose, Output::All, None).unwrap();
    computer.begin();
    let pivot = computer.find_best_pivot();
    assert_eq!(pivot.len(), 2);
    for (c, &p) in pivot.iter().enumerate() {
        assert_eq!(computer.sccs().component_of(p), c);
    }
    let before = computer.iterations();
    computer.all_cc_upper_bound(pivot);
    assert_eq!(computer.iterations(), before + 3);
    check_bounds(&computer);
}

#[test]
fn sum_sweep_errors_say_what_is_wrong() {
    assert!(SumSweepError::MismatchedTranspose.message().contains("transposed"));
    assert_eq!(
        SumSweepError::MismatchedRadialVertices.message(),
        "there is not one mark per node for the radial vertices"
    );
}

#[test]
fn sum_sweep_breaks_ties_between_pivots_by_the_first_node() {
    let arcs = [(0, 1), (1, 2), (2, 0), (2, 3), (3, 4), (4, 5), (5, 3)];
    let graph = Graph::from_arcs(6, &arcs).unwrap();
    let transpose = turned_round(6, &arcs);
    let mut computer =
        DirExactSumSweepComputer::new(&graph, &transpose, Output::All, None).unwrap();
    // before any move all nodes are as good: the first node of a component wins
    assert_eq!(computer.find_best_pivot(), vec![0, 3]);
    // a visit from node 0 settles its eccentricity, and a settled node is worse
    computer.forward_step_sum_sweep(0);
    assert_eq!(computer.forward_bounds(0), (5, 5));
    let pivot = computer.find_best_pivot();
    assert_eq!(pivot[0], 1);
    // the nodes of the other component have taken different lower bounds
    // of their backward eccentricities; the one with the smallest wins
    assert_eq!(computer.backward_bounds(3).0, 3);
    assert_eq!(computer.backward_bounds(4).0, 4);
    assert_eq!(computer.backward_bounds(5).0, 5);
    assert_eq!(pivot[1], 3);
}
