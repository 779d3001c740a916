use webgraph_algo::graph::Graph;
use webgraph_algo::utils::cumulative_outdegree::CumulativeOutdegree;

#[test]
fn graph_keeps_the_order_of_the_arcs() {
    let graph = Graph::from_arcs(4, &[(0, 2), (0, 1), (2, 3), (0, 3)]).unwrap();
    assert_eq!(graph.num_nodes(), 4);
    assert_eq!(graph.num_arcs(), 4);
    assert_eq!(graph.successors(0), &vec![2, 1, 3]);
    assert_eq!(graph.successors(1), &Vec::<usize>::new());
    assert_eq!(graph.outdegree(0), 3);
    assert_eq!(graph.outdegree(2), 1);
}

#[test]
fn graph_refuses_an_arc_to_a_missing_node() {
    assert!(Graph::from_arcs(3, &[(0, 1), (1, 3)]).is_none());
    assert!(Graph::from_arcs(3, &[(3, 1)]).is_none());
    let mut graph = Graph::new(2);
    assert!(graph.add_arc(0, 1));
    assert!(!graph.add_arc(0, 2));
    assert!(!graph.add_arc(2, 0));
    assert_eq!(graph.num_arcs(), 1);
}

#[test]
fn graph_without_nodes_has_no_arcs() {
    let graph = Graph::new(0);
    assert_eq!(graph.num_nodes(), 0);
    assert_eq!(graph.num_arcs(), 0);
}

#[test]
fn cumulative_outdegree_sums_the_outdegrees() {
    let graph = Graph::from_arcs(4, &[(0, 1), (0, 2), (2, 3), (2, 0), (2, 1), (3, 0)]).unwrap();
    let cumulative = CumulativeOutdegree::new(&graph);
    assert_eq!(cumulative.len(), 5);
    let values: Vec<usize> = (0..5).map(|i| cumulative.get(i)).collect();
    assert_eq!(values, vec![0, 2, 2, 5, 6]);
    assert!(cumulative.is_for_graph(&graph));
}

#[test]
fn cumulative_outdegree_finds_the_first_position() {
    let graph = Graph::from_arcs(4, &[(0, 1), (0, 2), (2, 3), (2, 0), (2, 1), (3, 0)]).unwrap();
    let cumulative = CumulativeOutdegree::new(&graph);
    assert_eq!(cumulative.succ(0), Some((0, 0)));
    assert_eq!(cumulative.succ(1), Some((1, 2)));
    assert_eq!(cumulative.succ(2), Some((1, 2)));
    assert_eq!(cumulative.succ(3), Some((3, 5)));
    assert_eq!(cumulative.succ(6), Some((4, 6)));
    assert_eq!(cumulative.succ(7), None);
}

#[test]
fn cumulative_outdegree_of_another_graph_is_told_apart() {
    let graph = Graph::from_arcs(3, &[(0, 1), (1, 2)]).unwrap();
    let other = Graph::from_arcs(3, &[(0, 1), (0, 2)]).unwrap();
    let cumulative = CumulativeOutdegree::new(&graph);
    assert!(cumulative.is_for_graph(&graph));
    assert!(!cumulative.is_for_graph(&other));
}

#[test]
fn transpose_turns_every_arc_round() {
    let graph = Graph::from_arcs(4, &[(0, 2), (0, 1), (2, 3), (0, 3), (3, 3)]).unwrap();
    let turned = graph.transpose();
    assert_eq!(turned.num_nodes(), 4);
    assert_eq!(turned.num_arcs(), 5);
    assert_eq!(turned.successors(0), &Vec::<usize>::new());
    assert_eq!(turned.successors(1), &vec![0]);
    assert_eq!(turned.successors(2), &vec![0]);
    assert_eq!(turned.successors(3), &vec![0, 2, 3]);
    let back = turned.transpose();
    for u in 0..4 {
        let mut left = graph.successors(u).clone();
        let mut right = back.successors(u).clone();
        left.sort();
        right.sort();
        assert_eq!(left, right);
    }
    assert_eq!(Graph::new(0).transpose().num_nodes(), 0);
}

#[test]
fn cumulative_outdegree_finds_the_lowest_of_equal_positions() {
    // many nodes without successors: long runs of equal sums
    let num_nodes = 300;
    let mut arcs: Vec<(usize, usize)> = Vec::new();
    for u in 0..num_nodes {
        if u % 7 == 3 {
            for k in 0..(u % 11 + 1) {
                arcs.push((u, (u + k) % num_nodes));
            }
        }
    }
    let graph = Graph::from_arcs(num_nodes, &arcs).unwrap();
    let cumulative = CumulativeOutdegree::new(&graph);
    assert!(cumulative.is_for_graph(&graph));
    assert_eq!(cumulative.len(), num_nodes + 1);
    let sums: Vec<usize> = (0..=num_nodes).map(|i| cumulative.get(i)).collect();
    assert_eq!(sums[0], 0);
    assert_eq!(sums[num_nodes], arcs.len());
    for u in 0..num_nodes {
        assert_eq!(sums[u + 1] - sums[u], graph.outdegree(u));
    }
    for target in 0..=arcs.len() + 2 {
        let expected = sums
            .iter()
            .position(|&sum| sum >= target)
            .map(|index| (index, sums[index]));
        assert_eq!(cumulative.succ(target), expected);
    }
}

#[test]
fn cumulative_outdegree_of_a_graph_without_arcs() {
    let graph = Graph::new(5);
    let cumulative = CumulativeOutdegree::new(&graph);
    assert_eq!(cumulative.len(), 6);
    assert_eq!(cumulative.succ(0), Some((0, 0)));
    assert_eq!(cumulative.succ(1), None);
    let empty = Graph::new(0);
    let single = CumulativeOutdegree::new(&empty);
    assert_eq!(single.len(), 1);
    assert_eq!(single.get(0), 0);
    assert_eq!(single.succ(0), Some((0, 0)));
    assert!(single.is_for_graph(&empty));
}
