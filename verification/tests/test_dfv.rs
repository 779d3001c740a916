use std::cell::RefCell;
use webgraph_algo::algo::acyclicity;
use webgraph_algo::algo::top_sort;
use webgraph_algo::algo::visits::depth_first::{Event, SingleThreadedDepthFirstVisit};
use webgraph_algo::graph::Graph;

#[test]
fn dfs_tells_the_callback_of_every_event() {
    let graph = Graph::from_arcs(4, &[(0, 1), (1, 2), (2, 0), (0, 2)]).unwrap();
    let mut visit = SingleThreadedDepthFirstVisit::new(&graph);
    let events = RefCell::new(Vec::new());
    let completed = visit.visit_from_node(
        0,
        &|e| {
            events.borrow_mut().push(e);
            true
        },
        &|_| true,
    );
    assert!(completed);
    assert_eq!(
        events.into_inner(),
        vec![
            Event::Init { root: 0 },
            Event::Previsit { curr: 0, parent: 0, root: 0, depth: 0 },
            Event::Previsit { curr: 1, parent: 0, root: 0, depth: 1 },
            Event::Previsit { curr: 2, parent: 1, root: 0, depth: 2 },
            Event::Revisit { curr: 0, parent: 2, root: 0, depth: 3, back_edge: true },
            Event::Completed { curr: 2, parent: 1, root: 0, depth: 2 },
            Event::Completed { curr: 1, parent: 0, root: 0, depth: 1 },
            Event::Revisit { curr: 2, parent: 0, root: 0, depth: 1, back_edge: false },
            Event::Completed { curr: 0, parent: 0, root: 0, depth: 0 },
        ]
    );
    assert_eq!(visit.preorder(), &vec![0, 1, 2]);
    assert_eq!(visit.postorder(), &vec![2, 1, 0]);
    assert!(visit.cycle_found());
    assert!(visit.is_entered(2));
    assert!(visit.is_left(2));
    assert!(!visit.is_entered(3));
    assert_eq!(visit.parent(2), Some(1));
    assert_eq!(visit.depth(2), Some(2));
    assert_eq!(visit.parent(3), None);
    assert_eq!(visit.depth(3), None);
}

#[test]
fn dfs_with_two_states_tells_no_back_edge() {
    let graph = Graph::from_arcs(3, &[(0, 1), (1, 2), (2, 0)]).unwrap();
    let mut visit = SingleThreadedDepthFirstVisit::with_two_states(&graph);
    assert!(!visit.three_states());
    let back_edges = RefCell::new(0);
    let revisits = RefCell::new(0);
    let completed = visit.visit(
        &|e| {
            if let Event::Revisit { back_edge, .. } = e {
                *revisits.borrow_mut() += 1;
                if back_edge {
                    *back_edges.borrow_mut() += 1;
                }
            }
            true
        },
        &|_| true,
    );
    assert!(completed);
    assert_eq!(revisits.into_inner(), 1);
    assert_eq!(back_edges.into_inner(), 0);
}

#[test]
fn dfs_filter_keeps_nodes_out() {
    let graph = Graph::from_arcs(4, &[(0, 1), (1, 2), (0, 3)]).unwrap();
    let mut visit = SingleThreadedDepthFirstVisit::new(&graph);
    let completed = visit.visit_from_node(0, &|_| true, &|e| match e {
        Event::Previsit { curr, .. } => curr != 1,
        _ => true,
    });
    assert!(completed);
    assert_eq!(visit.preorder(), &vec![0, 3]);
    assert!(!visit.is_entered(1));
    assert!(!visit.is_entered(2));
    assert!(!visit.cycle_found());
}

#[test]
fn dfs_stops_where_the_callback_says_so_and_starts_anew_after_reset() {
    let graph = Graph::from_arcs(4, &[(0, 1), (1, 2), (2, 3)]).unwrap();
    let mut visit = SingleThreadedDepthFirstVisit::new(&graph);
    let completed = visit.visit_from_node(
        0,
        &|e| !matches!(e, Event::Previsit { curr: 2, .. }),
        &|_| true,
    );
    assert!(!completed);
    assert!(!visit.is_entered(3));
    assert!(visit.is_entered(2));
    assert!(!visit.is_left(0));
    visit.reset();
    assert!(!visit.is_entered(0));
    assert!(visit.preorder().is_empty());
    assert!(visit.visit(&|_| true, &|_| true));
    assert_eq!(visit.postorder(), &vec![3, 2, 1, 0]);
}

#[test]
fn dfs_of_the_whole_graph_takes_every_root_in_turn() {
    let graph = Graph::from_arcs(5, &[(1, 0), (3, 4), (4, 3)]).unwrap();
    let mut visit = SingleThreadedDepthFirstVisit::new(&graph);
    let roots = RefCell::new(Vec::new());
    let completed = visit.visit(
        &|e| {
            if let Event::Init { root } = e {
                roots.borrow_mut().push(root);
            }
            true
        },
        &|_| true,
    );
    assert!(completed);
    assert_eq!(roots.into_inner(), vec![0, 1, 2, 3]);
    assert_eq!(visit.preorder(), &vec![0, 1, 2, 3, 4]);
    assert_eq!(visit.postorder(), &vec![0, 1, 2, 4, 3]);
    assert_eq!(visit.num_nodes(), 5);
}

#[test]
fn acyclicity_of_a_path_and_of_a_triangle() {
    let path = Graph::from_arcs(3, &[(0, 1), (1, 2)]).unwrap();
    assert!(acyclicity::run(&path));
    let triangle = Graph::from_arcs(3, &[(0, 1), (1, 2), (2, 0)]).unwrap();
    assert!(!acyclicity::run(&triangle));
}

#[test]
fn acyclicity_of_edge_cases() {
    assert!(acyclicity::run(&Graph::new(0)));
    assert!(acyclicity::run(&Graph::new(3)));
    let self_loop = Graph::from_arcs(2, &[(1, 1)]).unwrap();
    assert!(!acyclicity::run(&self_loop));
    let diamond = Graph::from_arcs(4, &[(0, 1), (0, 2), (1, 3), (2, 3)]).unwrap();
    assert!(acyclicity::run(&diamond));
    let late_cycle = Graph::from_arcs(5, &[(0, 1), (2, 3), (3, 4), (4, 2)]).unwrap();
    assert!(!acyclicity::run(&late_cycle));
}

#[test]
fn top_sort_of_a_diamond() {
    let graph = Graph::from_arcs(4, &[(0, 1), (0, 2), (1, 3), (2, 3)]).unwrap();
    let order = top_sort::run(&graph);
    assert_eq!(order.len(), 4);
    let place = |v: usize| order.iter().position(|&x| x == v).unwrap();
    assert_eq!(place(0), 0);
    assert_eq!(place(3), 3);
    assert!(place(0) < place(1) && place(0) < place(2));
    assert!(place(1) < place(3) && place(2) < place(3));
    assert_eq!(order, vec![0, 2, 1, 3]);
}

#[test]
fn top_sort_lists_every_node_once() {
    let graph = Graph::from_arcs(6, &[(5, 0), (0, 1), (1, 5), (3, 2), (4, 4)]).unwrap();
    let mut order = top_sort::run(&graph);
    assert_eq!(order, vec![4, 3, 2, 0, 1, 5]);
    order.sort();
    assert_eq!(order, vec![0, 1, 2, 3, 4, 5]);
    assert!(top_sort::run(&Graph::new(0)).is_empty());
}
