use std::cell::RefCell;
use webgraph_algo::algo::visits::breadth_first::{Event, SingleThreadedBreadthFirstVisit};
use webgraph_algo::algo::visits::parallel_fast_cb::ParallelBreadthFirstVisitFastCBBuilder;
use webgraph_algo::graph::Graph;

/// A graph with twelve nodes for the visits to run on.
fn sample_graph() -> Graph {
    let arcs = [
        (0, 1),
        (0, 2),
        (1, 3),
        (2, 3),
        (3, 4),
        (4, 5),
        (5, 6),
        (6, 4),
        (7, 8),
        (8, 9),
        (9, 10),
        (10, 11),
        (11, 7),
        (10, 0),
    ];
    Graph::from_arcs(12, &arcs).unwrap()
}

#[test]
fn test_sequential_bfv_with_start() {
    let graph = sample_graph();
    let visit = SingleThreadedBreadthFirstVisit::with_start(&graph, 10);

    assert_eq!(visit.start(), 10);
}

#[test]
fn test_sequential_bfv_new() {
    let graph = sample_graph();
    let visit = SingleThreadedBreadthFirstVisit::new(&graph);

    assert_eq!(visit.start(), 0);
}

#[test]
fn test_parallel_low_mem_bfv_with_parameters() {
    let graph = sample_graph();
    let visit = ParallelBreadthFirstVisitFastCBBuilder::new(&graph)
        .start(10)
        .granularity(2)
        .build();

    assert_eq!(visit.start(), 10);
    assert_eq!(visit.granularity(), 2);
}

#[test]
fn test_parallel_bfv_low_mem_with_start() {
    let graph = sample_graph();
    let visit = ParallelBreadthFirstVisitFastCBBuilder::new(&graph)
        .start(10)
        .build();

    assert_eq!(visit.start(), 10);
    assert_eq!(visit.granularity(), 1);
}

#[test]
fn test_parallel_bfv_low_mem_with_granularity() {
    let graph = sample_graph();
    let visit = ParallelBreadthFirstVisitFastCBBuilder::new(&graph)
        .granularity(10)
        .build();

    assert_eq!(visit.start(), 0);
    assert_eq!(visit.granularity(), 10);
}

#[test]
fn test_parallel_low_mem_bfv_new() {
    let graph = sample_graph();
    let visit = ParallelBreadthFirstVisitFastCBBuilder::new(&graph).build();

    assert_eq!(visit.start(), 0);
    assert_eq!(visit.granularity(), 1);
}

#[test]
fn parallel_bfv_keeps_the_number_of_threads() {
    let graph = sample_graph();
    let visit = ParallelBreadthFirstVisitFastCBBuilder::new(&graph)
        .num_threads(3)
        .build();
    assert_eq!(visit.num_threads(), Some(3));
    let visit = ParallelBreadthFirstVisitFastCBBuilder::new(&graph)
        .num_threads(3)
        .default_threadpool()
        .build();
    assert_eq!(visit.num_threads(), None);
}

#[test]
fn bfs_distances_on_a_small_graph() {
    let graph = Graph::from_arcs(6, &[(0, 1), (0, 2), (1, 3), (2, 3), (3, 4)]).unwrap();
    let mut visit = SingleThreadedBreadthFirstVisit::new(&graph);
    visit.distances_from(0);
    let distances: Vec<Option<usize>> = (0..6).map(|v| visit.distance(v)).collect();
    assert_eq!(
        distances,
        vec![Some(0), Some(1), Some(1), Some(2), Some(3), None]
    );
    assert_eq!(visit.num_visited(), 5);
    assert_eq!(visit.visited_node(0), 0);
    assert_eq!(visit.parent(0), Some(0));
    assert_eq!(visit.parent(3), Some(1));
    assert_eq!(visit.parent(4), Some(3));
    assert_eq!(visit.parent(5), None);
}

#[test]
fn bfs_twice_with_reset_gives_the_same_distances() {
    let graph = sample_graph();
    let mut visit = SingleThreadedBreadthFirstVisit::new(&graph);
    for root in 0..12 {
        assert!(visit.visit_from_node(root, &|_| true, &|_| true));
        let first: Vec<Option<usize>> = (0..12).map(|v| visit.distance(v)).collect();
        visit.reset();
        assert_eq!(visit.num_visited(), 0);
        assert!((0..12).all(|v| visit.distance(v).is_none()));
        assert!(visit.visit_from_node(root, &|_| true, &|_| true));
        let second: Vec<Option<usize>> = (0..12).map(|v| visit.distance(v)).collect();
        assert_eq!(first, second);
        visit.reset();
    }
}

#[test]
fn bfs_tells_the_callback_of_every_event() {
    let graph = Graph::from_arcs(3, &[(0, 1), (0, 2), (1, 2), (2, 0)]).unwrap();
    let mut visit = SingleThreadedBreadthFirstVisit::new(&graph);
    let events = RefCell::new(Vec::new());
    let completed = visit.visit_from_node(
        0,
        &|e| {
            events.borrow_mut().push(e);
            true
        },
        &|_| true,
    );
    assert!(completed);
    assert_eq!(
        events.into_inner(),
        vec![
            Event::Init { root: 0 },
            Event::Unknown { curr: 0, parent: 0, root: 0, distance: 0 },
            Event::Unknown { curr: 1, parent: 0, root: 0, distance: 1 },
            Event::Unknown { curr: 2, parent: 0, root: 0, distance: 1 },
            Event::Known { curr: 2, parent: 1, root: 0, distance: 2 },
            Event::Known { curr: 0, parent: 2, root: 0, distance: 2 },
        ]
    );
}

#[test]
fn bfs_filter_keeps_nodes_out() {
    let graph = Graph::from_arcs(4, &[(0, 1), (1, 2), (0, 3), (3, 2)]).unwrap();
    let mut visit = SingleThreadedBreadthFirstVisit::new(&graph);
    let completed = visit.visit_from_node(0, &|_| true, &|e| match e {
        Event::Unknown { curr, parent, .. } => !(curr == 2 && parent == 1) && curr != 3,
        _ => true,
    });
    assert!(completed);
    assert_eq!(visit.distance(1), Some(1));
    assert_eq!(visit.distance(2), None);
    assert_eq!(visit.distance(3), None);
}

#[test]
fn bfs_stops_where_the_callback_says_so() {
    let graph = Graph::from_arcs(4, &[(0, 1), (1, 2), (2, 3)]).unwrap();
    let mut visit = SingleThreadedBreadthFirstVisit::new(&graph);
    let completed = visit.visit_from_node(
        0,
        &|e| !matches!(e, Event::Unknown { curr: 2, .. }),
        &|_| true,
    );
    assert!(!completed);
    assert_eq!(visit.distance(3), None);
}

#[test]
fn bfs_of_the_whole_graph_starts_at_the_start_node() {
    let graph = Graph::from_arcs(4, &[(0, 1), (2, 3)]).unwrap();
    let mut visit = SingleThreadedBreadthFirstVisit::with_start(&graph, 2);
    let roots = RefCell::new(Vec::new());
    let completed = visit.visit(
        &|e| {
            if let Event::Init { root } = e {
                roots.borrow_mut().push(root);
            }
            true
        },
        &|_| true,
    );
    assert!(completed);
    assert_eq!(roots.into_inner(), vec![2, 0]);
    assert_eq!(visit.num_visited(), 4);
    assert_eq!(visit.distance(3), Some(1));
    assert_eq!(visit.distance(1), Some(1));
}

#[test]
fn fast_callbacks_are_told_of_discoveries_alone() {
    let graph = Graph::from_arcs(3, &[(0, 1), (0, 2), (1, 2), (2, 0)]).unwrap();
    let mut visit = ParallelBreadthFirstVisitFastCBBuilder::new(&graph).build();
    let events = RefCell::new(Vec::new());
    let completed = visit.visit_from_node(
        0,
        &|e| {
            events.borrow_mut().push(e);
            true
        },
        &|_| true,
    );
    assert!(completed);
    assert_eq!(
        events.into_inner(),
        vec![
            Event::Init { root: 0 },
            Event::Unknown { curr: 0, parent: 0, root: 0, distance: 0 },
            Event::Unknown { curr: 1, parent: 0, root: 0, distance: 1 },
            Event::Unknown { curr: 2, parent: 0, root: 0, distance: 1 },
        ]
    );
    assert!(visit.is_visited(2));
    visit.reset();
    assert!(!visit.is_visited(2));
}

#[test]
fn fast_callbacks_visit_the_whole_graph() {
    let graph = sample_graph();
    let mut visit = ParallelBreadthFirstVisitFastCBBuilder::new(&graph)
        .start(7)
        .granularity(4)
        .build();
    let discovered = RefCell::new(Vec::new());
    let completed = visit.visit(
        &|e| {
            if let Event::Unknown { curr, distance, .. } = e {
                discovered.borrow_mut().push((curr, distance));
            }
            true
        },
        &|_| true,
    );
    assert!(completed);
    let discovered = discovered.into_inner();
    assert_eq!(discovered.len(), 12);
    assert_eq!(discovered[0], (7, 0));
    assert!(discovered.contains(&(0, 4)));
    assert!(discovered.contains(&(6, 9)));
    assert!((0..12).all(|v| visit.is_visited(v)));
}
