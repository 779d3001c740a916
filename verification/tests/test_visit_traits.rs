use std::cell::RefCell;
use webgraph_algo::algo::visits::breadth_first;
use webgraph_algo::algo::visits::breadth_first::SingleThreadedBreadthFirstVisit;
use webgraph_algo::algo::visits::depth_first;
use webgraph_algo::algo::visits::depth_first::SingleThreadedDepthFirstVisit;
use webgraph_algo::algo::visits::parallel_fast_cb::ParallelBreadthFirstVisitFastCB;
use webgraph_algo::algo::visits::traits::{ParVisit, SeqVisit};
use webgraph_algo::graph::Graph;

/// The number of events that a visit of the whole graph tells.
fn events_of_a_sequential_visit<A, F: Fn(A) -> bool, V: SeqVisit<A, F>>(
    visit: &mut V,
    filter: &F,
) -> usize {
    let count = RefCell::new(0usize);
    let completed = SeqVisit::visit(
        visit,
        &|_| {
            *count.borrow_mut() += 1;
            true
        },
        filter,
    );
    assert!(completed);
    <V as SeqVisit<A, F>>::reset(visit);
    count.into_inner()
}

fn events_of_a_parallel_visit<A, F: Fn(A) -> bool, V: ParVisit<A, F>>(
    visit: &mut V,
    filter: &F,
) -> usize {
    let count = RefCell::new(0usize);
    let completed = ParVisit::visit(
        visit,
        &|_| {
            *count.borrow_mut() += 1;
            true
        },
        filter,
    );
    assert!(completed);
    <V as ParVisit<A, F>>::reset(visit);
    count.into_inner()
}

#[test]
fn visits_are_used_through_their_traits() {
    let graph = Graph::from_arcs(4, &[(0, 1), (1, 2), (2, 0), (2, 3)]).unwrap();
    // one start, four discoveries, one arc to a known node
    let mut breadth = SingleThreadedBreadthFirstVisit::new(&graph);
    assert_eq!(events_of_a_sequential_visit(&mut breadth, &|_: breadth_first::Event| true), 6);
    assert_eq!(breadth.num_visited(), 0);
    // one start, four enterings, one arc to an entered node, four leavings
    let mut depth = SingleThreadedDepthFirstVisit::new(&graph);
    assert_eq!(events_of_a_sequential_visit(&mut depth, &|_: depth_first::Event| true), 10);
    assert!(depth.preorder().is_empty());
    // one start and four discoveries
    let mut levels = ParallelBreadthFirstVisitFastCB::new(&graph, 2);
    assert_eq!(events_of_a_parallel_visit(&mut levels, &|_: breadth_first::Event| true), 5);
    assert!(!levels.is_visited(0));
}

#[test]
fn a_visit_through_its_trait_stops_where_the_callback_says_so() {
    let graph = Graph::from_arcs(3, &[(0, 1), (1, 2)]).unwrap();
    let mut depth = SingleThreadedDepthFirstVisit::new(&graph);
    let completed = SeqVisit::visit_from_node(
        &mut depth,
        0,
        &|e| !matches!(e, depth_first::Event::Previsit { curr: 1, .. }),
        &|_: depth_first::Event| true,
    );
    assert!(!completed);
    let mut breadth = SingleThreadedBreadthFirstVisit::new(&graph);
    let completed = SeqVisit::visit_from_node(
        &mut breadth,
        0,
        &|e| !matches!(e, breadth_first::Event::Unknown { curr: 2, .. }),
        &|_: breadth_first::Event| true,
    );
    assert!(!completed);
}

#[test]
fn parallel_visit_is_made_with_the_number_of_threads() {
    let graph = Graph::from_arcs(3, &[(0, 1), (1, 2)]).unwrap();
    let visit = ParallelBreadthFirstVisitFastCB::with_num_threads(&graph, 4, 2);
    assert_eq!(visit.granularity(), 4);
    assert_eq!(visit.num_threads(), Some(2));
    assert_eq!(visit.start(), 0);
    let visit = ParallelBreadthFirstVisitFastCB::new(&graph, 3);
    assert_eq!(visit.granularity(), 3);
    assert_eq!(visit.num_threads(), None);
}

/// Resets a visit through its trait; the filter says which of the impls of
/// the trait is meant.
fn forget<A, F: Fn(A) -> bool, V: SeqVisit<A, F>>(visit: &mut V, _filter: &F) {
    <V as SeqVisit<A, F>>::reset(visit);
}

#[test]
fn a_visit_through_its_trait_asks_the_filter_and_forgets_on_reset() {
    let graph = Graph::from_arcs(4, &[(0, 1), (1, 2), (0, 3)]).unwrap();
    let keep_out = |e: breadth_first::Event| {
        !matches!(e, breadth_first::Event::Unknown { curr: 1, .. })
    };
    let mut breadth = SingleThreadedBreadthFirstVisit::new(&graph);
    assert!(SeqVisit::visit_from_node(&mut breadth, 0, &|_| true, &keep_out));
    assert_eq!(breadth.distance(3), Some(1));
    assert_eq!(breadth.distance(1), None);
    assert_eq!(breadth.distance(2), None);
    forget(&mut breadth, &keep_out);
    assert_eq!(breadth.num_visited(), 0);
    assert_eq!(breadth.distance(0), None);
    let mut levels = ParallelBreadthFirstVisitFastCB::new(&graph, 1);
    assert!(ParVisit::visit_from_node(&mut levels, 0, &|_| true, &keep_out));
    assert!(levels.is_visited(3) && !levels.is_visited(1) && !levels.is_visited(2));
    assert!(ParVisit::visit(&mut levels, &|_| true, &|_: breadth_first::Event| true));
    assert!((0..4).all(|v| levels.is_visited(v)));
}
