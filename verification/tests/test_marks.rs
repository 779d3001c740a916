use webgraph_algo::utils::marks::Marks;

#[test]
fn marks_start_clear_and_keep_what_is_set() {
    let mut marks = Marks::new(130);
    assert_eq!(marks.len(), 130);
    assert!((0..130).all(|i| !marks.get(i)));
    marks.set(0, true);
    marks.set(64, true);
    marks.set(129, true);
    let set: Vec<usize> = (0..130).filter(|&i| marks.get(i)).collect();
    assert_eq!(set, vec![0, 64, 129]);
    marks.set(64, false);
    assert!(!marks.get(64));
    assert!(marks.get(0) && marks.get(129));
}

#[test]
fn marks_swap_tells_what_was_there() {
    let mut marks = Marks::new(5);
    assert!(!marks.swap(3, true));
    assert!(marks.get(3));
    assert!(marks.swap(3, true));
    assert!(marks.swap(3, false));
    assert!(!marks.get(3));
    assert!(!marks.swap(3, false));
    assert_eq!(Marks::new(0).len(), 0);
}
