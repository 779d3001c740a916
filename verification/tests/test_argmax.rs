use webgraph_algo::utils::argmax::{argmax, filtered_argmax};
use webgraph_algo::utils::argmin::{argmin, filtered_argmin};

#[test]
fn argmax_of_plain_slice() {
    let v = vec![1, 2, 5, 2, 1];
    assert_eq!(argmax(&v), Some(2));
}

#[test]
fn argmax_of_empty_slice() {
    let v: Vec<usize> = Vec::new();
    assert_eq!(argmax(&v), None);
}

#[test]
fn filtered_argmax_breaks_ties() {
    let v = vec![1, 2, 5, 2, 1];
    let tie = vec![1, 2, 3, 4, 5];
    assert_eq!(filtered_argmax(&v, &tie, |_, element| element < 4), Some(3));
}

#[test]
fn argmin_of_plain_slice() {
    let v = vec![4, 3, 1, 0, 5];
    assert_eq!(argmin(&v), Some(3));
}

#[test]
fn filtered_argmin_breaks_ties() {
    let v = vec![3, 2, 5, 2, 3];
    let tie = vec![5, 4, 3, 2, 1];
    assert_eq!(filtered_argmin(&v, &tie, |_, element| element > 1), Some(3));
}
