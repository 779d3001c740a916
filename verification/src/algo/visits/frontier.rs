//! The frontier of a breadth-first visit that goes level by level: the
//! nodes discovered at one level, which the next level starts from.
use parallel_frontier::Frontier;
use vstd::multiset::Multiset;
use vstd::prelude::*;

verus! {

/// `parallel_frontier::Frontier`: a collection to which many threads can
/// push at once. Nothing is seen of what is inside.
#[verifier::external_type_specification]
#[verifier::external_body]
#[verifier::reject_recursive_types(T)]
pub struct ExFrontier<'a, T>(Frontier<'a, T>);

/// The nodes that a frontier holds, each as often as it was pushed.
pub uninterp spec fn frontier_nodes(frontier: Frontier<'_, usize>) -> Multiset<usize>;

/// `Frontier::new`: a frontier that holds nothing.
#[verifier::external_body]
pub(crate) fn empty_frontier() -> (frontier: Frontier<'static, usize>)
    ensures
        frontier_nodes(frontier) == Multiset::<usize>::empty(),
{
    Frontier::new()
}

/// `Frontier::push`: the frontier holds the node once more, and all that it
/// held.
#[verifier::external_body]
pub(crate) fn push_node(frontier: &mut Frontier<'static, usize>, node: usize)
    ensures
        frontier_nodes(*final(frontier)) == frontier_nodes(*old(frontier)).insert(node),
{
    frontier.push(node)
}

/// `Frontier::is_empty`: whether the frontier holds nothing.
#[verifier::external_body]
pub(crate) fn holds_nothing(frontier: &Frontier<'static, usize>) -> (empty: bool)
    ensures
        empty == (frontier_nodes(*frontier).len() == 0),
{
    frontier.is_empty()
}

/// `Frontier::concat`: the nodes that the frontier holds, in some order.
#[verifier::external_body]
pub(crate) fn nodes_of(frontier: &Frontier<'static, usize>) -> (nodes: Vec<usize>)
    ensures
        nodes@.to_multiset() == frontier_nodes(*frontier),
{
    frontier.concat()
}

} // verus!
