//! What the library takes from a list of ascending numbers that tells
//! which of them is the first that is not below a given number.
use sux::dict::elias_fano::{EfSeqDict, EliasFanoBuilder};
use sux::traits::{IndexedSeq, Succ};
use vstd::prelude::*;

verus! {

/// `sux::dict::EliasFano` with its structures for the access by position
/// and for the search of a successor, as
/// `EliasFanoBuilder::build_with_seq_and_dict` makes it: a list of
/// ascending numbers. Nothing is seen of what is inside.
#[verifier::external_body]
pub struct SuccessorList {
    inner: EfSeqDict,
}

/// The numbers that a list holds, in their order.
pub uninterp spec fn values_of(list: SuccessorList) -> Seq<usize>;

/// `sux::dict::EliasFanoBuilder`: what takes the numbers of a list, one
/// after the other, before the list is made. Nothing is seen of what is
/// inside.
#[verifier::external_body]
pub struct ListBuilder {
    inner: EliasFanoBuilder,
}

/// The numbers that a builder has taken, in their order.
pub uninterp spec fn taken_by(builder: ListBuilder) -> Seq<usize>;

/// What a builder was made with: how many numbers it is to take, and the
/// bound that none of them may exceed.
pub uninterp spec fn limits_of(builder: ListBuilder) -> (usize, usize);

/// `EliasFanoBuilder::new`: a builder that is to take `count` numbers, none
/// above `bound`, and has taken none. It refuses a count for which the
/// structures of the list cannot be sized.
#[verifier::external_body]
pub(crate) fn new_builder(count: usize, bound: usize) -> (builder: ListBuilder)
    requires
        64 * count <= usize::MAX,
    ensures
        taken_by(builder) == Seq::<usize>::empty(),
        limits_of(builder) == (count, bound),
{
    ListBuilder { inner: EliasFanoBuilder::new(count, bound) }
}

/// `EliasFanoBuilder::push`: the builder takes one number more. It refuses
/// a number beyond its count, one above its bound, and one below the
/// number it took last.
#[verifier::external_body]
pub(crate) fn push_value(builder: &mut ListBuilder, value: usize)
    requires
        taken_by(*old(builder)).len() < limits_of(*old(builder)).0,
        value <= limits_of(*old(builder)).1,
        taken_by(*old(builder)).len() > 0 ==> taken_by(*old(builder)).last() <= value,
    ensures
        taken_by(*final(builder)) == taken_by(*old(builder)).push(value),
        limits_of(*final(builder)) == limits_of(*old(builder)),
{
    builder.inner.push(value)
}

/// `EliasFanoBuilder::build_with_seq_and_dict`: the list of the numbers
/// that the builder has taken. It refuses a builder that has not taken as
/// many numbers as it was made for, and a size that the structures for the
/// search cannot have.
#[verifier::external_body]
pub(crate) fn finish(builder: ListBuilder) -> (list: SuccessorList)
    requires
        taken_by(builder).len() == limits_of(builder).0,
        64 * limits_of(builder).0 <= usize::MAX,
    ensures
        values_of(list) == taken_by(builder),
{
    SuccessorList { inner: builder.inner.build_with_seq_and_dict() }
}

/// `IndexedSeq::len`: how many numbers the list holds.
#[verifier::external_body]
pub(crate) fn count_values(list: &SuccessorList) -> (len: usize)
    ensures
        len == values_of(*list).len(),
{
    list.inner.len()
}

/// `IndexedSeq::get`: the number at `index`.
#[verifier::external_body]
pub(crate) fn value_at(list: &SuccessorList, index: usize) -> (value: usize)
    requires
        index < values_of(*list).len(),
    ensures
        value == values_of(*list)[index as int],
{
    list.inner.get(index)
}

/// `Succ::succ`: the first number of the list that is not below `target`,
/// with its position, or `None` where every number is below `target`. Of
/// equal numbers the one at the lowest position is found: the search
/// starts below every number that is not below `target`, and goes up.
#[verifier::external_body]
pub(crate) fn successor(list: &SuccessorList, target: usize) -> (found: Option<(usize, usize)>)
    ensures
        found is None <==> forall|i: int|
            0 <= i < values_of(*list).len() ==> values_of(*list)[i] < target,
        found matches Some((index, value)) ==> {
            &&& index < values_of(*list).len()
            &&& value == values_of(*list)[index as int]
            &&& value >= target
            &&& forall|i: int| 0 <= i < index ==> values_of(*list)[i] < target
        },
{
    list.inner.succ(target)
}

} // verus!
