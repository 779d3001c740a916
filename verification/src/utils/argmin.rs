//! Index of the smallest element of a slice, plain and filtered.
use crate::utils::argmax::{common_len, lex_lt};
use vstd::prelude::*;

verus! {

/// `i` is the first index of `v` that holds its smallest value.
pub open spec fn is_first_min(v: Seq<usize>, i: int) -> bool {
    &&& 0 <= i < v.len()
    &&& forall|j: int| 0 <= j < v.len() ==> v[i] <= v[j]
    &&& forall|j: int| 0 <= j < i ==> v[i] < v[j]
}

/// `i` is the index that a left-to-right scan keeps when it starts from the
/// first accepted position and moves on only to an accepted position whose
/// pair `(vec[j], tie_break[j])` is strictly smaller.
///
/// `rejected(j)` says that the filter may answer `false` at position `j`.
pub open spec fn is_filtered_min(
    vec: Seq<usize>,
    tie_break: Seq<usize>,
    rejected: spec_fn(int) -> bool,
    i: int,
) -> bool {
    &&& 0 <= i < common_len(vec, tie_break)
    &&& forall|j: int|
        0 <= j < i ==> rejected(j) || lex_lt(
            vec[i],
            tie_break[i],
            #[trigger] vec[j],
            tie_break[j],
        )
    &&& forall|j: int|
        i < j < common_len(vec, tie_break) ==> rejected(j) || !lex_lt(
            #[trigger] vec[j],
            tie_break[j],
            vec[i],
            tie_break[i],
        )
}

/// Returns the index of the smallest value of `vec`, the first one if it
/// occurs more than once, and `None` for an empty slice.
pub fn argmin(vec: &[usize]) -> (r: Option<usize>)
    ensures
        r is None <==> vec@.len() == 0,
        r matches Some(i) ==> is_first_min(vec@, i as int),
{
    if vec.len() == 0 {
        return None;
    }
    let mut min: usize = vec[0];
    let mut argmin: usize = 0;
    let mut i: usize = 1;
    while i < vec.len()
        invariant
            1 <= i <= vec.len(),
            argmin < i,
            min == vec@[argmin as int],
            forall|j: int| 0 <= j < i ==> min <= vec@[j],
            forall|j: int| 0 <= j < argmin ==> min < vec@[j],
        decreases vec.len() - i,
    {
        let elem: usize = vec[i];
        if elem < min {
            argmin = i;
            min = elem;
        }
        i += 1;
    }
    Some(argmin)
}

/// Returns the index of the smallest value of `vec` among the positions that
/// `filter` accepts; among equal values the one with the smallest `tie_break`
/// wins, and among equal pairs the first. Only the positions that both slices
/// have are looked at. `None` when `filter` accepts no position.
pub fn filtered_argmin<F: Fn(usize, usize) -> bool>(
    vec: &[usize],
    tie_break: &[usize],
    filter: F,
) -> (r: Option<usize>)
    requires
        forall|i: int|
            0 <= i < common_len(vec@, tie_break@) ==> call_requires(
                filter,
                (i as usize, #[trigger] vec@[i]),
            ),
    ensures
        r is None ==> forall|j: int|
            0 <= j < common_len(vec@, tie_break@) ==> call_ensures(
                filter,
                (j as usize, #[trigger] vec@[j]),
                false,
            ),
        r matches Some(i) ==> call_ensures(filter, (i, vec@[i as int]), true) && is_filtered_min(
            vec@,
            tie_break@,
            |j: int| call_ensures(filter, (j as usize, vec@[j]), false),
            i as int,
        ),
{
    let n: usize = if vec.len() <= tie_break.len() {
        vec.len()
    } else {
        tie_break.len()
    };
    let mut best: Option<usize> = None;
    let mut min: usize = 0;
    let mut min_tie_break: usize = 0;
    let mut i: usize = 0;
    while i < n
        invariant
            i <= n,
            n == common_len(vec@, tie_break@),
            forall|k: int|
                0 <= k < n ==> call_requires(filter, (k as usize, #[trigger] vec@[k])),
            best is None ==> forall|j: int|
                0 <= j < i ==> call_ensures(filter, (j as usize, #[trigger] vec@[j]), false),
            best matches Some(b) ==> {
                &&& b < i
                &&& min == vec@[b as int]
                &&& min_tie_break == tie_break@[b as int]
                &&& call_ensures(filter, (b, vec@[b as int]), true)
                &&& forall|j: int|
                    0 <= j < b ==> call_ensures(filter, (j as usize, vec@[j]), false) || lex_lt(
                        min,
                        min_tie_break,
                        #[trigger] vec@[j],
                        tie_break@[j],
                    )
                &&& forall|j: int|
                    b < j < i ==> call_ensures(filter, (j as usize, vec@[j]), false) || !lex_lt(
                        #[trigger] vec@[j],
                        tie_break@[j],
                        min,
                        min_tie_break,
                    )
            },
        decreases n - i,
    {
        let elem: usize = vec[i];
        let tie: usize = tie_break[i];
        if filter(i, elem) {
            let better = match best {
                None => true,
                Some(_) => elem < min || (elem == min && tie < min_tie_break),
            };
            if better {
                best = Some(i);
                min = elem;
                min_tie_break = tie;
            }
        }
        i += 1;
    }
    best
}

} // verus!
