//! Index of the largest element of a slice, plain and filtered.
use vstd::prelude::*;

verus! {

/// `i` is the first index of `v` that holds its largest value.
pub open spec fn is_first_max(v: Seq<usize>, i: int) -> bool {
    &&& 0 <= i < v.len()
    &&& forall|j: int| 0 <= j < v.len() ==> v[j] <= v[i]
    &&& forall|j: int| 0 <= j < i ==> v[j] < v[i]
}

/// The pair `(a, ta)` comes strictly before `(b, tb)` when compared by the
/// first component and then by the second.
pub open spec fn lex_lt(a: usize, ta: usize, b: usize, tb: usize) -> bool {
    a < b || (a == b && ta < tb)
}

/// Number of positions that `vec` and `tie_break` have in common.
pub open spec fn common_len(vec: Seq<usize>, tie_break: Seq<usize>) -> int {
    if vec.len() <= tie_break.len() {
        vec.len() as int
    } else {
        tie_break.len() as int
    }
}

/// `i` is the index that a left-to-right scan keeps when it starts from the
/// first accepted position and moves on only to an accepted position whose
/// pair `(vec[j], tie_break[j])` is strictly larger.
///
/// `rejected(j)` says that the filter may answer `false` at position `j`.
pub open spec fn is_filtered_max(
    vec: Seq<usize>,
    tie_break: Seq<usize>,
    rejected: spec_fn(int) -> bool,
    i: int,
) -> bool {
    &&& 0 <= i < common_len(vec, tie_break)
    &&& forall|j: int|
        0 <= j < i ==> rejected(j) || lex_lt(
            #[trigger] vec[j],
            tie_break[j],
            vec[i],
            tie_break[i],
        )
    &&& forall|j: int|
        i < j < common_len(vec, tie_break) ==> rejected(j) || !lex_lt(
            vec[i],
            tie_break[i],
            #[trigger] vec[j],
            tie_break[j],
        )
}

/// Returns the index of the largest value of `vec`, the first one if it
/// occurs more than once, and `None` for an empty slice.
pub fn argmax(vec: &[usize]) -> (r: Option<usize>)
    ensures
        r is None <==> vec@.len() == 0,
        r matches Some(i) ==> is_first_max(vec@, i as int),
{
    if vec.len() == 0 {
        return None;
    }
    let mut max: usize = vec[0];
    let mut argmax: usize = 0;
    let mut i: usize = 1;
    while i < vec.len()
        invariant
            1 <= i <= vec.len(),
            argmax < i,
            max == vec@[argmax as int],
            forall|j: int| 0 <= j < i ==> vec@[j] <= max,
            forall|j: int| 0 <= j < argmax ==> vec@[j] < max,
        decreases vec.len() - i,
    {
        let elem: usize = vec[i];
        if elem > max {
            argmax = i;
            max = elem;
        }
        i += 1;
    }
    Some(argmax)
}

/// Returns the index of the largest value of `vec` among the positions that
/// `filter` accepts; among equal values the one with the largest `tie_break`
/// wins, and among equal pairs the first. Only the positions that both slices
/// have are looked at. `None` when `filter` accepts no position.
pub fn filtered_argmax<F: Fn(usize, usize) -> bool>(
    vec: &[usize],
    tie_break: &[usize],
    filter: F,
) -> (r: Option<usize>)
    requires
        forall|i: int|
            0 <= i < common_len(vec@, tie_break@) ==> call_requires(
                filter,
                (i as usize, #[trigger] vec@[i]),
            ),
    ensures
        r is None ==> forall|j: int|
            0 <= j < common_len(vec@, tie_break@) ==> call_ensures(
                filter,
                (j as usize, #[trigger] vec@[j]),
                false,
            ),
        r matches Some(i) ==> call_ensures(filter, (i, vec@[i as int]), true) && is_filtered_max(
            vec@,
            tie_break@,
            |j: int| call_ensures(filter, (j as usize, vec@[j]), false),
            i as int,
        ),
{
    let n: usize = if vec.len() <= tie_break.len() {
        vec.len()
    } else {
        tie_break.len()
    };
    let mut best: Option<usize> = None;
    let mut max: usize = 0;
    let mut max_tie_break: usize = 0;
    let mut i: usize = 0;
    while i < n
        invariant
            i <= n,
            n == common_len(vec@, tie_break@),
            forall|k: int|
                0 <= k < n ==> call_requires(filter, (k as usize, #[trigger] vec@[k])),
            best is None ==> forall|j: int|
                0 <= j < i ==> call_ensures(filter, (j as usize, #[trigger] vec@[j]), false),
            best matches Some(b) ==> {
                &&& b < i
                &&& max == vec@[b as int]
                &&& max_tie_break == tie_break@[b as int]
                &&& call_ensures(filter, (b, vec@[b as int]), true)
                &&& forall|j: int|
                    0 <= j < b ==> call_ensures(filter, (j as usize, vec@[j]), false) || lex_lt(
                        #[trigger] vec@[j],
                        tie_break@[j],
                        max,
                        max_tie_break,
                    )
                &&& forall|j: int|
                    b < j < i ==> call_ensures(filter, (j as usize, vec@[j]), false) || !lex_lt(
                        max,
                        max_tie_break,
                        #[trigger] vec@[j],
                        tie_break@[j],
                    )
            },
        decreases n - i,
    {
        let elem: usize = vec[i];
        let tie: usize = tie_break[i];
        if filter(i, elem) {
            let better = match best {
                None => true,
                Some(_) => elem > max || (elem == max && tie > max_tie_break),
            };
            if better {
                best = Some(i);
                max = elem;
                max_tie_break = tie;
            }
        }
        i += 1;
    }
    best
}

} // verus!
