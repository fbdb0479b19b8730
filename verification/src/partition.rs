//! The range partitioner: where a range of a curve is split.
//!
//! A range is given by the distances of its points from its chord, one
//! entry per point, the two endpoints included. The split point is the
//! interior point with the largest distance; among several it is the first.

use vstd::prelude::*;

verus! {

/// The values of a vector of 128-bit integers as mathematical integers.
pub open spec fn widened(values: Seq<i128>) -> Seq<int> {
    Seq::new(values.len(), |k: int| values[k] as int)
}

/// Whether `m` is the first interior position of `values` that holds the
/// largest interior value. The first and the last position are not
/// interior.
pub open spec fn is_first_maximum(values: Seq<int>, m: int) -> bool {
    &&& 0 < m < values.len() - 1
    &&& forall|j: int| 0 < j < m ==> values[j] < values[m]
    &&& forall|j: int| m <= j < values.len() - 1 ==> values[j] <= values[m]
}

/// The first interior position that holds the largest interior value.
/// Meaningful for three values or more.
pub open spec fn first_maximum(values: Seq<int>) -> int {
    choose|m: int| is_first_maximum(values, m)
}

/// The first maximum over the interior positions up to `k`.
proof fn lemma_scan_maximum(values: Seq<int>, k: int) -> (m: int)
    requires
        1 <= k < values.len() - 1,
    ensures
        0 < m <= k,
        forall|j: int| 0 < j < m ==> values[j] < values[m],
        forall|j: int| m <= j <= k ==> values[j] <= values[m],
    decreases k,
{
    if k == 1 {
        1
    } else {
        let before = lemma_scan_maximum(values, k - 1);
        if values[k] > values[before] {
            k
        } else {
            before
        }
    }
}

/// Three values or more have a first interior maximum.
pub proof fn lemma_first_maximum_exists(values: Seq<int>)
    requires
        values.len() >= 3,
    ensures
        is_first_maximum(values, first_maximum(values)),
{
    let m = lemma_scan_maximum(values, values.len() - 2);
    assert(is_first_maximum(values, m));
}

/// There is one first interior maximum only.
pub proof fn lemma_first_maximum_unique(values: Seq<int>, a: int, b: int)
    requires
        is_first_maximum(values, a),
        is_first_maximum(values, b),
    ensures
        a == b,
{
    if a < b {
        assert(values[a] < values[b]);
        assert(values[b] <= values[a]);
    } else if b < a {
        assert(values[b] < values[a]);
        assert(values[a] <= values[b]);
    }
}

/// A position that meets [`is_first_maximum`] is [`first_maximum`].
pub proof fn lemma_first_maximum_is(values: Seq<int>, m: int)
    requires
        is_first_maximum(values, m),
    ensures
        first_maximum(values) == m,
{
    lemma_first_maximum_unique(values, m, first_maximum(values));
}

/// Finds the interior point that lies farthest from the chord, and its
/// distance. The scan runs from left to right and moves on only to a
/// strictly larger distance, so that of several farthest points the first
/// is found. A range of two points or fewer has no interior point.
pub fn farthest(distances: &Vec<i128>) -> (found: Option<(usize, i128)>)
    ensures
        found is Some <==> distances@.len() >= 3,
        found matches Some((m, d)) ==> is_first_maximum(widened(distances@), m as int),
        found matches Some((m, d)) ==> m == first_maximum(widened(distances@)),
        found matches Some((m, d)) ==> d == distances@[m as int],
{
    let n = distances.len();
    if n < 3 {
        return None;
    }
    let ghost values = widened(distances@);
    let mut i_max: usize = 1;
    let mut d_max: i128 = distances[1];
    let mut i: usize = 2;
    while i < n - 1
        invariant
            n == distances@.len(),
            values == widened(distances@),
            2 <= i <= n - 1,
            0 < i_max < i,
            d_max == distances@[i_max as int],
            forall|j: int| 0 < j < i_max ==> values[j] < values[i_max as int],
            forall|j: int| i_max <= j < i ==> values[j] <= values[i_max as int],
        decreases n - i,
    {
        if distances[i] > d_max {
            i_max = i;
            d_max = distances[i];
        }
        i += 1;
    }
    proof {
        lemma_first_maximum_is(values, i_max as int);
    }
    Some((i_max, d_max))
}

/// The decision for one range: the position at which it is split, if its
/// farthest interior point lies farther from the chord than `threshold`.
pub open spec fn split_of(distances: Seq<int>, threshold: int) -> Option<int> {
    if distances.len() >= 3 && distances[first_maximum(distances)] > threshold {
        Some(first_maximum(distances))
    } else {
        None
    }
}

/// Decides whether a range is split, and where: at the first of its
/// farthest interior points, if the distance of that point is strictly
/// greater than `threshold`. A range that is not split is final.
pub fn split_index(distances: &Vec<i128>, threshold: i128) -> (split: Option<usize>)
    ensures
        split is Some <==> split_of(widened(distances@), threshold as int) is Some,
        split matches Some(m) ==> split_of(widened(distances@), threshold as int) == Some(m as int),
        split matches Some(m) ==> 0 < m < distances@.len() - 1,
{
    match farthest(distances) {
        Some((i_max, d_max)) => {
            if d_max > threshold {
                Some(i_max)
            } else {
                None
            }
        },
        None => None,
    }
}

} // verus!
