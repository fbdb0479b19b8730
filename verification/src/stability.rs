//! A simplified curve is stable: simplified again with the same tolerance,
//! it keeps every point.

use vstd::prelude::*;
use crate::distance::range_deviations;
use crate::mask::count_prefix;
use crate::partition::{
    first_maximum, is_first_maximum, lemma_first_maximum_exists, lemma_first_maximum_is,
};
use crate::simplify::{chord_of, rdp_mask, retained, split_point, lemma_split_point_inside};

verus! {

/// The points that `mask` retains among the first `k`, in their order.
pub open spec fn selected_prefix(points: Seq<Seq<int>>, mask: Seq<bool>, k: nat) -> Seq<Seq<int>>
    decreases k,
{
    if k == 0 {
        Seq::empty()
    } else if mask[k - 1] {
        selected_prefix(points, mask, (k - 1) as nat).push(points[k - 1])
    } else {
        selected_prefix(points, mask, (k - 1) as nat)
    }
}

/// The curve of the points that `mask` retains.
pub open spec fn selected(points: Seq<Seq<int>>, mask: Seq<bool>) -> Seq<Seq<int>> {
    selected_prefix(points, mask, points.len())
}

/// The points at the given indices.
pub open spec fn gathered(points: Seq<Seq<int>>, indices: Seq<int>) -> Seq<Seq<int>> {
    Seq::new(indices.len(), |j: int| points[indices[j]])
}

/// The indices strictly inside the range `lo..=hi` that are retained, in
/// rising order.
pub open spec fn retained_indices(points: Seq<Seq<int>>, tolerance_sq: int, lo: int, hi: int) -> Seq<
    int,
>
    decreases hi - lo,
    via retained_indices_decreases
{
    match split_point(points, tolerance_sq, lo, hi) {
        Some(m) => retained_indices(points, tolerance_sq, lo, m).push(m) + retained_indices(
            points,
            tolerance_sq,
            m,
            hi,
        ),
        None => Seq::empty(),
    }
}

#[via_fn]
proof fn retained_indices_decreases(points: Seq<Seq<int>>, tolerance_sq: int, lo: int, hi: int) {
    lemma_split_point_inside(points, tolerance_sq, lo, hi);
}

/// The indices of the range `lo..=hi` that are kept: its two endpoints and
/// what it retains between them.
pub open spec fn kept_indices(points: Seq<Seq<int>>, tolerance_sq: int, lo: int, hi: int) -> Seq<
    int,
> {
    seq![lo] + retained_indices(points, tolerance_sq, lo, hi) + seq![hi]
}

/// Whether the indices rise strictly.
pub open spec fn rising(indices: Seq<int>) -> bool {
    forall|j: int, k: int| 0 <= j < k < indices.len() ==> indices[j] < indices[k]
}

/// The retained indices of a range rise, lie strictly inside the range and
/// are the members of [`retained`].
pub proof fn lemma_retained_indices(points: Seq<Seq<int>>, tolerance_sq: int, lo: int, hi: int)
    ensures
        rising(retained_indices(points, tolerance_sq, lo, hi)),
        forall|j: int|
            0 <= j < retained_indices(points, tolerance_sq, lo, hi).len() ==> lo
                < #[trigger] retained_indices(points, tolerance_sq, lo, hi)[j] < hi,
        forall|i: int|
            retained(points, tolerance_sq, lo, hi).contains(i) <==> retained_indices(
                points,
                tolerance_sq,
                lo,
                hi,
            ).contains(i),
    decreases hi - lo,
{
    lemma_split_point_inside(points, tolerance_sq, lo, hi);
    let all = retained_indices(points, tolerance_sq, lo, hi);
    match split_point(points, tolerance_sq, lo, hi) {
        Some(m) => {
            let left = retained_indices(points, tolerance_sq, lo, m);
            let right = retained_indices(points, tolerance_sq, m, hi);
            lemma_retained_indices(points, tolerance_sq, lo, m);
            lemma_retained_indices(points, tolerance_sq, m, hi);
            assert(all == left.push(m) + right);
            assert(retained(points, tolerance_sq, lo, hi) == retained(
                points,
                tolerance_sq,
                lo,
                m,
            ).insert(m).union(retained(points, tolerance_sq, m, hi)));
            assert forall|j: int| 0 <= j < all.len() implies lo < #[trigger] all[j] < hi by {
                if j < left.len() {
                    assert(all[j] == left[j]);
                } else if j == left.len() {
                    assert(all[j] == m);
                } else {
                    assert(all[j] == right[j - left.len() - 1]);
                }
            }
            assert forall|j: int, k: int| 0 <= j < k < all.len() implies all[j] < all[k] by {
                if j < left.len() {
                    assert(all[j] == left[j]);
                } else if j == left.len() {
                    assert(all[j] == m);
                } else {
                    assert(all[j] == right[j - left.len() - 1]);
                }
                if k < left.len() {
                    assert(all[k] == left[k]);
                } else if k == left.len() {
                    assert(all[k] == m);
                } else {
                    assert(all[k] == right[k - left.len() - 1]);
                }
            }
            assert forall|i: int|
                retained(points, tolerance_sq, lo, hi).contains(i) <==> all.contains(i) by {
                if left.contains(i) {
                    let j = choose|j: int| 0 <= j < left.len() && left[j] == i;
                    assert(all[j] == i);
                }
                if right.contains(i) {
                    let j = choose|j: int| 0 <= j < right.len() && right[j] == i;
                    assert(all[j + left.len() + 1] == i);
                }
                assert(all[left.len() as int] == m);
                if all.contains(i) {
                    let j = choose|j: int| 0 <= j < all.len() && all[j] == i;
                    if j < left.len() {
                        assert(left[j] == i);
                    } else if j > left.len() {
                        assert(right[j - left.len() - 1] == i);
                    }
                }
            }
        },
        None => {
            assert(all == Seq::<int>::empty());
        },
    }
}

/// The kept indices of a range rise from `lo` to `hi`.
pub proof fn lemma_kept_indices(points: Seq<Seq<int>>, tolerance_sq: int, lo: int, hi: int)
    requires
        lo < hi,
    ensures
        rising(kept_indices(points, tolerance_sq, lo, hi)),
        kept_indices(points, tolerance_sq, lo, hi).len() == retained_indices(
            points,
            tolerance_sq,
            lo,
            hi,
        ).len() + 2,
        kept_indices(points, tolerance_sq, lo, hi)[0] == lo,
        kept_indices(points, tolerance_sq, lo, hi).last() == hi,
        forall|j: int|
            0 <= j < kept_indices(points, tolerance_sq, lo, hi).len() ==> lo
                <= #[trigger] kept_indices(points, tolerance_sq, lo, hi)[j] <= hi,
        forall|i: int|
            kept_indices(points, tolerance_sq, lo, hi).contains(i) <==> (i == lo || i == hi
                || retained(points, tolerance_sq, lo, hi).contains(i)),
{
    lemma_retained_indices(points, tolerance_sq, lo, hi);
    let inside = retained_indices(points, tolerance_sq, lo, hi);
    let all = kept_indices(points, tolerance_sq, lo, hi);
    assert forall|j: int| 0 <= j < all.len() implies lo <= #[trigger] all[j] <= hi by {
        if 0 < j < all.len() - 1 {
            assert(all[j] == inside[j - 1]);
        }
    }
    assert forall|j: int, k: int| 0 <= j < k < all.len() implies all[j] < all[k] by {
        if 0 < j < all.len() - 1 {
            assert(all[j] == inside[j - 1]);
        }
        if 0 < k < all.len() - 1 {
            assert(all[k] == inside[k - 1]);
        }
    }
    assert forall|i: int|
        all.contains(i) <==> (i == lo || i == hi || retained(points, tolerance_sq, lo, hi).contains(
            i,
        )) by {
        assert(all[0] == lo);
        assert(all[all.len() - 1] == hi);
        if inside.contains(i) {
            let j = choose|j: int| 0 <= j < inside.len() && inside[j] == i;
            assert(all[j + 1] == i);
        }
        if all.contains(i) {
            let j = choose|j: int| 0 <= j < all.len() && all[j] == i;
            if 0 < j < all.len() - 1 {
                assert(inside[j - 1] == i);
            }
        }
    }
}

/// Selecting by a mask whose `true` entries are exactly the given rising
/// indices gathers the points at those indices.
pub proof fn lemma_selected_prefix_is_gathered(
    points: Seq<Seq<int>>,
    mask: Seq<bool>,
    indices: Seq<int>,
    k: nat,
)
    requires
        mask.len() == points.len(),
        k <= points.len(),
        rising(indices),
        forall|j: int| 0 <= j < indices.len() ==> 0 <= #[trigger] indices[j] < points.len(),
        forall|i: int| 0 <= i < points.len() ==> (mask[i] <==> indices.contains(i)),
    ensures
        count_prefix(mask, k) <= indices.len(),
        forall|j: int| 0 <= j < count_prefix(mask, k) ==> indices[j] < k,
        forall|j: int| count_prefix(mask, k) <= j < indices.len() ==> indices[j] >= k,
        selected_prefix(points, mask, k) == gathered(
            points,
            indices.take(count_prefix(mask, k) as int),
        ),
    decreases k,
{
    if k == 0 {
        assert(selected_prefix(points, mask, k) =~= gathered(points, indices.take(0)));
    } else {
        lemma_selected_prefix_is_gathered(points, mask, indices, (k - 1) as nat);
        let c = count_prefix(mask, (k - 1) as nat) as int;
        if mask[k - 1] {
            let j = choose|j: int| 0 <= j < indices.len() && indices[j] == k - 1;
            assert(j >= c);
            if j > c {
                assert(indices[c] < indices[j]);
            }
            assert(j == c);
            assert forall|e: int| c + 1 <= e < indices.len() implies indices[e] >= k by {
                assert(indices[c] < indices[e]);
            }
            assert(selected_prefix(points, mask, k) =~= gathered(points, indices.take(c + 1)));
        } else {
            assert forall|e: int| c <= e < indices.len() implies indices[e] >= k by {
                if indices[e] == k - 1 {
                    assert(indices.contains(k - 1));
                }
            }
        }
    }
}

/// What a range retains depends on the points of the range alone: a curve
/// that holds the same points at positions moved by `shift` retains the
/// same of them.
pub proof fn lemma_retained_local(
    p: Seq<Seq<int>>,
    q: Seq<Seq<int>>,
    tolerance_sq: int,
    lo: int,
    hi: int,
    shift: int,
)
    requires
        forall|k: int| lo <= k <= hi ==> #[trigger] p[k] == q[k + shift],
    ensures
        forall|i: int| #[trigger]
            retained(p, tolerance_sq, lo, hi).contains(i) <==> retained(
                q,
                tolerance_sq,
                lo + shift,
                hi + shift,
            ).contains(i + shift),
    decreases hi - lo,
{
    lemma_split_point_inside(p, tolerance_sq, lo, hi);
    if hi - lo >= 2 {
        assert(p[lo] == q[lo + shift]);
        assert(p[hi] == q[hi + shift]);
        assert forall|k: int| 0 <= k <= hi - lo implies #[trigger] range_deviations(p, lo, hi)[k]
            == range_deviations(q, lo + shift, hi + shift)[k] by {
            assert(p[lo + k] == q[lo + k + shift]);
        }
        assert(range_deviations(p, lo, hi) =~= range_deviations(q, lo + shift, hi + shift));
        assert(chord_of(p, lo, hi) == chord_of(q, lo + shift, hi + shift));
    }
    match split_point(p, tolerance_sq, lo, hi) {
        Some(m) => {
            assert(split_point(q, tolerance_sq, lo + shift, hi + shift) == Some(m + shift));
            lemma_retained_local(p, q, tolerance_sq, lo, m, shift);
            lemma_retained_local(p, q, tolerance_sq, m, hi, shift);
            assert(retained(p, tolerance_sq, lo, hi) == retained(p, tolerance_sq, lo, m).insert(
                m,
            ).union(retained(p, tolerance_sq, m, hi)));
            assert(retained(q, tolerance_sq, lo + shift, hi + shift) == retained(
                q,
                tolerance_sq,
                lo + shift,
                m + shift,
            ).insert(m + shift).union(retained(q, tolerance_sq, m + shift, hi + shift)));
            assert forall|i: int| #[trigger]
                retained(p, tolerance_sq, lo, hi).contains(i) <==> retained(
                    q,
                    tolerance_sq,
                    lo + shift,
                    hi + shift,
                ).contains(i + shift) by {
                assert(retained(p, tolerance_sq, lo, m).contains(i) <==> retained(
                    q,
                    tolerance_sq,
                    lo + shift,
                    m + shift,
                ).contains(i + shift));
                assert(retained(p, tolerance_sq, m, hi).contains(i) <==> retained(
                    q,
                    tolerance_sq,
                    m + shift,
                    hi + shift,
                ).contains(i + shift));
            }
        },
        None => {
            assert(split_point(q, tolerance_sq, lo + shift, hi + shift) is None);
        },
    }
}

/// The points that are kept of a range, taken as a curve of their own,
/// are all retained: the curve is split where the range was split, and a
/// range that was not split has left its two endpoints only.
pub proof fn lemma_kept_range_stable(points: Seq<Seq<int>>, tolerance_sq: int, lo: int, hi: int)
    requires
        lo < hi,
    ensures
        forall|j: int|
            0 < j < kept_indices(points, tolerance_sq, lo, hi).len() - 1 ==> #[trigger] retained(
                gathered(points, kept_indices(points, tolerance_sq, lo, hi)),
                tolerance_sq,
                0,
                kept_indices(points, tolerance_sq, lo, hi).len() - 1,
            ).contains(j),
    decreases hi - lo,
{
    let all = kept_indices(points, tolerance_sq, lo, hi);
    let curve = gathered(points, all);
    let last = all.len() - 1;
    lemma_kept_indices(points, tolerance_sq, lo, hi);
    lemma_split_point_inside(points, tolerance_sq, lo, hi);
    match split_point(points, tolerance_sq, lo, hi) {
        None => {
            assert(retained_indices(points, tolerance_sq, lo, hi) == Seq::<int>::empty());
        },
        Some(m) => {
            let left = kept_indices(points, tolerance_sq, lo, m);
            let right = kept_indices(points, tolerance_sq, m, hi);
            lemma_kept_indices(points, tolerance_sq, lo, m);
            lemma_kept_indices(points, tolerance_sq, m, hi);
            let pos = left.len() - 1;
            assert(retained_indices(points, tolerance_sq, lo, hi) == retained_indices(
                points,
                tolerance_sq,
                lo,
                m,
            ).push(m) + retained_indices(points, tolerance_sq, m, hi));
            assert(all =~= left + right.skip(1));
            assert(last == pos + right.len() - 1);
            assert forall|k: int| 0 <= k <= pos implies all[k] == left[k] by {}
            assert forall|k: int| 0 <= k < right.len() implies all[k + pos] == right[k] by {
                if k == 0 {
                    assert(all[pos] == left[pos]);
                } else {
                    assert(all[k + pos] == right.skip(1)[k - 1]);
                }
            }
            let deviations = range_deviations(points, lo, hi);
            let new_deviations = range_deviations(curve, 0, last);
            lemma_first_maximum_exists(deviations);
            assert(m - lo == first_maximum(deviations));
            assert(curve[0] == points[lo]);
            assert(curve[last] == points[hi]);
            assert forall|j: int| 0 <= j <= last implies #[trigger] new_deviations[j]
                == deviations[all[j] - lo] by {
                assert(curve[0 + j] == points[lo + (all[j] - lo)]);
            }
            assert(is_first_maximum(new_deviations, pos)) by {
                assert(all[pos] == m);
                assert forall|j: int| 0 < j < pos implies new_deviations[j] < new_deviations[pos] by {
                    assert(all[j] < all[pos]);
                    assert(all[0] < all[j]);
                    assert(deviations[all[j] - lo] < deviations[m - lo]);
                }
                assert forall|j: int| pos <= j < new_deviations.len() - 1 implies new_deviations[j]
                    <= new_deviations[pos] by {
                    if j > pos {
                        assert(all[pos] < all[j]);
                    }
                    assert(all[j] < all[last]);
                    assert(deviations[all[j] - lo] <= deviations[m - lo]);
                }
            }
            lemma_first_maximum_is(new_deviations, pos);
            assert(chord_of(curve, 0, last) == chord_of(points, lo, hi));
            assert(split_point(curve, tolerance_sq, 0, last) == Some(pos));
            assert(retained(curve, tolerance_sq, 0, last) == retained(
                curve,
                tolerance_sq,
                0,
                pos,
            ).insert(pos).union(retained(curve, tolerance_sq, pos, last)));
            lemma_kept_range_stable(points, tolerance_sq, lo, m);
            lemma_kept_range_stable(points, tolerance_sq, m, hi);
            let left_curve = gathered(points, left);
            let right_curve = gathered(points, right);
            assert forall|k: int| 0 <= k <= pos implies #[trigger] left_curve[k] == curve[k + 0] by {
                assert(all[k] == left[k]);
            }
            assert forall|k: int| 0 <= k <= right.len() - 1 implies #[trigger] right_curve[k]
                == curve[k + pos] by {
                assert(all[k + pos] == right[k]);
            }
            lemma_retained_local(left_curve, curve, tolerance_sq, 0, pos, 0);
            lemma_retained_local(right_curve, curve, tolerance_sq, 0, right.len() - 1, pos);
            assert forall|j: int| 0 < j < last implies #[trigger] retained(
                curve,
                tolerance_sq,
                0,
                last,
            ).contains(j) by {
                if j < pos {
                    assert(retained(left_curve, tolerance_sq, 0, pos).contains(j));
                    assert(retained(curve, tolerance_sq, 0int + 0, pos + 0).contains(j + 0));
                } else if j > pos {
                    assert(retained(right_curve, tolerance_sq, 0, right.len() - 1).contains(j - pos));
                    assert(retained(curve, tolerance_sq, 0int + pos, right.len() - 1 + pos).contains(
                        j - pos + pos,
                    ));
                }
            }
        },
    }
}

/// Simplifying the curve of the retained points again, with the same
/// tolerance, retains every one of them.
pub proof fn lemma_idempotent(points: Seq<Seq<int>>, epsilon: nat)
    ensures
        forall|i: int|
            0 <= i < selected(points, rdp_mask(points, epsilon)).len() ==> rdp_mask(
                selected(points, rdp_mask(points, epsilon)),
                epsilon,
            )[i],
{
    let n = points.len();
    let mask = rdp_mask(points, epsilon);
    let tolerance_sq = (epsilon * epsilon) as int;
    if n == 0 {
    } else if n == 1 {
        assert(selected_prefix(points, mask, 0).len() == 0);
        assert(selected(points, mask).len() == 1);
    } else {
        let all = kept_indices(points, tolerance_sq, 0, n - 1);
        lemma_kept_indices(points, tolerance_sq, 0, n - 1);
        lemma_selected_prefix_is_gathered(points, mask, all, n);
        let count = count_prefix(mask, n) as int;
        if count < all.len() {
            assert(all[count] >= n);
        }
        assert(all.take(count) =~= all);
        lemma_kept_range_stable(points, tolerance_sq, 0, n - 1);
    }
}

} // verus!
