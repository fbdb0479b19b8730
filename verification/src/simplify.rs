//! The simplification itself: which points of a curve are retained.
//!
//! A range of the curve is split at its farthest interior point when that
//! point lies farther from the chord than the tolerance; the split point is
//! retained and both parts are treated in the same way. A range whose
//! points all lie within the tolerance keeps its two endpoints only.

use vstd::prelude::*;
use crate::buffer::{range_displacements, ChordBuffer, SPAN_SQ};
use crate::distance::{
    buffered_distances, line_point_distances, range_deviations, span_product,
    lemma_left_part_reads_prefix,
};
use crate::geometry::{
    deviation, deviation_scale, displacement, dot, norm_sq, lemma_displacement_prefix_bound,
    lemma_norm_sq_nonnegative,
};
use crate::mask::RetentionMask;
use crate::partition::{first_maximum, split_index, split_of, lemma_first_maximum_exists};
use crate::points::{well_formed, InputError, PointSequence, input_fault, row_major};

verus! {

/// The chord of the range `lo..=hi`: the vector from its first to its last
/// point.
pub open spec fn chord_of(points: Seq<Seq<int>>, lo: int, hi: int) -> Seq<int> {
    displacement(points[hi], points[lo])
}

/// The index at which the range `lo..=hi` is split, if it is split: the
/// first of its farthest interior points, provided that the squared
/// distance of that point from the chord exceeds `tolerance_sq`.
pub open spec fn split_point(points: Seq<Seq<int>>, tolerance_sq: int, lo: int, hi: int) -> Option<
    int,
> {
    if hi - lo >= 2 {
        match split_of(
            range_deviations(points, lo, hi),
            tolerance_sq * deviation_scale(chord_of(points, lo, hi)),
        ) {
            Some(m) => Some(lo + m),
            None => None,
        }
    } else {
        None
    }
}

/// The points strictly inside the range `lo..=hi` that are retained.
pub open spec fn retained(points: Seq<Seq<int>>, tolerance_sq: int, lo: int, hi: int) -> Set<int>
    decreases hi - lo,
    via retained_decreases
{
    match split_point(points, tolerance_sq, lo, hi) {
        Some(m) => retained(points, tolerance_sq, lo, m).insert(m).union(
            retained(points, tolerance_sq, m, hi),
        ),
        None => Set::empty(),
    }
}

#[via_fn]
proof fn retained_decreases(points: Seq<Seq<int>>, tolerance_sq: int, lo: int, hi: int) {
    if hi - lo >= 2 {
        lemma_first_maximum_exists(range_deviations(points, lo, hi));
    }
}

/// The retention mask of a curve for the tolerance `epsilon`: the first
/// and the last point, and what the whole range retains between them.
pub open spec fn rdp_mask(points: Seq<Seq<int>>, epsilon: nat) -> Seq<bool> {
    Seq::new(
        points.len(),
        |i: int|
            i == 0 || i == points.len() - 1 || retained(
                points,
                (epsilon * epsilon) as int,
                0,
                points.len() - 1,
            ).contains(i),
    )
}

/// A range is split strictly inside itself.
pub proof fn lemma_split_point_inside(points: Seq<Seq<int>>, tolerance_sq: int, lo: int, hi: int)
    ensures
        split_point(points, tolerance_sq, lo, hi) matches Some(m) ==> lo < m < hi,
{
    if hi - lo >= 2 {
        lemma_first_maximum_exists(range_deviations(points, lo, hi));
    }
}

/// What a range retains lies strictly inside it.
pub proof fn lemma_retained_inside(points: Seq<Seq<int>>, tolerance_sq: int, lo: int, hi: int)
    ensures
        forall|i: int| retained(points, tolerance_sq, lo, hi).contains(i) ==> lo < i < hi,
    decreases hi - lo,
{
    lemma_split_point_inside(points, tolerance_sq, lo, hi);
    match split_point(points, tolerance_sq, lo, hi) {
        Some(m) => {
            lemma_retained_inside(points, tolerance_sq, lo, m);
            lemma_retained_inside(points, tolerance_sq, m, hi);
            assert(retained(points, tolerance_sq, lo, hi) == retained(
                points,
                tolerance_sq,
                lo,
                m,
            ).insert(m).union(retained(points, tolerance_sq, m, hi)));
        },
        None => {
            assert(retained(points, tolerance_sq, lo, hi) == Set::<int>::empty());
        },
    }
}

/// No two points of a well-formed curve are farther apart than the square
/// root of `SPAN_SQ`, so that no range is split for a squared tolerance of
/// `SPAN_SQ` or more.
pub proof fn lemma_saturated_tolerance(points: Seq<Seq<int>>, tolerance_sq: int, lo: int, hi: int)
    requires
        well_formed(points),
        0 <= lo <= hi < points.len(),
        tolerance_sq >= SPAN_SQ,
    ensures
        split_point(points, tolerance_sq, lo, hi) is None,
        retained(points, tolerance_sq, lo, hi) == Set::<int>::empty(),
{
    if hi - lo >= 2 {
        let deviations = range_deviations(points, lo, hi);
        lemma_first_maximum_exists(deviations);
        let m = first_maximum(deviations);
        let v = displacement(points[lo + m], points[lo]);
        let chord = chord_of(points, lo, hi);
        assert(range_displacements(points, lo, hi)[hi - lo] == chord);
        assert(deviations[m] == deviation(v, chord));
        lemma_displacement_prefix_bound(points[lo + m], points[lo], points[lo + m].len());
        lemma_norm_sq_nonnegative(v);
        lemma_norm_sq_nonnegative(chord);
        let scale = deviation_scale(chord);
        let along = dot(v, chord);
        assert(deviation(v, chord) <= norm_sq(v) * scale) by (nonlinear_arith)
            requires
                deviation(v, chord) == norm_sq(v) * scale - along * along || deviation(v, chord)
                    == norm_sq(v) * scale,
        ;
        assert(norm_sq(v) * scale <= tolerance_sq * scale) by (nonlinear_arith)
            requires
                norm_sq(v) <= tolerance_sq,
                scale >= 1,
        ;
    }
}

/// The squared tolerance, cut off at `SPAN_SQ`.
pub(crate) fn squared_tolerance(epsilon: u64) -> (tolerance_sq: i128)
    ensures
        0 <= tolerance_sq <= SPAN_SQ,
        epsilon * epsilon <= SPAN_SQ ==> tolerance_sq == epsilon * epsilon,
        epsilon * epsilon > SPAN_SQ ==> tolerance_sq == SPAN_SQ,
{
    if epsilon >= 0x8000_0000 {
        assert(epsilon * epsilon >= 0x4000_0000_0000_0000) by (nonlinear_arith)
            requires
                epsilon >= 0x8000_0000,
        ;
        SPAN_SQ
    } else {
        assert(0 <= epsilon * epsilon <= 0x4000_0000_0000_0000) by (nonlinear_arith)
            requires
                0 <= epsilon < 0x8000_0000,
        ;
        (epsilon as i128) * (epsilon as i128)
    }
}

/// Treats the range `lo..=hi`: marks in `mask` the points that the range
/// retains. `inherited` is the buffer of the range where the caller has
/// one to lend; a range that inherits none computes its own. Of a range
/// that is split, the left part is lent a prefix of the buffer, and the
/// right part, which starts at another point, inherits nothing.
fn rdp_recurse(
    points: &PointSequence<'_>,
    inherited: Option<ChordBuffer<'_>>,
    mask: &mut RetentionMask,
    lo: usize,
    hi: usize,
    tolerance_sq: i128,
)
    requires
        points.wf(),
        lo <= hi < points@.len(),
        old(mask)@.len() == points@.len(),
        0 <= tolerance_sq <= SPAN_SQ,
        inherited matches Some(buffer) ==> buffer.wf() && buffer.covers(
            points@,
            lo as int,
            hi as int,
        ),
    ensures
        final(mask)@.len() == old(mask)@.len(),
        forall|i: int|
            0 <= i < old(mask)@.len() ==> final(mask)@[i] == (old(mask)@[i] || retained(
                points@,
                tolerance_sq as int,
                lo as int,
                hi as int,
            ).contains(i)),
    decreases hi - lo,
{
    if hi - lo < 2 {
        return ;
    }
    let buffer = match inherited {
        Some(buffer) => buffer,
        None => ChordBuffer::fresh(points, lo, hi),
    };
    let distances = buffered_distances(&buffer);
    let chord_sq = buffer.magnitude(hi - lo);
    let scale: i128 = if chord_sq == 0 {
        1
    } else {
        chord_sq
    };
    proof {
        lemma_split_point_inside(points@, tolerance_sq as int, lo as int, hi as int);
        assert(buffer@[hi - lo] == chord_of(points@, lo as int, hi as int));
        assert(0 <= tolerance_sq * scale <= 0x1000_0000_0000_0000_0000_0000_0000_0000)
            by (nonlinear_arith)
            requires
                0 <= tolerance_sq <= 0x4000_0000_0000_0000,
                1 <= scale <= 0x4000_0000_0000_0000,
        ;
    }
    if let Some(m) = split_index(&distances, tolerance_sq * scale) {
        let split = lo + m;
        let left = buffer.prefix(m + 1);
        proof {
            lemma_left_part_reads_prefix(points@, lo as int, split as int, hi as int);
        }
        mask.retain(split);
        rdp_recurse(points, Some(left), mask, lo, split, tolerance_sq);
        rdp_recurse(points, None, mask, split, hi, tolerance_sq);
    }
}

/// Treats the range `lo..=hi` as [`rdp_recurse`] does, but without any
/// buffer: every range computes its distances from the coordinates.
fn rdp_recurse_direct(
    points: &PointSequence<'_>,
    mask: &mut RetentionMask,
    lo: usize,
    hi: usize,
    tolerance_sq: i128,
)
    requires
        points.wf(),
        lo <= hi < points@.len(),
        old(mask)@.len() == points@.len(),
        0 <= tolerance_sq <= SPAN_SQ,
    ensures
        final(mask)@.len() == old(mask)@.len(),
        forall|i: int|
            0 <= i < old(mask)@.len() ==> final(mask)@[i] == (old(mask)@[i] || retained(
                points@,
                tolerance_sq as int,
                lo as int,
                hi as int,
            ).contains(i)),
    decreases hi - lo,
{
    if hi - lo < 2 {
        return ;
    }
    let distances = line_point_distances(points, lo, hi);
    let chord_sq = span_product(points, hi, hi, lo);
    let scale: i128 = if chord_sq == 0 {
        1
    } else {
        chord_sq
    };
    proof {
        lemma_split_point_inside(points@, tolerance_sq as int, lo as int, hi as int);
        lemma_norm_sq_nonnegative(chord_of(points@, lo as int, hi as int));
        assert(0 <= tolerance_sq * scale <= 0x1000_0000_0000_0000_0000_0000_0000_0000)
            by (nonlinear_arith)
            requires
                0 <= tolerance_sq <= 0x4000_0000_0000_0000,
                1 <= scale <= 0x4000_0000_0000_0000,
        ;
    }
    if let Some(m) = split_index(&distances, tolerance_sq * scale) {
        let split = lo + m;
        mask.retain(split);
        rdp_recurse_direct(points, mask, lo, split, tolerance_sq);
        rdp_recurse_direct(points, mask, split, hi, tolerance_sq);
    }
}

/// What the whole curve retains for a tolerance is what it retains for
/// the tolerance as the recursion holds it, cut off at `SPAN_SQ`.
pub proof fn lemma_cut_off_tolerance(points: Seq<Seq<int>>, epsilon: nat, tolerance_sq: int)
    requires
        well_formed(points),
        points.len() >= 1,
        epsilon * epsilon <= SPAN_SQ ==> tolerance_sq == epsilon * epsilon,
        epsilon * epsilon > SPAN_SQ ==> tolerance_sq == SPAN_SQ,
    ensures
        retained(points, tolerance_sq, 0, points.len() - 1) == retained(
            points,
            (epsilon * epsilon) as int,
            0,
            points.len() - 1,
        ),
{
    if epsilon * epsilon > SPAN_SQ {
        lemma_saturated_tolerance(points, (epsilon * epsilon) as int, 0, points.len() - 1);
        lemma_saturated_tolerance(points, SPAN_SQ as int, 0, points.len() - 1);
    }
}

/// Simplifies a curve: the mask that is returned retains the first and the
/// last point, and between them the points at which the
/// Ramer-Douglas-Peucker recursion splits for the tolerance `epsilon`.
/// The left part of a split range reads the chord buffer of the whole.
pub fn rdp(points: &PointSequence<'_>, epsilon: u64) -> (mask: RetentionMask)
    requires
        points.wf(),
    ensures
        mask@ == rdp_mask(points@, epsilon as nat),
        mask@.len() == points@.len(),
        points@.len() >= 1 ==> mask@[0] && mask@[points@.len() - 1],
        points@.len() <= 2 ==> forall|i: int| 0 <= i < mask@.len() ==> mask@[i],
{
    let n = points.len();
    let mut mask = RetentionMask::endpoints(n);
    if n >= 1 {
        let tolerance_sq = squared_tolerance(epsilon);
        rdp_recurse(points, None, &mut mask, 0, n - 1, tolerance_sq);
        proof {
            lemma_cut_off_tolerance(points@, epsilon as nat, tolerance_sq as int);
            lemma_retained_inside(points@, tolerance_sq as int, 0, n - 1);
        }
    }
    assert(mask@ =~= rdp_mask(points@, epsilon as nat));
    mask
}

/// Simplifies a curve as [`rdp`] does, but keeps no chord buffer: the
/// distances of every range are computed from the coordinates.
pub fn rdp_recomputing(points: &PointSequence<'_>, epsilon: u64) -> (mask: RetentionMask)
    requires
        points.wf(),
    ensures
        mask@ == rdp_mask(points@, epsilon as nat),
{
    let n = points.len();
    let mut mask = RetentionMask::endpoints(n);
    if n >= 1 {
        let tolerance_sq = squared_tolerance(epsilon);
        rdp_recurse_direct(points, &mut mask, 0, n - 1, tolerance_sq);
        proof {
            lemma_cut_off_tolerance(points@, epsilon as nat, tolerance_sq as int);
            lemma_retained_inside(points@, tolerance_sq as int, 0, n - 1);
        }
    }
    assert(mask@ =~= rdp_mask(points@, epsilon as nat));
    mask
}

/// Simplifies the curve whose points lie row after row in `coords`, with
/// `width` coordinates each: the flags of the retained points, or the
/// reason for which `coords` is no curve.
pub fn simplify(coords: &[i64], width: usize, epsilon: u64) -> (result: Result<
    Vec<bool>,
    InputError,
>)
    ensures
        result is Ok <==> input_fault(coords@, width as nat) is None,
        result matches Ok(flags) ==> flags@ == rdp_mask(
            row_major(coords@, width as nat),
            epsilon as nat,
        ),
        result matches Err(fault) ==> input_fault(coords@, width as nat) == Some(fault),
{
    match PointSequence::new(coords, width) {
        Ok(points) => Ok(rdp(&points, epsilon).to_vec()),
        Err(fault) => Err(fault),
    }
}

} // verus!
