//! What holds of every simplification.

use vstd::prelude::*;
use crate::distance::{point_deviation, range_deviations};
use crate::geometry::{
    deviation, deviation_scale, displacement, norm_sq, scaled, lemma_deviation_scaled,
    lemma_displacement_scaled, lemma_dot_scaled, lemma_norm_of_zeros, lemma_scale_positive,
};
use crate::mask::{count_prefix, endpoints_only, retained_count};
use crate::partition::{
    first_maximum, is_first_maximum, lemma_first_maximum_exists, lemma_first_maximum_is,
};
use crate::points::rectangular;
use crate::simplify::{
    chord_of, rdp_mask, retained, split_point, lemma_retained_inside, lemma_split_point_inside,
};

verus! {

/// The mask has one flag per point and retains the first and the last
/// point; a curve of two points or fewer is retained whole.
pub proof fn lemma_endpoints_retained(points: Seq<Seq<int>>, epsilon: nat)
    ensures
        rdp_mask(points, epsilon).len() == points.len(),
        points.len() >= 1 ==> rdp_mask(points, epsilon)[0] && rdp_mask(points, epsilon)[
            points.len() - 1
        ],
        points.len() <= 2 ==> forall|i: int|
            0 <= i < points.len() ==> rdp_mask(points, epsilon)[i],
{
}

/// Whatever a range retains for a tolerance, it retains for every smaller
/// tolerance.
pub proof fn lemma_retained_grows(
    points: Seq<Seq<int>>,
    smaller_sq: int,
    larger_sq: int,
    lo: int,
    hi: int,
)
    requires
        smaller_sq <= larger_sq,
    ensures
        retained(points, larger_sq, lo, hi).subset_of(retained(points, smaller_sq, lo, hi)),
    decreases hi - lo,
{
    lemma_split_point_inside(points, larger_sq, lo, hi);
    match split_point(points, larger_sq, lo, hi) {
        Some(m) => {
            let scale = deviation_scale(chord_of(points, lo, hi));
            lemma_scale_positive(chord_of(points, lo, hi));
            assert(smaller_sq * scale <= larger_sq * scale) by (nonlinear_arith)
                requires
                    smaller_sq <= larger_sq,
                    scale >= 1,
            ;
            assert(split_point(points, smaller_sq, lo, hi) == Some(m));
            lemma_retained_grows(points, smaller_sq, larger_sq, lo, m);
            lemma_retained_grows(points, smaller_sq, larger_sq, m, hi);
        },
        None => {},
    }
}

/// A mask that retains every point of another retains at least as many.
pub proof fn lemma_count_monotone(fewer: Seq<bool>, more: Seq<bool>, k: nat)
    requires
        fewer.len() == more.len(),
        k <= fewer.len(),
        forall|i: int| 0 <= i < fewer.len() && fewer[i] ==> more[i],
    ensures
        count_prefix(fewer, k) <= count_prefix(more, k),
    decreases k,
{
    if k > 0 {
        lemma_count_monotone(fewer, more, (k - 1) as nat);
    }
}

/// A tighter tolerance never retains fewer points: every point that is
/// retained for the larger tolerance is retained for the smaller one.
pub proof fn lemma_monotone_in_epsilon(points: Seq<Seq<int>>, smaller: nat, larger: nat)
    requires
        smaller <= larger,
    ensures
        forall|i: int|
            0 <= i < points.len() && rdp_mask(points, larger)[i] ==> rdp_mask(points, smaller)[i],
        retained_count(rdp_mask(points, larger)) <= retained_count(rdp_mask(points, smaller)),
{
    assert(smaller * smaller <= larger * larger) by (nonlinear_arith)
        requires
            0 <= smaller <= larger,
    ;
    lemma_retained_grows(
        points,
        (smaller * smaller) as int,
        (larger * larger) as int,
        0,
        points.len() - 1,
    );
    lemma_count_monotone(rdp_mask(points, larger), rdp_mask(points, smaller), points.len());
}

/// Whether `a` and `b` are neighbours in the simplified range `lo..=hi`:
/// both are kept, and nothing between them is.
pub open spec fn neighbours(
    points: Seq<Seq<int>>,
    tolerance_sq: int,
    lo: int,
    hi: int,
    a: int,
    b: int,
) -> bool {
    &&& lo <= a < b <= hi
    &&& a == lo || retained(points, tolerance_sq, lo, hi).contains(a)
    &&& b == hi || retained(points, tolerance_sq, lo, hi).contains(b)
    &&& forall|i: int| a < i < b ==> !retained(points, tolerance_sq, lo, hi).contains(i)
}

/// The simplified curve stays within the tolerance: every point that is
/// dropped lies no farther than the tolerance from the chord that joins
/// the two retained points around it.
pub proof fn lemma_dropped_points_within_tolerance(
    points: Seq<Seq<int>>,
    tolerance_sq: int,
    lo: int,
    hi: int,
    a: int,
    b: int,
    i: int,
)
    requires
        neighbours(points, tolerance_sq, lo, hi, a, b),
        a < i < b,
    ensures
        point_deviation(points, a, b, i) <= tolerance_sq * deviation_scale(chord_of(points, a, b)),
    decreases hi - lo,
{
    lemma_split_point_inside(points, tolerance_sq, lo, hi);
    lemma_retained_inside(points, tolerance_sq, lo, hi);
    match split_point(points, tolerance_sq, lo, hi) {
        Some(m) => {
            let left = retained(points, tolerance_sq, lo, m);
            let right = retained(points, tolerance_sq, m, hi);
            assert(retained(points, tolerance_sq, lo, hi) == left.insert(m).union(right));
            lemma_retained_inside(points, tolerance_sq, lo, m);
            lemma_retained_inside(points, tolerance_sq, m, hi);
            assert(retained(points, tolerance_sq, lo, hi).contains(m));
            if b <= m {
                assert forall|j: int| a < j < b implies !left.contains(j) by {
                    assert(!retained(points, tolerance_sq, lo, hi).contains(j));
                }
                lemma_dropped_points_within_tolerance(points, tolerance_sq, lo, m, a, b, i);
            } else {
                assert(a >= m);
                assert forall|j: int| a < j < b implies !right.contains(j) by {
                    assert(!retained(points, tolerance_sq, lo, hi).contains(j));
                }
                lemma_dropped_points_within_tolerance(points, tolerance_sq, m, hi, a, b, i);
            }
        },
        None => {
            assert(retained(points, tolerance_sq, lo, hi) == Set::<int>::empty());
            assert(a == lo && b == hi);
            let deviations = range_deviations(points, lo, hi);
            lemma_first_maximum_exists(deviations);
            let m = first_maximum(deviations);
            assert(deviations[i - lo] == point_deviation(points, lo, hi, i));
            assert(deviations[i - lo] <= deviations[m]);
        },
    }
}

/// Between two points that the mask retains one after the other, every
/// point of the curve lies no farther than `epsilon` from the chord that
/// joins the two.
pub proof fn lemma_simplified_curve_within_tolerance(
    points: Seq<Seq<int>>,
    epsilon: nat,
    a: int,
    b: int,
    i: int,
)
    requires
        0 <= a < i < b < points.len(),
        rdp_mask(points, epsilon)[a],
        rdp_mask(points, epsilon)[b],
        forall|j: int| a < j < b ==> !rdp_mask(points, epsilon)[j],
    ensures
        point_deviation(points, a, b, i) <= epsilon * epsilon * deviation_scale(
            chord_of(points, a, b),
        ),
{
    let tolerance_sq = (epsilon * epsilon) as int;
    let last = points.len() - 1;
    assert forall|j: int| a < j < b implies !retained(points, tolerance_sq, 0, last).contains(
        j,
    ) by {
        assert(!rdp_mask(points, epsilon)[j]);
    }
    lemma_dropped_points_within_tolerance(points, tolerance_sq, 0, last, a, b, i);
}

/// With tolerance zero a range is split exactly when one of its interior
/// points lies off its chord: every distance that is not zero exceeds the
/// tolerance.
pub proof fn lemma_zero_tolerance_split(points: Seq<Seq<int>>, lo: int, hi: int)
    ensures
        split_point(points, 0, lo, hi) is Some <==> exists|i: int|
            lo < i < hi && #[trigger] point_deviation(points, lo, hi, i) > 0,
{
    if hi - lo >= 2 {
        let deviations = range_deviations(points, lo, hi);
        lemma_first_maximum_exists(deviations);
        let m = first_maximum(deviations);
        assert(deviations[m] == point_deviation(points, lo, hi, lo + m));
        if exists|i: int| lo < i < hi && #[trigger] point_deviation(points, lo, hi, i) > 0 {
            let i = choose|i: int| lo < i < hi && #[trigger] point_deviation(points, lo, hi, i) > 0;
            assert(deviations[i - lo] == point_deviation(points, lo, hi, i));
            assert(deviations[i - lo] <= deviations[m]);
        }
    }
}

/// No point lies on the line through an earlier and a later point; where
/// the earlier and the later point coincide, no point between them
/// coincides with them.
pub open spec fn off_every_chord(points: Seq<Seq<int>>) -> bool {
    forall|lo: int, i: int, hi: int|
        0 <= lo < i < hi < points.len() ==> #[trigger] point_deviation(points, lo, hi, i) > 0
}

/// On a curve whose points lie off every chord, tolerance zero retains
/// every point of every range.
pub proof fn lemma_zero_tolerance_retains_inside(points: Seq<Seq<int>>, lo: int, hi: int)
    requires
        off_every_chord(points),
        0 <= lo <= hi < points.len(),
    ensures
        forall|i: int| lo < i < hi ==> retained(points, 0, lo, hi).contains(i),
    decreases hi - lo,
{
    if hi - lo >= 2 {
        lemma_zero_tolerance_split(points, lo, hi);
        lemma_split_point_inside(points, 0, lo, hi);
        assert(point_deviation(points, lo, hi, lo + 1) > 0);
        let m = split_point(points, 0, lo, hi)->Some_0;
        lemma_zero_tolerance_retains_inside(points, lo, m);
        lemma_zero_tolerance_retains_inside(points, m, hi);
        assert(retained(points, 0, lo, hi) == retained(points, 0, lo, m).insert(m).union(
            retained(points, 0, m, hi),
        ));
    }
}

/// Tolerance zero retains all points of a curve whose points lie off every
/// chord.
pub proof fn lemma_zero_tolerance_retains_all(points: Seq<Seq<int>>)
    requires
        off_every_chord(points),
    ensures
        forall|i: int| 0 <= i < points.len() ==> rdp_mask(points, 0)[i],
{
    if points.len() >= 1 {
        lemma_zero_tolerance_retains_inside(points, 0, points.len() - 1);
    }
}

/// The curve with every coordinate of every point multiplied by `factor`.
pub open spec fn scaled_curve(points: Seq<Seq<int>>, factor: int) -> Seq<Seq<int>> {
    Seq::new(points.len(), |i: int| scaled(points[i], factor))
}

/// Scaling a curve keeps the split point of each range, where the squared
/// tolerance is scaled by the square of the factor.
pub proof fn lemma_split_point_scaled(
    points: Seq<Seq<int>>,
    factor: int,
    tolerance_sq: int,
    lo: int,
    hi: int,
)
    requires
        rectangular(points),
        0 <= lo <= hi < points.len(),
        factor >= 1,
    ensures
        split_point(scaled_curve(points, factor), factor * factor * tolerance_sq, lo, hi)
            == split_point(points, tolerance_sq, lo, hi),
{
    if hi - lo >= 2 {
        let larger = scaled_curve(points, factor);
        let deviations = range_deviations(points, lo, hi);
        let larger_deviations = range_deviations(larger, lo, hi);
        let chord = chord_of(points, lo, hi);
        let f2 = factor * factor;
        let gain = if norm_sq(chord) == 0 {
            f2
        } else {
            f2 * f2
        };
        assert(f2 >= 1) by (nonlinear_arith)
            requires
                f2 == factor * factor,
                factor >= 1,
        ;
        assert(gain >= 1) by (nonlinear_arith)
            requires
                gain == f2 || gain == f2 * f2,
                f2 >= 1,
        ;
        lemma_displacement_scaled(points[hi], points[lo], factor);
        assert(chord_of(larger, lo, hi) == scaled(chord, factor));
        assert forall|j: int| 0 <= j <= hi - lo implies #[trigger] larger_deviations[j] == gain
            * deviations[j] by {
            let v = displacement(points[lo + j], points[lo]);
            lemma_displacement_scaled(points[lo + j], points[lo], factor);
            lemma_deviation_scaled(v, chord, factor);
            assert(larger_deviations[j] == deviation(scaled(v, factor), scaled(chord, factor)));
            assert(deviations[j] == deviation(v, chord));
        }
        lemma_first_maximum_exists(deviations);
        let m = first_maximum(deviations);
        assert(is_first_maximum(larger_deviations, m)) by {
            assert forall|j: int| 0 < j < m implies larger_deviations[j] < larger_deviations[m] by {
                let a = deviations[j];
                let b = deviations[m];
                assert(gain * a < gain * b) by (nonlinear_arith)
                    requires
                        a < b,
                        gain >= 1,
                ;
            }
            assert forall|j: int| m <= j < larger_deviations.len() - 1 implies larger_deviations[j]
                <= larger_deviations[m] by {
                let a = deviations[j];
                let b = deviations[m];
                assert(gain * a <= gain * b) by (nonlinear_arith)
                    requires
                        a <= b,
                        gain >= 1,
                ;
            }
        }
        lemma_first_maximum_is(larger_deviations, m);
        let top = deviations[m];
        let scale = deviation_scale(chord);
        let larger_scale = deviation_scale(chord_of(larger, lo, hi));
        lemma_deviation_scaled(displacement(points[lo + m], points[lo]), chord, factor);
        assert(larger_deviations[m] == gain * top);
        assert((gain * top > f2 * tolerance_sq * larger_scale) == (top > tolerance_sq * scale))
            by (nonlinear_arith)
            requires
                f2 >= 1,
                (gain == f2 && larger_scale == 1 && scale == 1) || (gain == f2 * f2 && larger_scale
                    == f2 * scale),
        ;
    }
}

/// Scaling a curve keeps what each range retains, where the squared
/// tolerance is scaled by the square of the factor.
pub proof fn lemma_retained_scaled(
    points: Seq<Seq<int>>,
    factor: int,
    tolerance_sq: int,
    lo: int,
    hi: int,
)
    requires
        rectangular(points),
        0 <= lo <= hi < points.len(),
        factor >= 1,
    ensures
        retained(scaled_curve(points, factor), factor * factor * tolerance_sq, lo, hi) == retained(
            points,
            tolerance_sq,
            lo,
            hi,
        ),
    decreases hi - lo,
{
    lemma_split_point_scaled(points, factor, tolerance_sq, lo, hi);
    lemma_split_point_inside(points, tolerance_sq, lo, hi);
    match split_point(points, tolerance_sq, lo, hi) {
        Some(m) => {
            lemma_retained_scaled(points, factor, tolerance_sq, lo, m);
            lemma_retained_scaled(points, factor, tolerance_sq, m, hi);
        },
        None => {},
    }
}

/// Multiplying every coordinate and the tolerance by the same positive
/// factor leaves the mask as it is.
pub proof fn lemma_scale_covariance(points: Seq<Seq<int>>, factor: nat, epsilon: nat)
    requires
        rectangular(points),
        factor >= 1,
    ensures
        rdp_mask(scaled_curve(points, factor as int), factor * epsilon) == rdp_mask(points, epsilon),
{
    assert((factor * epsilon) * (factor * epsilon) == factor * factor * (epsilon * epsilon))
        by (nonlinear_arith);
    if points.len() >= 1 {
        lemma_retained_scaled(
            points,
            factor as int,
            (epsilon * epsilon) as int,
            0,
            points.len() - 1,
        );
    }
    assert(rdp_mask(scaled_curve(points, factor as int), factor * epsilon) =~= rdp_mask(
        points,
        epsilon,
    ));
}

/// Whether point `i` is `base + steps[i] * direction`, for every `i`: the
/// points lie on one straight line.
pub open spec fn on_a_line(
    points: Seq<Seq<int>>,
    base: Seq<int>,
    direction: Seq<int>,
    steps: Seq<int>,
) -> bool {
    &&& steps.len() == points.len()
    &&& direction.len() == base.len()
    &&& forall|i: int| 0 <= i < points.len() ==> (#[trigger] points[i]).len() == base.len()
    &&& forall|i: int, d: int|
        0 <= i < points.len() && 0 <= d < base.len() ==> #[trigger] points[i][d] == base[d]
            + steps[i] * direction[d]
}

/// On a straight line the vector between two points is a multiple of the
/// direction of the line.
pub proof fn lemma_displacement_on_a_line(
    points: Seq<Seq<int>>,
    base: Seq<int>,
    direction: Seq<int>,
    steps: Seq<int>,
    i: int,
    origin: int,
)
    requires
        on_a_line(points, base, direction, steps),
        0 <= i < points.len(),
        0 <= origin < points.len(),
    ensures
        displacement(points[i], points[origin]) == scaled(direction, steps[i] - steps[origin]),
{
    assert forall|d: int| 0 <= d < base.len() implies points[i][d] - points[origin][d] == (steps[i]
        - steps[origin]) * direction[d] by {
        let u = direction[d];
        let a = steps[i];
        let b = steps[origin];
        assert(points[i][d] == base[d] + a * u);
        assert(points[origin][d] == base[d] + b * u);
        assert(a * u - b * u == (a - b) * u) by (nonlinear_arith);
    }
    assert(displacement(points[i], points[origin]) =~= scaled(direction, steps[i] - steps[origin]));
}

/// Points on one straight line reduce to the two endpoints, whatever the
/// tolerance. A curve that returns to its first point is left out, unless
/// all its points coincide: its chord has no direction, and its points are
/// measured by their distance from the first.
pub proof fn lemma_collinear_reduction(
    points: Seq<Seq<int>>,
    base: Seq<int>,
    direction: Seq<int>,
    steps: Seq<int>,
    epsilon: nat,
)
    requires
        on_a_line(points, base, direction, steps),
        points.len() >= 1 && points[0] == points[points.len() - 1] ==> forall|i: int|
            0 <= i < points.len() ==> #[trigger] points[i] == points[0],
    ensures
        rdp_mask(points, epsilon) == endpoints_only(points.len()),
{
    let n = points.len() as int;
    if n >= 3 {
        let deviations = range_deviations(points, 0, n - 1);
        lemma_first_maximum_exists(deviations);
        let m = first_maximum(deviations);
        let chord = chord_of(points, 0, n - 1);
        let v = displacement(points[m], points[0]);
        let a = steps[m] - steps[0];
        let b = steps[n - 1] - steps[0];
        let size = norm_sq(direction);
        lemma_displacement_on_a_line(points, base, direction, steps, m, 0);
        lemma_displacement_on_a_line(points, base, direction, steps, n - 1, 0);
        lemma_dot_scaled(direction, direction, a, a);
        lemma_dot_scaled(direction, direction, b, b);
        lemma_dot_scaled(direction, direction, a, b);
        assert(deviations[m] == deviation(v, chord));
        if norm_sq(chord) != 0 {
            assert((a * a * size) * (b * b * size) - (a * b * size) * (a * b * size) == 0)
                by (nonlinear_arith);
        } else if size == 0 {
            assert(a * a * size == 0) by (nonlinear_arith)
                requires
                    size == 0,
            ;
        } else {
            assert(b == 0) by (nonlinear_arith)
                requires
                    b * b * size == 0,
                    size != 0,
            ;
            assert forall|d: int| 0 <= d < base.len() implies points[n - 1][d] == points[0][d] by {
                assert(chord[d] == 0 * direction[d]);
                assert(chord[d] == points[n - 1][d] - points[0][d]);
            }
            assert(points[n - 1] =~= points[0]);
            assert(points[m] == points[0]);
            lemma_norm_of_zeros(v, v.len());
        }
        assert(deviations[m] == 0);
        lemma_scale_positive(chord);
        assert(epsilon * epsilon * deviation_scale(chord) >= 0) by (nonlinear_arith)
            requires
                deviation_scale(chord) >= 1,
                epsilon >= 0,
        ;
        assert(split_point(points, (epsilon * epsilon) as int, 0, n - 1) is None);
    }
    assert(rdp_mask(points, epsilon) =~= endpoints_only(points.len()));
}

} // verus!
