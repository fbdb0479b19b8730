//! The distance evaluator: how far each point of a range lies from the
//! chord of the range, in any dimension.
//!
//! With `v` the vector from the start of the chord to a point, and `c` the
//! chord, the squared perpendicular distance is `|v|^2 - (v . c)^2 / |c|^2`.
//! The evaluator returns its numerator `|v|^2 |c|^2 - (v . c)^2`; all points
//! of one range share the denominator `|c|^2`. Where start and end of the
//! chord coincide, the distance is the distance to that point, `|v|^2`.

use vstd::prelude::*;
use crate::buffer::{as_vector, range_displacements, ChordBuffer, SPAN_SQ};
use crate::geometry::{
    deviation, displacement, dot, dot_prefix, norm_sq, lemma_deviation_nonnegative,
    lemma_displacement_prefix_bound, lemma_dot_prefix_bound, lemma_norm_prefix_monotone,
    lemma_norm_sq_nonnegative,
};
use crate::partition::widened;
use crate::points::{PointSequence, lemma_coordinate_in_reach};

verus! {

/// The deviation of each of the given vectors from the last of them.
pub open spec fn chord_deviations(vectors: Seq<Seq<int>>) -> Seq<int> {
    Seq::new(vectors.len(), |k: int| deviation(vectors[k], vectors[vectors.len() - 1]))
}

/// The deviation of each point of the range `lo..=hi` from the chord that
/// joins the points at `lo` and `hi`.
pub open spec fn range_deviations(points: Seq<Seq<int>>, lo: int, hi: int) -> Seq<int> {
    chord_deviations(range_displacements(points, lo, hi))
}

/// The deviation of point `i` from the chord that joins the points at
/// `lo` and `hi`: entry `i - lo` of [`range_deviations`].
pub open spec fn point_deviation(points: Seq<Seq<int>>, lo: int, hi: int, i: int) -> int {
    deviation(displacement(points[i], points[lo]), displacement(points[hi], points[lo]))
}

/// The buffer of a range, cut down to the left part of the range, is the
/// buffer of that part: both start at the same point. So the distances
/// that the left part reads from the buffer of the whole are the
/// distances that it would compute from the points.
pub proof fn lemma_left_part_reads_prefix(points: Seq<Seq<int>>, lo: int, split: int, hi: int)
    requires
        lo <= split <= hi,
    ensures
        range_displacements(points, lo, hi).take(split - lo + 1) == range_displacements(
            points,
            lo,
            split,
        ),
        chord_deviations(range_displacements(points, lo, hi).take(split - lo + 1))
            == range_deviations(points, lo, split),
{
    assert(range_displacements(points, lo, hi).take(split - lo + 1) =~= range_displacements(
        points,
        lo,
        split,
    ));
}

/// No entry of [`range_deviations`] is negative on a curve whose points
/// have the same number of coordinates.
pub proof fn lemma_range_deviations_nonnegative(points: Seq<Seq<int>>, lo: int, hi: int)
    requires
        0 <= lo <= hi < points.len(),
        forall|i: int| 0 <= i < points.len() ==> (#[trigger] points[i]).len() == points[0].len(),
    ensures
        forall|k: int|
            0 <= k <= hi - lo ==> #[trigger] range_deviations(points, lo, hi)[k] >= 0,
{
    assert forall|k: int| 0 <= k <= hi - lo implies #[trigger] range_deviations(points, lo, hi)[k]
        >= 0 by {
        assert(points[lo + k].len() == points[0].len());
        assert(points[hi].len() == points[0].len());
        lemma_deviation_nonnegative(
            displacement(points[lo + k], points[lo]),
            displacement(points[hi], points[lo]),
        );
    }
}

/// Inner product of two stored vectors.
fn inner_product(a: &Vec<i64>, b: &Vec<i64>) -> (sum: i128)
    requires
        a@.len() == b@.len(),
        norm_sq(as_vector(a@)) <= SPAN_SQ,
        norm_sq(as_vector(b@)) <= SPAN_SQ,
    ensures
        sum == dot(as_vector(a@), as_vector(b@)),
        -SPAN_SQ <= sum <= SPAN_SQ,
{
    let ghost va = as_vector(a@);
    let ghost vb = as_vector(b@);
    let n = a.len();
    let mut sum: i128 = 0;
    let mut d: usize = 0;
    while d < n
        invariant
            n == a@.len(),
            n == b@.len(),
            va == as_vector(a@),
            vb == as_vector(b@),
            norm_sq(va) <= SPAN_SQ,
            norm_sq(vb) <= SPAN_SQ,
            d <= n,
            sum == dot_prefix(va, vb, d as nat),
            -SPAN_SQ <= sum <= SPAN_SQ,
        decreases n - d,
    {
        let x = a[d] as i128;
        let y = b[d] as i128;
        assert(-0x4000_0000_0000_0000_0000_0000_0000_0000 <= x * y
            <= 0x4000_0000_0000_0000_0000_0000_0000_0000) by (nonlinear_arith)
            requires
                -0x8000_0000_0000_0000 <= x <= 0x8000_0000_0000_0000,
                -0x8000_0000_0000_0000 <= y <= 0x8000_0000_0000_0000,
        ;
        proof {
            lemma_dot_prefix_bound(va, vb, (d + 1) as nat);
            lemma_norm_prefix_monotone(va, (d + 1) as nat, va.len());
            lemma_norm_prefix_monotone(vb, (d + 1) as nat, vb.len());
        }
        sum = sum + x * y;
        d += 1;
    }
    sum
}

/// For each point that the buffer covers, its deviation from the chord
/// that joins the first and the last of them. Nothing is read but the
/// buffer.
pub fn buffered_distances(buffer: &ChordBuffer<'_>) -> (distances: Vec<i128>)
    requires
        buffer.wf(),
    ensures
        widened(distances@) == chord_deviations(buffer@),
        forall|k: int| 0 <= k < distances@.len() ==> distances@[k] >= 0,
{
    let n = buffer.len();
    let mut distances: Vec<i128> = Vec::new();
    if n == 0 {
        assert(widened(distances@) =~= chord_deviations(buffer@));
        return distances;
    }
    let chord = buffer.vector(n - 1);
    let chord_sq = buffer.magnitude(n - 1);
    let mut k: usize = 0;
    while k < n
        invariant
            buffer.wf(),
            n == buffer@.len(),
            n >= 1,
            as_vector(chord@) == buffer@[n - 1],
            chord@.len() == buffer@[0].len(),
            chord_sq == norm_sq(buffer@[n - 1]),
            0 <= chord_sq <= SPAN_SQ,
            k <= n,
            distances@.len() == k,
            forall|j: int| 0 <= j < k ==> distances@[j] == deviation(buffer@[j], buffer@[n - 1]),
            forall|j: int| 0 <= j < k ==> distances@[j] >= 0,
        decreases n - k,
    {
        let magnitude = buffer.magnitude(k);
        let row = buffer.vector(k);
        proof {
            lemma_deviation_nonnegative(buffer@[k as int], buffer@[n - 1]);
        }
        let distance = if chord_sq == 0 {
            magnitude
        } else {
            let along = inner_product(row, chord);
            assert(0 <= magnitude * chord_sq <= 0x1000_0000_0000_0000_0000_0000_0000_0000)
                by (nonlinear_arith)
                requires
                    0 <= magnitude <= 0x4000_0000_0000_0000,
                    0 <= chord_sq <= 0x4000_0000_0000_0000,
            ;
            assert(0 <= along * along <= 0x1000_0000_0000_0000_0000_0000_0000_0000)
                by (nonlinear_arith)
                requires
                    -0x4000_0000_0000_0000 <= along <= 0x4000_0000_0000_0000,
            ;
            magnitude * chord_sq - along * along
        };
        distances.push(distance);
        k += 1;
    }
    assert(widened(distances@) =~= chord_deviations(buffer@));
    distances
}

/// Inner product of the two vectors that lead from point `origin` to the
/// points `a` and `b`.
pub fn span_product(points: &PointSequence<'_>, a: usize, b: usize, origin: usize) -> (sum: i128)
    requires
        points.wf(),
        a < points@.len(),
        b < points@.len(),
        origin < points@.len(),
    ensures
        sum == dot(
            displacement(points@[a as int], points@[origin as int]),
            displacement(points@[b as int], points@[origin as int]),
        ),
        -SPAN_SQ <= sum <= SPAN_SQ,
{
    let width = points.width();
    let ghost pa = points@[a as int];
    let ghost pb = points@[b as int];
    let ghost po = points@[origin as int];
    let ghost va = displacement(pa, po);
    let ghost vb = displacement(pb, po);
    let mut sum: i128 = 0;
    let mut d: usize = 0;
    while d < width
        invariant
            points.wf(),
            a < points@.len(),
            b < points@.len(),
            origin < points@.len(),
            pa == points@[a as int],
            pb == points@[b as int],
            po == points@[origin as int],
            va == displacement(pa, po),
            vb == displacement(pb, po),
            pa.len() == width,
            pb.len() == width,
            po.len() == width,
            d <= width,
            sum == dot_prefix(va, vb, d as nat),
            -SPAN_SQ <= sum <= SPAN_SQ,
        decreases width - d,
    {
        let o = points.coordinate(origin, d);
        let ca = points.coordinate(a, d);
        let cb = points.coordinate(b, d);
        proof {
            lemma_coordinate_in_reach(pa, d as int);
            lemma_coordinate_in_reach(pb, d as int);
            lemma_coordinate_in_reach(po, d as int);
            lemma_dot_prefix_bound(va, vb, (d + 1) as nat);
            lemma_displacement_prefix_bound(pa, po, (d + 1) as nat);
            lemma_displacement_prefix_bound(pb, po, (d + 1) as nat);
            lemma_norm_prefix_monotone(pa, (d + 1) as nat, pa.len());
            lemma_norm_prefix_monotone(pb, (d + 1) as nat, pb.len());
            lemma_norm_prefix_monotone(po, (d + 1) as nat, po.len());
        }
        let x: i64 = ca - o;
        let y: i64 = cb - o;
        assert(x == va[d as int] && y == vb[d as int]);
        assert(-0x4000_0000_0000_0000 <= x * y <= 0x4000_0000_0000_0000) by (nonlinear_arith)
            requires
                -0x8000_0000 <= x <= 0x8000_0000,
                -0x8000_0000 <= y <= 0x8000_0000,
        ;
        sum = sum + (x as i128) * (y as i128);
        d += 1;
    }
    sum
}

/// For each point of the range `lo..=hi`, its deviation from the chord
/// that joins the points at `lo` and `hi`, computed from the coordinates.
pub fn line_point_distances(points: &PointSequence<'_>, lo: usize, hi: usize) -> (distances: Vec<
    i128,
>)
    requires
        points.wf(),
        lo <= hi < points@.len(),
    ensures
        widened(distances@) == range_deviations(points@, lo as int, hi as int),
        forall|k: int| 0 <= k < distances@.len() ==> distances@[k] >= 0,
{
    let chord_sq = span_product(points, hi, hi, lo);
    let mut distances: Vec<i128> = Vec::new();
    let mut i: usize = lo;
    proof {
        lemma_norm_sq_nonnegative(displacement(points@[hi as int], points@[lo as int]));
    }
    while i <= hi
        invariant
            points.wf(),
            lo <= i <= hi + 1,
            hi < points@.len(),
            chord_sq == norm_sq(displacement(points@[hi as int], points@[lo as int])),
            0 <= chord_sq <= SPAN_SQ,
            distances@.len() == i - lo,
            forall|k: int|
                0 <= k < i - lo ==> distances@[k] == point_deviation(
                    points@,
                    lo as int,
                    hi as int,
                    lo + k,
                ),
        decreases hi + 1 - i,
    {
        let magnitude = span_product(points, i, i, lo);
        proof {
            lemma_norm_sq_nonnegative(displacement(points@[i as int], points@[lo as int]));
        }
        let distance = if chord_sq == 0 {
            magnitude
        } else {
            let along = span_product(points, i, hi, lo);
            assert(0 <= magnitude * chord_sq <= 0x1000_0000_0000_0000_0000_0000_0000_0000)
                by (nonlinear_arith)
                requires
                    0 <= magnitude <= 0x4000_0000_0000_0000,
                    0 <= chord_sq <= 0x4000_0000_0000_0000,
            ;
            assert(0 <= along * along <= 0x1000_0000_0000_0000_0000_0000_0000_0000)
                by (nonlinear_arith)
                requires
                    -0x4000_0000_0000_0000 <= along <= 0x4000_0000_0000_0000,
            ;
            magnitude * chord_sq - along * along
        };
        distances.push(distance);
        i += 1;
    }
    assert(widened(distances@) =~= range_deviations(points@, lo as int, hi as int));
    proof {
        lemma_range_deviations_nonnegative(points@, lo as int, hi as int);
        assert forall|k: int| 0 <= k < distances@.len() implies distances@[k] >= 0 by {
            assert(widened(distances@)[k] == range_deviations(points@, lo as int, hi as int)[k]);
        }
    }
    distances
}

/// The inner product of two vectors of the plane, written out.
pub proof fn lemma_dot_planar(a: Seq<int>, b: Seq<int>)
    requires
        a.len() == 2,
    ensures
        dot(a, b) == a[0] * b[0] + a[1] * b[1],
{
    reveal_with_fuel(dot_prefix, 3);
}

/// In the plane the squared area that two vectors span is the square of
/// their cross product.
pub proof fn lemma_area_planar(v: Seq<int>, chord: Seq<int>)
    requires
        v.len() == 2,
        chord.len() == 2,
    ensures
        norm_sq(v) * norm_sq(chord) - dot(v, chord) * dot(v, chord) == (v[0] * chord[1] - v[1]
            * chord[0]) * (v[0] * chord[1] - v[1] * chord[0]),
{
    lemma_dot_planar(v, v);
    lemma_dot_planar(chord, chord);
    lemma_dot_planar(v, chord);
    let a = v[0];
    let b = v[1];
    let c = chord[0];
    let d = chord[1];
    assert((a * a) * (c * c) == (a * c) * (a * c)) by (nonlinear_arith);
    assert((b * b) * (d * d) == (b * d) * (b * d)) by (nonlinear_arith);
    assert((a * a) * (d * d) == (a * d) * (a * d)) by (nonlinear_arith);
    assert((b * b) * (c * c) == (b * c) * (b * c)) by (nonlinear_arith);
    assert((a * c) * (b * d) == (a * d) * (b * c)) by (nonlinear_arith);
    let aa = a * a;
    let bb = b * b;
    let cc = c * c;
    let dd = d * d;
    let ac = a * c;
    let bd = b * d;
    let ad = a * d;
    let bc = b * c;
    assert((aa + bb) * (cc + dd) == aa * cc + aa * dd + bb * cc + bb * dd) by (nonlinear_arith);
    assert((ac + bd) * (ac + bd) == ac * ac + 2 * (ac * bd) + bd * bd) by (nonlinear_arith);
    assert((ad - bc) * (ad - bc) == ad * ad - 2 * (ad * bc) + bc * bc) by (nonlinear_arith);
}

/// The deviations of [`line_point_distances`] for points of the plane,
/// computed by the cross product of each point's offset with the chord.
pub fn line_point_distances_planar(points: &PointSequence<'_>, lo: usize, hi: usize) -> (distances:
    Vec<i128>)
    requires
        points.wf(),
        lo <= hi < points@.len(),
        points@[0].len() == 2,
    ensures
        widened(distances@) == range_deviations(points@, lo as int, hi as int),
        forall|k: int| 0 <= k < distances@.len() ==> distances@[k] >= 0,
{
    let ghost start = points@[lo as int];
    let ghost chord = displacement(points@[hi as int], start);
    proof {
        lemma_coordinate_in_reach(start, 0);
        lemma_coordinate_in_reach(start, 1);
        lemma_coordinate_in_reach(points@[hi as int], 0);
        lemma_coordinate_in_reach(points@[hi as int], 1);
        lemma_dot_planar(chord, chord);
    }
    let sx = points.coordinate(lo, 0);
    let sy = points.coordinate(lo, 1);
    let dx: i64 = points.coordinate(hi, 0) - sx;
    let dy: i64 = points.coordinate(hi, 1) - sy;
    assert(0 <= dx * dx <= 0x4000_0000_0000_0000 && 0 <= dy * dy <= 0x4000_0000_0000_0000)
        by (nonlinear_arith)
        requires
            -0x8000_0000 <= dx <= 0x8000_0000,
            -0x8000_0000 <= dy <= 0x8000_0000,
    ;
    let chord_sq: i128 = (dx as i128) * (dx as i128) + (dy as i128) * (dy as i128);
    let mut distances: Vec<i128> = Vec::new();
    let mut i: usize = lo;
    while i <= hi
        invariant
            points.wf(),
            points@[0].len() == 2,
            lo <= i <= hi + 1,
            hi < points@.len(),
            start == points@[lo as int],
            chord == displacement(points@[hi as int], start),
            sx == start[0],
            sy == start[1],
            dx == chord[0],
            dy == chord[1],
            -0x8000_0000 <= dx <= 0x8000_0000,
            -0x8000_0000 <= dy <= 0x8000_0000,
            -0x4000_0000 <= sx <= 0x4000_0000,
            -0x4000_0000 <= sy <= 0x4000_0000,
            chord_sq == norm_sq(chord),
            distances@.len() == i - lo,
            forall|k: int|
                0 <= k < i - lo ==> distances@[k] == point_deviation(
                    points@,
                    lo as int,
                    hi as int,
                    lo + k,
                ),
        decreases hi + 1 - i,
    {
        let ghost v = displacement(points@[i as int], start);
        proof {
            lemma_coordinate_in_reach(points@[i as int], 0);
            lemma_coordinate_in_reach(points@[i as int], 1);
            lemma_dot_planar(v, v);
            lemma_area_planar(v, chord);
        }
        let px = points.coordinate(i, 0);
        let py = points.coordinate(i, 1);
        let distance = if chord_sq == 0 {
            let vx: i64 = px - sx;
            let vy: i64 = py - sy;
            assert(0 <= vx * vx <= 0x4000_0000_0000_0000 && 0 <= vy * vy <= 0x4000_0000_0000_0000)
                by (nonlinear_arith)
                requires
                    -0x8000_0000 <= vx <= 0x8000_0000,
                    -0x8000_0000 <= vy <= 0x8000_0000,
            ;
            (vx as i128) * (vx as i128) + (vy as i128) * (vy as i128)
        } else {
            let ux: i64 = sx - px;
            let uy: i64 = sy - py;
            assert(-0x4000_0000_0000_0000 <= uy * dx <= 0x4000_0000_0000_0000
                && -0x4000_0000_0000_0000 <= ux * dy <= 0x4000_0000_0000_0000) by (nonlinear_arith)
                requires
                    -0x8000_0000 <= ux <= 0x8000_0000,
                    -0x8000_0000 <= uy <= 0x8000_0000,
                    -0x8000_0000 <= dx <= 0x8000_0000,
                    -0x8000_0000 <= dy <= 0x8000_0000,
            ;
            let cross: i128 = (uy as i128) * (dx as i128) - (ux as i128) * (dy as i128);
            assert(0 <= cross * cross <= 0x4000_0000_0000_0000_0000_0000_0000_0000)
                by (nonlinear_arith)
                requires
                    -0x8000_0000_0000_0000 <= cross <= 0x8000_0000_0000_0000,
            ;
            assert(cross * cross == (v[0] * chord[1] - v[1] * chord[0]) * (v[0] * chord[1] - v[1]
                * chord[0])) by (nonlinear_arith)
                requires
                    cross == (-v[1]) * chord[0] - (-v[0]) * chord[1],
            ;
            cross * cross
        };
        distances.push(distance);
        i += 1;
    }
    assert(widened(distances@) =~= range_deviations(points@, lo as int, hi as int));
    proof {
        lemma_range_deviations_nonnegative(points@, lo as int, hi as int);
        assert forall|k: int| 0 <= k < distances@.len() implies distances@[k] >= 0 by {
            assert(widened(distances@)[k] == range_deviations(points@, lo as int, hi as int)[k]);
        }
    }
    distances
}

} // verus!
