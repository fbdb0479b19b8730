//! Exact vector arithmetic for curves with integer coordinates.
//!
//! A point is a sequence of integers, one per dimension. All distances are
//! kept squared and, where a division would be needed, multiplied through by
//! the squared length of the chord, so that every comparison is a comparison
//! of integers.

use vstd::prelude::*;

verus! {

/// Sum of `a[d] * b[d]` over the first `k` dimensions.
pub open spec fn dot_prefix(a: Seq<int>, b: Seq<int>, k: nat) -> int
    decreases k,
{
    if k == 0 {
        0
    } else {
        dot_prefix(a, b, (k - 1) as nat) + a[k - 1] * b[k - 1]
    }
}

/// Inner product of two vectors of the same dimension.
pub open spec fn dot(a: Seq<int>, b: Seq<int>) -> int {
    dot_prefix(a, b, a.len())
}

/// Squared Euclidean length of a vector.
pub open spec fn norm_sq(a: Seq<int>) -> int {
    dot(a, a)
}

/// The vector that leads from `origin` to `p`.
pub open spec fn displacement(p: Seq<int>, origin: Seq<int>) -> Seq<int> {
    Seq::new(p.len(), |d: int| p[d] - origin[d])
}

/// `|v|^2 |w|^2 - (v . w)^2`: the squared area of the parallelogram spanned
/// by `v` and `w`.
pub open spec fn area_sq(v: Seq<int>, w: Seq<int>) -> int {
    norm_sq(v) * norm_sq(w) - dot(v, w) * dot(v, w)
}

/// Numerator of the squared perpendicular distance of the point at offset
/// `v` from the line along `chord`; the denominator is
/// [`deviation_scale`]. A chord of length zero has no direction: the
/// distance is then the distance to the chord's single point.
pub open spec fn deviation(v: Seq<int>, chord: Seq<int>) -> int {
    if norm_sq(chord) == 0 {
        norm_sq(v)
    } else {
        area_sq(v, chord)
    }
}

/// Denominator that belongs to [`deviation`]: the squared length of the
/// chord, or one for a chord of length zero.
pub open spec fn deviation_scale(chord: Seq<int>) -> int {
    if norm_sq(chord) == 0 {
        1
    } else {
        norm_sq(chord)
    }
}

/// A squared length is a sum of squares, and grows with every dimension.
pub proof fn lemma_norm_prefix_monotone(a: Seq<int>, j: nat, k: nat)
    requires
        j <= k,
    ensures
        0 <= dot_prefix(a, a, j) <= dot_prefix(a, a, k),
    decreases k,
{
    if k == 0 {
    } else if j == k {
        lemma_norm_prefix_monotone(a, (j - 1) as nat, (k - 1) as nat);
        assert(a[k - 1] * a[k - 1] >= 0) by (nonlinear_arith);
    } else {
        lemma_norm_prefix_monotone(a, j, (k - 1) as nat);
        assert(a[k - 1] * a[k - 1] >= 0) by (nonlinear_arith);
    }
}

/// No squared length is negative.
pub proof fn lemma_norm_sq_nonnegative(a: Seq<int>)
    ensures
        norm_sq(a) >= 0,
{
    lemma_norm_prefix_monotone(a, 0, a.len());
}

/// The denominator of a squared distance is positive.
pub proof fn lemma_scale_positive(chord: Seq<int>)
    ensures
        deviation_scale(chord) >= 1,
{
    lemma_norm_sq_nonnegative(chord);
}

/// The square of one coordinate is at most the squared length.
pub proof fn lemma_coordinate_within_norm(a: Seq<int>, d: int)
    requires
        0 <= d < a.len(),
    ensures
        a[d] * a[d] <= norm_sq(a),
{
    lemma_norm_prefix_monotone(a, d as nat, (d + 1) as nat);
    lemma_norm_prefix_monotone(a, (d + 1) as nat, a.len());
}

/// Twice an inner product is bounded, in absolute value, by the sum of the
/// two squared lengths.
pub proof fn lemma_dot_prefix_bound(a: Seq<int>, b: Seq<int>, k: nat)
    ensures
        2 * dot_prefix(a, b, k) <= dot_prefix(a, a, k) + dot_prefix(b, b, k),
        -2 * dot_prefix(a, b, k) <= dot_prefix(a, a, k) + dot_prefix(b, b, k),
    decreases k,
{
    if k > 0 {
        lemma_dot_prefix_bound(a, b, (k - 1) as nat);
        let x = a[k - 1];
        let y = b[k - 1];
        assert((x - y) * (x - y) >= 0) by (nonlinear_arith);
        assert((x + y) * (x + y) >= 0) by (nonlinear_arith);
        assert(2 * (x * y) <= x * x + y * y) by (nonlinear_arith)
            requires
                (x - y) * (x - y) >= 0,
        ;
        assert(-2 * (x * y) <= x * x + y * y) by (nonlinear_arith)
            requires
                (x + y) * (x + y) >= 0,
        ;
    }
}

/// The squared distance between two points is at most twice the sum of
/// their squared distances from the origin.
pub proof fn lemma_displacement_prefix_bound(p: Seq<int>, s: Seq<int>, k: nat)
    requires
        k <= p.len(),
    ensures
        dot_prefix(displacement(p, s), displacement(p, s), k) <= 2 * dot_prefix(p, p, k) + 2
            * dot_prefix(s, s, k),
    decreases k,
{
    if k > 0 {
        lemma_displacement_prefix_bound(p, s, (k - 1) as nat);
        let x = p[k - 1];
        let y = s[k - 1];
        assert(displacement(p, s)[k - 1] == x - y);
        assert((x + y) * (x + y) >= 0) by (nonlinear_arith);
        assert((x - y) * (x - y) <= 2 * (x * x) + 2 * (y * y)) by (nonlinear_arith)
            requires
                (x + y) * (x + y) >= 0,
        ;
    }
}

/// One more dimension keeps the inequality of Cauchy and Schwarz.
proof fn lemma_cauchy_schwarz_step(n: int, l: int, c: int, x: int, y: int)
    requires
        n >= 0,
        l >= 0,
        c * c <= n * l,
    ensures
        (c + x * y) * (c + x * y) <= (n + x * x) * (l + y * y),
{
    let gap = n * l - c * c;
    let rest = n * (y * y) + l * (x * x) - 2 * (x * y * c);
    assert(rest >= 0) by {
        if n == 0 {
            assert(c == 0) by (nonlinear_arith)
                requires
                    c * c <= n * l,
                    n == 0,
            ;
            assert(l * (x * x) >= 0) by (nonlinear_arith)
                requires
                    l >= 0,
            ;
            assert(rest == l * (x * x)) by (nonlinear_arith)
                requires
                    rest == n * (y * y) + l * (x * x) - 2 * (x * y * c),
                    n == 0,
                    c == 0,
            ;
        } else {
            let p = n * y;
            let q = x * c;
            assert((p - q) * (p - q) >= 0) by (nonlinear_arith);
            assert((x * x) * gap >= 0) by (nonlinear_arith)
                requires
                    gap >= 0,
            ;
            assert(p * p == n * (n * (y * y))) by (nonlinear_arith)
                requires
                    p == n * y,
            ;
            assert(q * q == (x * x) * (c * c)) by (nonlinear_arith)
                requires
                    q == x * c,
            ;
            assert(p * q == n * (x * y * c)) by (nonlinear_arith)
                requires
                    p == n * y,
                    q == x * c,
            ;
            assert((p - q) * (p - q) == p * p - 2 * (p * q) + q * q) by (nonlinear_arith);
            assert((x * x) * gap == n * (l * (x * x)) - (x * x) * (c * c)) by (nonlinear_arith)
                requires
                    gap == n * l - c * c,
            ;
            assert(n * rest == n * (n * (y * y)) + n * (l * (x * x)) - 2 * (n * (x * y * c)))
                by (nonlinear_arith)
                requires
                    rest == n * (y * y) + l * (x * x) - 2 * (x * y * c),
            ;
            assert(n * rest == (p - q) * (p - q) + (x * x) * gap);
            assert(rest >= 0) by (nonlinear_arith)
                requires
                    n * rest >= 0,
                    n > 0,
            ;
        }
    }
    assert((n + x * x) * (l + y * y) == n * l + n * (y * y) + l * (x * x) + (x * x) * (y * y))
        by (nonlinear_arith);
    assert((c + x * y) * (c + x * y) == c * c + 2 * (x * y * c) + (x * y) * (x * y))
        by (nonlinear_arith);
    assert((x * y) * (x * y) == (x * x) * (y * y)) by (nonlinear_arith);
}

/// The inequality of Cauchy and Schwarz: the square of an inner product is
/// at most the product of the two squared lengths.
pub proof fn lemma_cauchy_schwarz_prefix(a: Seq<int>, b: Seq<int>, k: nat)
    ensures
        dot_prefix(a, b, k) * dot_prefix(a, b, k) <= dot_prefix(a, a, k) * dot_prefix(b, b, k),
    decreases k,
{
    if k == 0 {
        assert(0 * 0 <= 0 * 0) by (nonlinear_arith);
    } else {
        lemma_cauchy_schwarz_prefix(a, b, (k - 1) as nat);
        lemma_norm_prefix_monotone(a, 0, (k - 1) as nat);
        lemma_norm_prefix_monotone(b, 0, (k - 1) as nat);
        lemma_cauchy_schwarz_step(
            dot_prefix(a, a, (k - 1) as nat),
            dot_prefix(b, b, (k - 1) as nat),
            dot_prefix(a, b, (k - 1) as nat),
            a[k - 1],
            b[k - 1],
        );
    }
}

/// No deviation is negative: it is a squared distance, or a squared
/// distance times the squared length of the chord.
pub proof fn lemma_deviation_nonnegative(v: Seq<int>, chord: Seq<int>)
    requires
        v.len() == chord.len(),
    ensures
        deviation(v, chord) >= 0,
{
    lemma_norm_sq_nonnegative(v);
    lemma_cauchy_schwarz_prefix(v, chord, v.len());
}

/// A vector of zeros has length zero.
pub proof fn lemma_norm_of_zeros(a: Seq<int>, k: nat)
    requires
        k <= a.len(),
        forall|d: int| 0 <= d < a.len() ==> a[d] == 0,
    ensures
        dot_prefix(a, a, k) == 0,
    decreases k,
{
    if k > 0 {
        lemma_norm_of_zeros(a, (k - 1) as nat);
    }
}

/// The vector `v` with every coordinate multiplied by `factor`.
pub open spec fn scaled(v: Seq<int>, factor: int) -> Seq<int> {
    Seq::new(v.len(), |d: int| factor * v[d])
}

/// An inner product is linear in each of its two vectors.
pub proof fn lemma_dot_prefix_scaled(a: Seq<int>, b: Seq<int>, fa: int, fb: int, k: nat)
    requires
        k <= a.len(),
        k <= b.len(),
    ensures
        dot_prefix(scaled(a, fa), scaled(b, fb), k) == fa * fb * dot_prefix(a, b, k),
    decreases k,
{
    if k == 0 {
        assert(fa * fb * 0 == 0) by (nonlinear_arith);
    } else {
        lemma_dot_prefix_scaled(a, b, fa, fb, (k - 1) as nat);
        let x = a[k - 1];
        let y = b[k - 1];
        let before = dot_prefix(a, b, (k - 1) as nat);
        assert(scaled(a, fa)[k - 1] == fa * x);
        assert(scaled(b, fb)[k - 1] == fb * y);
        assert(fa * fb * before + (fa * x) * (fb * y) == fa * fb * (before + x * y))
            by (nonlinear_arith);
    }
}

/// The inner product of two multiples of vectors of the same dimension.
pub proof fn lemma_dot_scaled(a: Seq<int>, b: Seq<int>, fa: int, fb: int)
    requires
        a.len() == b.len(),
    ensures
        dot(scaled(a, fa), scaled(b, fb)) == fa * fb * dot(a, b),
{
    lemma_dot_prefix_scaled(a, b, fa, fb, a.len());
}

/// Scaling two points scales the vector between them.
pub proof fn lemma_displacement_scaled(p: Seq<int>, origin: Seq<int>, factor: int)
    requires
        p.len() == origin.len(),
    ensures
        displacement(scaled(p, factor), scaled(origin, factor)) == scaled(
            displacement(p, origin),
            factor,
        ),
{
    assert forall|d: int| 0 <= d < p.len() implies factor * p[d] - factor * origin[d] == factor * (
    p[d] - origin[d]) by {
        let x = p[d];
        let y = origin[d];
        assert(factor * x - factor * y == factor * (x - y)) by (nonlinear_arith);
    }
    assert(displacement(scaled(p, factor), scaled(origin, factor)) =~= scaled(
        displacement(p, origin),
        factor,
    ));
}

/// How a deviation and its denominator change when the point and the
/// chord are multiplied by `factor`: by the square of the factor where the
/// chord has length zero, and else by its fourth and second power.
pub proof fn lemma_deviation_scaled(v: Seq<int>, chord: Seq<int>, factor: int)
    requires
        v.len() == chord.len(),
        factor != 0,
    ensures
        norm_sq(chord) == 0 ==> deviation(scaled(v, factor), scaled(chord, factor)) == factor
            * factor * deviation(v, chord),
        norm_sq(chord) == 0 ==> deviation_scale(scaled(chord, factor)) == 1,
        norm_sq(chord) != 0 ==> deviation(scaled(v, factor), scaled(chord, factor)) == factor
            * factor * (factor * factor) * deviation(v, chord),
        norm_sq(chord) != 0 ==> deviation_scale(scaled(chord, factor)) == factor * factor
            * deviation_scale(chord),
{
    lemma_dot_scaled(v, v, factor, factor);
    lemma_dot_scaled(chord, chord, factor, factor);
    lemma_dot_scaled(v, chord, factor, factor);
    let f2 = factor * factor;
    let n = norm_sq(v);
    let l = norm_sq(chord);
    let a = dot(v, chord);
    assert(f2 > 0) by (nonlinear_arith)
        requires
            f2 == factor * factor,
            factor != 0,
    ;
    if l == 0 {
        assert(f2 * l == 0) by (nonlinear_arith)
            requires
                l == 0,
        ;
    } else {
        assert(f2 * l != 0) by (nonlinear_arith)
            requires
                l != 0,
                f2 > 0,
        ;
        assert((f2 * n) * (f2 * l) - (f2 * a) * (f2 * a) == f2 * f2 * (n * l - a * a))
            by (nonlinear_arith);
    }
}

} // verus!
