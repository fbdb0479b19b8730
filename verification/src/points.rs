//! The point sequence: an ordered curve of `N` points in `D` dimensions,
//! read through a borrowed `ndarray` view of shape `(N, D)`.

use vstd::prelude::*;
use vstd::arithmetic::div_mod::lemma_fundamental_div_mod;
use crate::geometry::{dot_prefix, norm_sq, lemma_norm_prefix_monotone, lemma_coordinate_within_norm};

verus! {

/// Largest distance from the origin at which a point of a curve may lie.
/// Within it every squared distance that the simplification forms, and
/// every product of two of them, fits a 128-bit integer.
pub const REACH: i64 = 0x4000_0000;

/// `REACH` squared.
pub const REACH_SQ: i128 = 0x1000_0000_0000_0000;

/// Why a buffer of coordinates was not accepted as a curve.
#[derive(Clone, Copy, Debug, PartialEq, Eq, Structural)]
pub enum InputError {
    /// The points have no coordinates at all.
    ZeroColumns,
    /// The buffer does not divide into rows of the given width.
    InconsistentRows,
    /// The buffer or a row is longer than an array may be on this machine.
    TooLarge,
    /// Some point lies farther than `REACH` from the origin.
    OutOfReach,
}

/// `ndarray::ShapeError`: why a shape was not accepted for a buffer.
#[verifier::external_type_specification]
#[verifier::external_body]
pub struct ExShapeError(ndarray::ShapeError);

/// A read-only `(N, D)` view of a caller's coordinates. The view is an
/// `ndarray::ArrayView2`; nothing is copied.
#[verifier::external_body]
pub struct PointSequence<'a> {
    cells: ndarray::ArrayView2<'a, i64>,
}

/// The rows that a point sequence holds: `point_rows(p)[i][d]` is
/// coordinate `d` of point `i`.
pub uninterp spec fn point_rows(points: PointSequence<'_>) -> Seq<Seq<int>>;

/// The number of coordinates that each point of a point sequence has; it
/// is known of an empty sequence too.
pub uninterp spec fn point_width(points: PointSequence<'_>) -> nat;

/// The first `rows` rows of a row-major buffer that holds `width`
/// coordinates per point.
pub open spec fn leading_rows(coords: Seq<i64>, rows: nat, width: nat) -> Seq<Seq<int>> {
    Seq::new(rows, |i: int| Seq::new(width, |d: int| coords[i * width + d] as int))
}

/// All the rows of a row-major buffer that holds `width` coordinates per
/// point.
pub open spec fn row_major(coords: Seq<i64>, width: nat) -> Seq<Seq<int>> {
    leading_rows(coords, coords.len() / width, width)
}

/// The product of the axis lengths of an `(rows, width)` shape, leaving out
/// an axis of length zero.
pub open spec fn shape_extent(rows: nat, width: nat) -> nat {
    (if rows == 0 { 1 } else { rows }) * (if width == 0 { 1 } else { width })
}

/// Whether a buffer of `len` elements can be viewed in the shape
/// `(rows, width)`.
pub open spec fn shape_fits(len: nat, rows: nat, width: nat) -> bool {
    rows * width <= len && shape_extent(rows, width) <= isize::MAX
}

/// Every point lies within `REACH` of the origin.
pub open spec fn in_reach(rows: Seq<Seq<int>>) -> bool {
    forall|i: int| 0 <= i < rows.len() ==> norm_sq(#[trigger] rows[i]) <= REACH_SQ
}

/// All rows have the same, positive number of coordinates.
pub open spec fn rectangular(rows: Seq<Seq<int>>) -> bool {
    forall|i: int| 0 <= i < rows.len() ==> (#[trigger] rows[i]).len() == rows[0].len() && rows[0].len() >= 1
}

/// What the simplification asks of a curve.
pub open spec fn well_formed(rows: Seq<Seq<int>>) -> bool {
    &&& rows.len() <= isize::MAX
    &&& rectangular(rows)
    &&& in_reach(rows)
}

/// The first reason, if any, for which `coords` and `width` do not make a
/// well-formed curve.
pub open spec fn input_fault(coords: Seq<i64>, width: nat) -> Option<InputError> {
    if width == 0 {
        Some(InputError::ZeroColumns)
    } else if coords.len() % width != 0 {
        Some(InputError::InconsistentRows)
    } else if coords.len() > isize::MAX || width > isize::MAX {
        Some(InputError::TooLarge)
    } else if !in_reach(row_major(coords, width)) {
        Some(InputError::OutOfReach)
    } else {
        None
    }
}

/// A point within reach has every coordinate between `-REACH` and `REACH`.
pub proof fn lemma_coordinate_in_reach(row: Seq<int>, d: int)
    requires
        norm_sq(row) <= REACH_SQ,
        0 <= d < row.len(),
    ensures
        -REACH <= row[d] <= REACH,
{
    lemma_coordinate_within_norm(row, d);
    let c = row[d];
    assert(-0x4000_0000 <= c <= 0x4000_0000) by (nonlinear_arith)
        requires
            c * c <= 0x1000_0000_0000_0000,
    ;
}

impl<'a> View for PointSequence<'a> {
    type V = Seq<Seq<int>>;

    closed spec fn view(&self) -> Seq<Seq<int>> {
        point_rows(*self)
    }
}

impl<'a> PointSequence<'a> {
    /// Number of coordinates of each point.
    pub closed spec fn dimension(&self) -> nat {
        point_width(*self)
    }

    /// Whether the curve meets what the simplification asks of it.
    pub open spec fn wf(&self) -> bool {
        &&& well_formed(self@)
        &&& self.dimension() >= 1
        &&& forall|i: int| 0 <= i < self@.len() ==> (#[trigger] self@[i]).len() == self.dimension()
    }

    /// `ndarray::ArrayView2::from_shape` with a row-major `(rows, width)`
    /// shape. It accepts the shape when the product of its non-zero axis
    /// lengths fits `isize` and the slice holds at least `rows * width`
    /// elements; the view then shows the first `rows * width` elements of
    /// the slice, row by row.
    #[verifier::external_body]
    fn from_shape(coords: &'a [i64], rows: usize, width: usize) -> (points: Result<
        PointSequence<'a>,
        ndarray::ShapeError,
    >)
        ensures
            points is Ok <==> shape_fits(coords@.len(), rows as nat, width as nat),
            points matches Ok(p) ==> point_rows(p) == leading_rows(coords@, rows as nat, width as nat),
            points matches Ok(p) ==> point_width(p) == width,
    {
        match ndarray::ArrayView2::from_shape((rows, width), coords) {
            Ok(cells) => Ok(PointSequence { cells }),
            Err(refusal) => Err(refusal),
        }
    }

    /// `nrows` of the view: the number of points.
    #[verifier::external_body]
    fn nrows(&self) -> (n: usize)
        ensures
            n == point_rows(*self).len(),
    {
        self.cells.nrows()
    }

    /// `ncols` of the view: the number of coordinates that every point has.
    #[verifier::external_body]
    fn ncols(&self) -> (w: usize)
        ensures
            w == point_width(*self),
            forall|i: int| 0 <= i < point_rows(*self).len() ==> (#[trigger] point_rows(*self)[i]).len() == w,
    {
        self.cells.ncols()
    }

    /// Indexing of the view by `[i, d]`, which panics outside the shape.
    #[verifier::external_body]
    fn at(&self, i: usize, d: usize) -> (c: i64)
        requires
            i < point_rows(*self).len(),
            d < point_rows(*self)[i as int].len(),
        ensures
            c == point_rows(*self)[i as int][d as int],
    {
        self.cells[[i, d]]
    }

    /// Reads `coords` as a curve of points with `width` coordinates each,
    /// row after row, without copying it.
    pub fn new(coords: &'a [i64], width: usize) -> (result: Result<PointSequence<'a>, InputError>)
        ensures
            result is Ok <==> input_fault(coords@, width as nat) is None,
            result matches Ok(points) ==> points@ == row_major(coords@, width as nat),
            result matches Ok(points) ==> points.dimension() == width,
            result matches Ok(points) ==> points.wf(),
            result matches Err(fault) ==> input_fault(coords@, width as nat) == Some(fault),
    {
        if width == 0 {
            return Err(InputError::ZeroColumns);
        }
        if coords.len() % width != 0 {
            return Err(InputError::InconsistentRows);
        }
        if coords.len() > isize::MAX as usize || width > isize::MAX as usize {
            return Err(InputError::TooLarge);
        }
        let rows = coords.len() / width;
        proof {
            lemma_fundamental_div_mod(coords@.len() as int, width as int);
            assert(rows * width == width * rows) by (nonlinear_arith);
        }
        match PointSequence::from_shape(coords, rows, width) {
            // The shape was tested above: it fits.
            Err(_) => Err(InputError::TooLarge),
            Ok(points) => {
                let mut i: usize = 0;
                while i < rows
                    invariant
                        i <= rows,
                        rows == points@.len(),
                        points@ == row_major(coords@, width as nat),
                        points.dimension() == width,
                        1 <= width <= isize::MAX,
                        coords@.len() <= isize::MAX,
                        coords@.len() % (width as nat) == 0,
                        forall|j: int| 0 <= j < i ==> norm_sq(#[trigger] points@[j]) <= REACH_SQ,
                    decreases rows - i,
                {
                    if !points.point_in_reach(i) {
                        assert(norm_sq(points@[i as int]) > REACH_SQ);
                        return Err(InputError::OutOfReach);
                    }
                    i += 1;
                }
                Ok(points)
            },
        }
    }

    /// Number of points.
    pub fn len(&self) -> (n: usize)
        ensures
            n == self@.len(),
    {
        self.nrows()
    }

    /// Number of coordinates of each point.
    pub fn width(&self) -> (w: usize)
        ensures
            w == self.dimension(),
            forall|i: int| 0 <= i < self@.len() ==> (#[trigger] self@[i]).len() == w,
    {
        self.ncols()
    }

    /// Coordinate `d` of point `i`.
    pub fn coordinate(&self, i: usize, d: usize) -> (c: i64)
        requires
            i < self@.len(),
            d < self@[i as int].len(),
        ensures
            c == self@[i as int][d as int],
    {
        self.at(i, d)
    }

    /// Whether point `i` lies within `REACH` of the origin.
    pub fn point_in_reach(&self, i: usize) -> (within: bool)
        requires
            i < self@.len(),
        ensures
            within == (norm_sq(self@[i as int]) <= REACH_SQ),
    {
        let width = self.ncols();
        let ghost row = self@[i as int];
        let mut total: i128 = 0;
        let mut d: usize = 0;
        while d < width
            invariant
                d <= width,
                i < self@.len(),
                row == self@[i as int],
                row.len() == width,
                total == dot_prefix(row, row, d as nat),
                0 <= total <= REACH_SQ,
            decreases width - d,
        {
            let c = self.at(i, d);
            if c > REACH || c < -REACH {
                proof {
                    lemma_coordinate_within_norm(row, d as int);
                    assert(row[d as int] * row[d as int] > REACH_SQ) by (nonlinear_arith)
                        requires
                            row[d as int] > 0x4000_0000 || row[d as int] < -0x4000_0000,
                            REACH_SQ == 0x1000_0000_0000_0000,
                    ;
                }
                return false;
            }
            assert(c * c <= REACH_SQ) by (nonlinear_arith)
                requires
                    -0x4000_0000 <= c <= 0x4000_0000,
                    REACH_SQ == 0x1000_0000_0000_0000,
            ;
            assert(c * c >= 0) by (nonlinear_arith);
            let square: i128 = (c as i128) * (c as i128);
            total = total + square;
            if total > REACH_SQ {
                proof {
                    lemma_norm_prefix_monotone(row, (d + 1) as nat, row.len());
                }
                return false;
            }
            d += 1;
        }
        true
    }
}

} // verus!
