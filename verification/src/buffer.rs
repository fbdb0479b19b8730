//! The chord buffer: for a range of the curve, the vector from the range's
//! first point to each of its points, and the squared length of that vector.
//!
//! A range and its left part start at the same point, so the left part reads
//! a prefix of the buffer of the whole. The right part starts at the split
//! point and needs a buffer of its own.

use vstd::prelude::*;
use crate::geometry::{
    displacement, dot_prefix, norm_sq, lemma_displacement_prefix_bound,
    lemma_norm_prefix_monotone,
};
use crate::points::{PointSequence, lemma_coordinate_in_reach};

verus! {

/// Largest squared distance between two points within reach.
pub const SPAN_SQ: i128 = 0x4000_0000_0000_0000;

/// The entries of a vector of machine integers as mathematical integers.
pub open spec fn as_vector(row: Seq<i64>) -> Seq<int> {
    Seq::new(row.len(), |d: int| row[d] as int)
}

/// For each point of the range `lo..=hi`, the vector that leads to it from
/// the point at `lo`.
pub open spec fn range_displacements(points: Seq<Seq<int>>, lo: int, hi: int) -> Seq<Seq<int>> {
    Seq::new((hi - lo + 1) as nat, |k: int| displacement(points[lo + k], points[lo]))
}

/// Displacement vectors and their squared lengths, as computed.
pub struct ChordStore {
    width: usize,
    vectors: Vec<Vec<i64>>,
    magnitudes: Vec<i128>,
}

impl View for ChordStore {
    type V = Seq<Seq<int>>;

    closed spec fn view(&self) -> Seq<Seq<int>> {
        Seq::new(self.vectors@.len(), |k: int| as_vector(self.vectors@[k]@))
    }
}

impl ChordStore {
    /// The stored squared lengths are those of the stored vectors, none
    /// exceeds `SPAN_SQ`, and all vectors have the same dimension.
    pub closed spec fn wf(&self) -> bool {
        &&& self.magnitudes@.len() == self.vectors@.len()
        &&& forall|k: int|
            0 <= k < self.vectors@.len() ==> {
                &&& (#[trigger] self.vectors@[k])@.len() == self.width
                &&& self.magnitudes@[k] == norm_sq(as_vector(self.vectors@[k]@))
                &&& self.magnitudes@[k] <= SPAN_SQ
            }
    }
}

/// The buffer that one call of the recursion reads: either a prefix of the
/// buffer of the enclosing range, or a buffer computed for this range.
pub enum ChordBuffer<'a> {
    /// The first `len` entries of the store of the enclosing range.
    Shared { parent: &'a ChordStore, len: usize },
    /// A store computed for this range alone.
    Owned { store: ChordStore },
}

impl<'a> View for ChordBuffer<'a> {
    type V = Seq<Seq<int>>;

    open spec fn view(&self) -> Seq<Seq<int>> {
        match *self {
            ChordBuffer::Shared { parent, len } => parent@.take(len as int),
            ChordBuffer::Owned { store } => store@,
        }
    }
}

impl<'a> ChordBuffer<'a> {
    /// The store is well formed, and a shared prefix is no longer than it.
    pub open spec fn wf(&self) -> bool {
        match *self {
            ChordBuffer::Shared { parent, len } => parent.wf() && len <= parent@.len(),
            ChordBuffer::Owned { store } => store.wf(),
        }
    }

    /// Whether the buffer holds the displacements of the range `lo..=hi`
    /// of `points`.
    pub open spec fn covers(&self, points: Seq<Seq<int>>, lo: int, hi: int) -> bool {
        self@ == range_displacements(points, lo, hi)
    }

    /// Computes the buffer of the range `lo..=hi` from the points.
    pub fn fresh(points: &PointSequence<'_>, lo: usize, hi: usize) -> (buffer: ChordBuffer<'a>)
        requires
            points.wf(),
            lo <= hi < points@.len(),
        ensures
            buffer is Owned,
            buffer.wf(),
            buffer.covers(points@, lo as int, hi as int),
    {
        let width = points.width();
        let mut vectors: Vec<Vec<i64>> = Vec::new();
        let mut magnitudes: Vec<i128> = Vec::new();
        let mut i: usize = lo;
        while i <= hi
            invariant
                points.wf(),
                lo <= i <= hi + 1,
                hi < points@.len(),
                forall|j: int| 0 <= j < points@.len() ==> (#[trigger] points@[j]).len() == width,
                vectors@.len() == i - lo,
                magnitudes@.len() == i - lo,
                forall|k: int|
                    0 <= k < i - lo ==> {
                        &&& (#[trigger] vectors@[k])@.len() == width
                        &&& as_vector(vectors@[k]@) == displacement(points@[lo + k], points@[lo as int])
                        &&& magnitudes@[k] == norm_sq(as_vector(vectors@[k]@))
                        &&& magnitudes@[k] <= SPAN_SQ
                    },
            decreases hi + 1 - i,
        {
            let (row, magnitude) = displace(points, i, lo, width);
            vectors.push(row);
            magnitudes.push(magnitude);
            i += 1;
        }
        let store = ChordStore { width, vectors, magnitudes };
        assert(store@ =~= range_displacements(points@, lo as int, hi as int));
        ChordBuffer::Owned { store }
    }

    /// Lends the first `len` entries of the buffer: the buffer of the left
    /// part of the range.
    pub fn prefix(&self, len: usize) -> (part: ChordBuffer<'_>)
        requires
            self.wf(),
            len <= self@.len(),
        ensures
            part is Shared,
            part.wf(),
            part@ == self@.take(len as int),
    {
        match self {
            ChordBuffer::Shared { parent, len: _ } => {
                assert(parent@.take(len as int) =~= self@.take(len as int));
                ChordBuffer::Shared { parent: *parent, len }
            },
            ChordBuffer::Owned { store } => ChordBuffer::Shared { parent: store, len },
        }
    }

    /// Number of points that the buffer covers.
    pub fn len(&self) -> (n: usize)
        requires
            self.wf(),
        ensures
            n == self@.len(),
    {
        match self {
            ChordBuffer::Shared { parent: _, len } => *len,
            ChordBuffer::Owned { store } => store.vectors.len(),
        }
    }

    /// The vector that leads from the first point of the range to point `k`
    /// of the range.
    pub fn vector(&self, k: usize) -> (row: &Vec<i64>)
        requires
            self.wf(),
            k < self@.len(),
        ensures
            as_vector(row@) == self@[k as int],
            row@.len() == self@[0].len(),
    {
        match self {
            ChordBuffer::Shared { parent, len: _ } => &parent.vectors[k],
            ChordBuffer::Owned { store } => &store.vectors[k],
        }
    }

    /// The squared length of [`Self::vector`].
    pub fn magnitude(&self, k: usize) -> (m: i128)
        requires
            self.wf(),
            k < self@.len(),
        ensures
            m == norm_sq(self@[k as int]),
            0 <= m <= SPAN_SQ,
    {
        proof {
            crate::geometry::lemma_norm_sq_nonnegative(self@[k as int]);
        }
        match self {
            ChordBuffer::Shared { parent, len: _ } => parent.magnitudes[k],
            ChordBuffer::Owned { store } => store.magnitudes[k],
        }
    }
}

/// The vector from point `origin` to point `i`, and its squared length.
fn displace(points: &PointSequence<'_>, i: usize, origin: usize, width: usize) -> (out: (
    Vec<i64>,
    i128,
))
    requires
        points.wf(),
        i < points@.len(),
        origin < points@.len(),
        forall|j: int| 0 <= j < points@.len() ==> (#[trigger] points@[j]).len() == width,
    ensures
        out.0@.len() == width,
        as_vector(out.0@) == displacement(points@[i as int], points@[origin as int]),
        out.1 == norm_sq(as_vector(out.0@)),
        out.1 <= SPAN_SQ,
{
    let ghost p = points@[i as int];
    let ghost s = points@[origin as int];
    let ghost v = displacement(p, s);
    let mut row: Vec<i64> = Vec::new();
    let mut magnitude: i128 = 0;
    let mut d: usize = 0;
    while d < width
        invariant
            points.wf(),
            i < points@.len(),
            origin < points@.len(),
            p == points@[i as int],
            s == points@[origin as int],
            v == displacement(p, s),
            p.len() == width,
            s.len() == width,
            d <= width,
            row@.len() == d,
            forall|e: int| 0 <= e < d ==> row@[e] == v[e],
            magnitude == dot_prefix(v, v, d as nat),
            0 <= magnitude <= SPAN_SQ,
        decreases width - d,
    {
        let a = points.coordinate(i, d);
        let b = points.coordinate(origin, d);
        proof {
            lemma_coordinate_in_reach(p, d as int);
            lemma_coordinate_in_reach(s, d as int);
            lemma_displacement_prefix_bound(p, s, (d + 1) as nat);
            lemma_norm_prefix_monotone(p, (d + 1) as nat, p.len());
            lemma_norm_prefix_monotone(s, (d + 1) as nat, s.len());
            lemma_norm_prefix_monotone(v, d as nat, (d + 1) as nat);
        }
        let c: i64 = a - b;
        assert(c == v[d as int]);
        assert(0 <= c * c <= 0x4000_0000_0000_0000) by (nonlinear_arith)
            requires
                -0x8000_0000 <= c <= 0x8000_0000,
        ;
        magnitude = magnitude + (c as i128) * (c as i128);
        row.push(c);
        d += 1;
    }
    assert(as_vector(row@) =~= v);
    (row, magnitude)
}

} // verus!
