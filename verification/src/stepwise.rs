//! The simplification in single steps, for a caller that measures the
//! distances itself.
//!
//! The caller asks which range is to be measured, hands in the distances of
//! that range from its chord, and the range is split or left as it is. The
//! ranges are treated in the order of the recursion: a range, then its left
//! part, then its right part.

use vstd::prelude::*;
use crate::buffer::SPAN_SQ;
use crate::distance::{line_point_distances, span_product};
use crate::geometry::lemma_norm_sq_nonnegative;
use crate::mask::{endpoints_only, RetentionMask};
use crate::partition::{split_index, split_of, widened};
use crate::points::PointSequence;
use crate::simplify::{
    chord_of, rdp_mask, retained, split_point, squared_tolerance, lemma_cut_off_tolerance,
    lemma_retained_inside, lemma_split_point_inside,
};

verus! {

/// A range of the curve that is still to be measured, both ends included.
#[derive(Clone, Copy, Debug, PartialEq, Eq, Structural)]
pub struct PendingRange {
    /// Index of the first point.
    pub lo: usize,
    /// Index of the last point.
    pub hi: usize,
    /// Whether the range is the left part of the range that was split
    /// last: it then starts at the same point, and the offsets of its
    /// points from that point are a prefix of those of the range that was
    /// split. Any other range starts at a new point.
    pub shares_buffer: bool,
}

/// A simplification under way: the mask so far, and the ranges that are
/// still to be measured, the next one last.
pub struct Simplification {
    mask: RetentionMask,
    stack: Vec<PendingRange>,
}

/// The ranges that are pending when the simplification of a curve of `n`
/// points begins: the whole curve, if it has an interior point.
pub open spec fn ranges_at_first(n: nat) -> Seq<PendingRange> {
    if n >= 3 {
        seq![PendingRange { lo: 0, hi: (n - 1) as usize, shares_buffer: false }]
    } else {
        Seq::empty()
    }
}

/// The range that is next: the last of the pending ranges.
pub open spec fn next_of(ranges: Seq<PendingRange>) -> Option<PendingRange> {
    if ranges.len() > 0 {
        Some(ranges.last())
    } else {
        None
    }
}

/// The split point of a range that is split at position `m`, counted from
/// the first point of the range.
pub open spec fn moved(decision: Option<int>, lo: int) -> Option<int> {
    match decision {
        Some(m) => Some(lo + m),
        None => None,
    }
}

/// The mask after the range has been treated: a split point is retained.
pub open spec fn flags_after(flags: Seq<bool>, range: PendingRange, decision: Option<int>) -> Seq<
    bool,
> {
    match decision {
        Some(m) => flags.update(range.lo + m, true),
        None => flags,
    }
}

/// The pending ranges after the last of them has been treated. Of a range
/// that is split at position `m`, the right part is entered first and the
/// left part after it, so that the left part is next; a part of two points
/// has nothing to measure and is not entered.
pub open spec fn ranges_after(ranges: Seq<PendingRange>, decision: Option<int>) -> Seq<
    PendingRange,
> {
    let range = ranges.last();
    let rest = ranges.drop_last();
    match decision {
        None => rest,
        Some(m) => {
            let split = (range.lo + m) as usize;
            let with_right = if range.hi - split >= 2 {
                rest.push(PendingRange { lo: split, hi: range.hi, shares_buffer: false })
            } else {
                rest
            };
            if m >= 2 {
                with_right.push(PendingRange { lo: range.lo, hi: split, shares_buffer: true })
            } else {
                with_right
            }
        },
    }
}

impl Simplification {
    /// The mask so far.
    pub closed spec fn flags(&self) -> Seq<bool> {
        self.mask@
    }

    /// The ranges that are still to be measured; the last one is next.
    pub closed spec fn ranges(&self) -> Seq<PendingRange> {
        self.stack@
    }

    /// Every pending range has an interior point and lies within the
    /// curve, and none but the next one shares the buffer of the range
    /// that was treated last.
    pub open spec fn wf(&self) -> bool {
        &&& forall|k: int|
            0 <= k < self.ranges().len() ==> (#[trigger] self.ranges()[k]).lo + 2
                <= self.ranges()[k].hi < self.flags().len()
        &&& forall|k: int|
            0 <= k < self.ranges().len() - 1 ==> !(#[trigger] self.ranges()[k]).shares_buffer
    }

    /// Begins the simplification of a curve of `n` points: the endpoints
    /// are retained, and the whole curve is to be measured if it has an
    /// interior point.
    pub fn begin(n: usize) -> (state: Simplification)
        requires
            n <= isize::MAX,
        ensures
            state.wf(),
            state.flags() == endpoints_only(n as nat),
            state.ranges() == ranges_at_first(n as nat),
    {
        let mask = RetentionMask::endpoints(n);
        let mut stack: Vec<PendingRange> = Vec::new();
        if n >= 3 {
            stack.push(PendingRange { lo: 0, hi: n - 1, shares_buffer: false });
        }
        let state = Simplification { mask, stack };
        assert(state.ranges() =~= ranges_at_first(n as nat));
        state
    }

    /// The range that is to be measured next, if any is left.
    pub fn next(&self) -> (range: Option<PendingRange>)
        ensures
            range == next_of(self.ranges()),
    {
        let n = self.stack.len();
        if n == 0 {
            None
        } else {
            Some(self.stack[n - 1])
        }
    }

    /// Treats the next range, given the distances of its points from its
    /// chord, one per point with the endpoints included, and the distance
    /// that the farthest point must exceed for the range to be split.
    pub fn resolve(&mut self, distances: &Vec<i128>, threshold: i128)
        requires
            old(self).wf(),
            old(self).ranges().len() > 0,
            distances@.len() == old(self).ranges().last().hi - old(self).ranges().last().lo + 1,
        ensures
            final(self).wf(),
            final(self).flags() == flags_after(
                old(self).flags(),
                old(self).ranges().last(),
                split_of(widened(distances@), threshold as int),
            ),
            final(self).ranges() == ranges_after(
                old(self).ranges(),
                split_of(widened(distances@), threshold as int),
            ),
    {
        let ghost before = self.stack@;
        let n = self.stack.len();
        let range = self.stack[n - 1];
        self.stack.pop();
        assert(self.stack@ =~= before.drop_last());
        if let Some(m) = split_index(distances, threshold) {
            let split = range.lo + m;
            self.mask.retain(split);
            if range.hi - split >= 2 {
                self.stack.push(PendingRange { lo: split, hi: range.hi, shares_buffer: false });
            }
            if m >= 2 {
                self.stack.push(PendingRange { lo: range.lo, hi: split, shares_buffer: true });
            }
        }
    }

    /// Ends the simplification and hands out the mask.
    pub fn finish(self) -> (mask: RetentionMask)
        ensures
            mask@ == self.flags(),
    {
        self.mask
    }
}

/// What the recursion retains strictly inside the range `lo..=hi` when
/// `oracle` says where each range is split, if it is split.
pub open spec fn retained_by(oracle: spec_fn(int, int) -> Option<int>, lo: int, hi: int) -> Set<int>
    decreases hi - lo,
{
    if hi - lo >= 2 {
        match oracle(lo, hi) {
            Some(m) => if lo < m < hi {
                retained_by(oracle, lo, m).insert(m).union(retained_by(oracle, m, hi))
            } else {
                Set::empty()
            },
            None => Set::empty(),
        }
    } else {
        Set::empty()
    }
}

/// What the first `k` pending ranges will retain.
pub open spec fn pending_retained(
    oracle: spec_fn(int, int) -> Option<int>,
    ranges: Seq<PendingRange>,
    k: nat,
) -> Set<int>
    decreases k,
{
    if k == 0 {
        Set::empty()
    } else {
        pending_retained(oracle, ranges, (k - 1) as nat).union(
            retained_by(oracle, ranges[k - 1].lo as int, ranges[k - 1].hi as int),
        )
    }
}

/// The points that are retained in the end: those that the mask retains
/// now, and those that the pending ranges will retain.
pub open spec fn outcome(
    oracle: spec_fn(int, int) -> Option<int>,
    flags: Seq<bool>,
    ranges: Seq<PendingRange>,
) -> Set<int> {
    Set::new(|i: int| 0 <= i < flags.len() && flags[i]).union(
        pending_retained(oracle, ranges, ranges.len()),
    )
}

/// The number of points that are not yet decided: the interior points of
/// the first `k` pending ranges.
pub open spec fn undecided(ranges: Seq<PendingRange>, k: nat) -> int
    decreases k,
{
    if k == 0 {
        0
    } else {
        undecided(ranges, (k - 1) as nat) + (ranges[k - 1].hi - ranges[k - 1].lo - 1)
    }
}

/// Every pending range has an interior point that is not yet decided.
pub proof fn lemma_undecided_counts(ranges: Seq<PendingRange>, k: nat)
    requires
        k <= ranges.len(),
        forall|j: int| 0 <= j < ranges.len() ==> (#[trigger] ranges[j]).lo + 2 <= ranges[j].hi,
    ensures
        undecided(ranges, k) >= k,
    decreases k,
{
    if k > 0 {
        lemma_undecided_counts(ranges, (k - 1) as nat);
    }
}

/// What the pending ranges will retain depends on the ranges alone.
proof fn lemma_pending_retained_prefix(
    oracle: spec_fn(int, int) -> Option<int>,
    a: Seq<PendingRange>,
    b: Seq<PendingRange>,
    k: nat,
)
    requires
        k <= a.len(),
        k <= b.len(),
        forall|j: int| 0 <= j < k ==> a[j] == b[j],
    ensures
        pending_retained(oracle, a, k) == pending_retained(oracle, b, k),
        undecided(a, k) == undecided(b, k),
    decreases k,
{
    if k > 0 {
        lemma_pending_retained_prefix(oracle, a, b, (k - 1) as nat);
    }
}

/// A step changes nothing in what is retained in the end, as long as the
/// range is split where the oracle says; and it leaves fewer points
/// undecided.
pub proof fn lemma_step_keeps_outcome(
    oracle: spec_fn(int, int) -> Option<int>,
    flags: Seq<bool>,
    ranges: Seq<PendingRange>,
    decision: Option<int>,
)
    requires
        ranges.len() > 0,
        ranges.last().lo + 2 <= ranges.last().hi < flags.len(),
        decision matches Some(m) ==> 0 < m < ranges.last().hi - ranges.last().lo,
        oracle(ranges.last().lo as int, ranges.last().hi as int) == moved(
            decision,
            ranges.last().lo as int,
        ),
    ensures
        outcome(oracle, flags_after(flags, ranges.last(), decision), ranges_after(ranges, decision))
            == outcome(oracle, flags, ranges),
        undecided(ranges_after(ranges, decision), ranges_after(ranges, decision).len()) < undecided(
            ranges,
            ranges.len(),
        ),
{
    let range = ranges.last();
    let rest = ranges.drop_last();
    let lo = range.lo as int;
    let hi = range.hi as int;
    let after = ranges_after(ranges, decision);
    let flags_then = flags_after(flags, range, decision);
    lemma_pending_retained_prefix(oracle, ranges, rest, rest.len());
    match decision {
        None => {
            assert(retained_by(oracle, lo, hi) == Set::<int>::empty());
            assert(outcome(oracle, flags_then, after) =~= outcome(oracle, flags, ranges));
        },
        Some(m) => {
            let split = lo + m;
            let right = PendingRange { lo: split as usize, hi: range.hi, shares_buffer: false };
            let left = PendingRange { lo: range.lo, hi: split as usize, shares_buffer: true };
            let with_right = if hi - split >= 2 {
                rest.push(right)
            } else {
                rest
            };
            assert(retained_by(oracle, lo, hi) == retained_by(oracle, lo, split).insert(split).union(
                retained_by(oracle, split, hi),
            ));
            lemma_pending_retained_prefix(oracle, with_right, rest, rest.len());
            lemma_pending_retained_prefix(oracle, after, with_right, with_right.len());
            if hi - split < 2 {
                assert(retained_by(oracle, split, hi) == Set::<int>::empty());
            }
            if m < 2 {
                assert(retained_by(oracle, lo, split) == Set::<int>::empty());
            }
            assert(pending_retained(oracle, after, after.len()) =~= pending_retained(
                oracle,
                rest,
                rest.len(),
            ).union(retained_by(oracle, lo, split)).union(retained_by(oracle, split, hi)));
            assert(outcome(oracle, flags_then, after) =~= outcome(oracle, flags, ranges));
        },
    }
}

/// The oracle that splits each range of a curve where [`split_point`]
/// says makes the recursion retain what [`retained`] says.
pub proof fn lemma_retained_by_split_point(
    points: Seq<Seq<int>>,
    tolerance_sq: int,
    lo: int,
    hi: int,
)
    ensures
        retained_by(|a: int, b: int| split_point(points, tolerance_sq, a, b), lo, hi) == retained(
            points,
            tolerance_sq,
            lo,
            hi,
        ),
    decreases hi - lo,
{
    let oracle = |a: int, b: int| split_point(points, tolerance_sq, a, b);
    lemma_split_point_inside(points, tolerance_sq, lo, hi);
    match split_point(points, tolerance_sq, lo, hi) {
        Some(m) => {
            lemma_retained_by_split_point(points, tolerance_sq, lo, m);
            lemma_retained_by_split_point(points, tolerance_sq, m, hi);
            assert(oracle(lo, hi) == Some(m));
        },
        None => {
            assert(oracle(lo, hi) == None::<int>);
        },
    }
}

/// Simplifies a curve as [`crate::simplify::rdp`] does, one step after
/// the other: each range that is pending is measured from the coordinates
/// and treated, until none is left.
pub fn rdp_stepwise(points: &PointSequence<'_>, epsilon: u64) -> (mask: RetentionMask)
    requires
        points.wf(),
    ensures
        mask@ == rdp_mask(points@, epsilon as nat),
{
    let n = points.len();
    let tolerance_sq = squared_tolerance(epsilon);
    let mut state = Simplification::begin(n);
    let ghost oracle = |a: int, b: int| split_point(points@, tolerance_sq as int, a, b);
    let ghost target = outcome(oracle, state.flags(), state.ranges());
    proof {
        reveal_with_fuel(pending_retained, 2);
        if n >= 1 {
            lemma_retained_by_split_point(points@, tolerance_sq as int, 0, n - 1);
            lemma_cut_off_tolerance(points@, epsilon as nat, tolerance_sq as int);
            lemma_retained_inside(points@, tolerance_sq as int, 0, n - 1);
        }
        assert forall|i: int| 0 <= i < n implies (target.contains(i) <==> rdp_mask(
            points@,
            epsilon as nat,
        )[i]) by {}
    }
    let mut next = state.next();
    while next.is_some()
        invariant
            points.wf(),
            n == points@.len(),
            0 <= tolerance_sq <= SPAN_SQ,
            oracle == |a: int, b: int| split_point(points@, tolerance_sq as int, a, b),
            state.wf(),
            state.flags().len() == n,
            outcome(oracle, state.flags(), state.ranges()) == target,
            next == next_of(state.ranges()),
        decreases undecided(state.ranges(), state.ranges().len()),
    {
        let range = next.unwrap();
        let distances = line_point_distances(points, range.lo, range.hi);
        let chord_sq = span_product(points, range.hi, range.hi, range.lo);
        let scale: i128 = if chord_sq == 0 {
            1
        } else {
            chord_sq
        };
        proof {
            lemma_norm_sq_nonnegative(chord_of(points@, range.lo as int, range.hi as int));
            lemma_split_point_inside(
                points@,
                tolerance_sq as int,
                range.lo as int,
                range.hi as int,
            );
            assert(0 <= tolerance_sq * scale <= 0x1000_0000_0000_0000_0000_0000_0000_0000)
                by (nonlinear_arith)
                requires
                    0 <= tolerance_sq <= 0x4000_0000_0000_0000,
                    1 <= scale <= 0x4000_0000_0000_0000,
            ;
            lemma_step_keeps_outcome(
                oracle,
                state.flags(),
                state.ranges(),
                split_of(widened(distances@), (tolerance_sq * scale) as int),
            );
        }
        state.resolve(&distances, tolerance_sq * scale);
        next = state.next();
        proof {
            lemma_undecided_counts(state.ranges(), state.ranges().len());
        }
    }
    let mask = state.finish();
    proof {
        assert forall|i: int| 0 <= i < n implies mask@[i] == rdp_mask(points@, epsilon as nat)[i] by {
            assert(target.contains(i) <==> mask@[i]);
        }
        assert(mask@ =~= rdp_mask(points@, epsilon as nat));
    }
    mask
}

} // verus!
