//! Ramer-Douglas-Peucker simplification of curves with integer coordinates.
//!
//! A curve is an ordered sequence of points in any dimension. [`rdp`]
//! returns a mask that retains the two endpoints, and between them every
//! point that is needed to keep the simplified curve within the tolerance
//! of the curve as it was given. All arithmetic is exact: coordinates and
//! tolerance are integers, and distances are compared as fractions.
//!
//! - [`points`]: the point sequence, a view of the caller's coordinates;
//! - [`mask`]: the retention mask;
//! - [`geometry`]: inner products, squared lengths and deviations;
//! - [`buffer`]: the chord buffer that a range shares with its left part;
//! - [`distance`]: the distances of the points of a range from its chord;
//! - [`partition`]: the farthest point of a range, and whether it splits;
//! - [`simplify`]: the recursion, and what it retains;
//! - [`stepwise`]: the same in single steps, for distances that the caller
//!   measures;
//! - [`laws`] and [`stability`]: what holds of every simplification.

pub mod buffer;
pub mod distance;
pub mod geometry;
pub mod laws;
pub mod mask;
pub mod partition;
pub mod points;
pub mod simplify;
pub mod stability;
pub mod stepwise;

pub use buffer::{ChordBuffer, ChordStore};
pub use distance::{buffered_distances, line_point_distances, line_point_distances_planar};
pub use mask::RetentionMask;
pub use partition::{farthest, split_index};
pub use points::{InputError, PointSequence};
pub use simplify::{rdp, rdp_recomputing, simplify};
pub use stepwise::{rdp_stepwise, PendingRange, Simplification};
