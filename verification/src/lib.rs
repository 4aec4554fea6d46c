//! An in-memory index over a growing, start-ordered sequence of closed time
//! intervals. It answers two kinds of window queries: enumerating the stored
//! items whose interval overlaps a window, and computing a mergeable summary
//! (count, min/max/total duration) over them without materializing each item.
//!
//! The index keeps the raw items in an append-only slow lane and maintains a
//! fixed stack of fast lanes, each a geometric compression of the slow lane
//! into fixed-width blocks carrying a bounding interval and a precomputed
//! summary. Queries localize a starting position through the lanes, then walk
//! forward, skipping whole blocks whenever a block's bounding interval is
//! fully contained in the window.

pub mod aggregate;
pub mod baseline;
pub mod index;
pub mod interval;

pub use aggregate::{Aggregate, DefaultStatistics};
pub use baseline::BaselineIntervalIndex;
pub use index::{FastLane, IntervalIndex, QueryVisitor, SlowLane};
pub use interval::Interval;
