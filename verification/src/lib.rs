//! Determines, for an open file, which byte ranges are physically backed by
//! data and which are unallocated holes.
//!
//! The operating-system primitives on both supported hosts are
//! boundary-oriented and incomplete: one style reports hole/data boundaries
//! one probe at a time, the other reports allocated ranges only. This crate
//! holds the verified logic that reduces either kind of partial signal into a
//! complete, ordered, typed partition of the file, together with the
//! synthetic-layout generator used as a test oracle. The thin shims that make
//! the actual system calls live outside the library and feed their raw
//! results in as plain values.

pub mod hole_scan;
pub mod ranges;
pub mod reduce;
pub mod segment;
pub mod synth;
