//! Delta encoding and replay for byte files.
//!
//! A delta stream is an ordered sequence of edit records that transforms a
//! source byte sequence into a candidate byte sequence.  The library computes
//! such streams chunk by chunk, serializes them to a line-oriented text form,
//! parses them back, and replays them against a source, checking a whole-file
//! digest before the result may be committed.

use vstd::prelude::*;

pub mod apply;
pub mod codec;
pub mod delta;
pub mod diff;
pub mod digest;

verus! {

/// Size of the blocks in which source and candidate are compared in lock-step.
pub const CHUNK_SIZE: usize = 32;

} // verus!
