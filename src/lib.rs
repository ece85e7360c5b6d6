//! Bounded-memory merge of line-oriented byte streams.
//!
//! Every input is held in a [`source::Source`], a growable window over the
//! stream; the [`merge::Merger`] repeatedly picks the smallest pending line
//! among all sources and records, for each emitted line, whether a header
//! naming its source has to precede it. Reading and writing stay with the
//! caller: the library decides, the caller moves bytes.
use vstd::prelude::*;

pub mod line;
pub mod source;
pub mod output;
pub mod merge;

verus! {

/// Capacity with which each source's buffer starts.
pub const INITIAL_CAPACITY: usize = 1048576;

} // verus!
