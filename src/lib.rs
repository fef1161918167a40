//! Run-length encoding of a sequence, pulled lazily from either end.
//!
//! [`RunLengthEncode`] reports `(count, element)` pairs, one for each maximal run of elements
//! that compare equal. Pulled from the front, a run is reported with its first element; pulled
//! from the back, with its last. Both ends can be pulled in any interleaving, and a run that the
//! two ends reach together is reported once.
pub mod encoder;
pub mod laws;
pub mod runs;

pub use encoder::{IteratorExt, RunLengthEncode};
