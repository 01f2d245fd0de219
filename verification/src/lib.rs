//! Stream-level orchestration of a block-compression container format.
//!
//! The container is a header, a run of independently compressed blocks, and a
//! footer carrying a combined checksum.  Encoding chunks the input, hands the
//! chunks to a pool of workers, gathers the results in dispatch order, and
//! folds the per-block checksums into one stream checksum.  Decoding is a
//! sequential state machine over the bit stream, driven by fixed six-byte
//! markers.

pub mod bits;
pub mod checksum;
pub mod block;
pub mod worker;
pub mod stream;
