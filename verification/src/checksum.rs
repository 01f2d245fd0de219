//! The combined stream checksum: per-block checksums folded into one 32-bit
//! value, one fold step per block, in block order.

use vstd::prelude::*;

verus! {

/// One combination step: the block checksum xored with the running value
/// rotated left by one (with 32-bit wraparound).
pub open spec fn spec_combine(acc: u32, c: u32) -> u32 {
    c ^ ((acc << 1) | (acc >> 31))
}

/// The fold of a whole run of block checksums, in order, starting from `acc`.
pub open spec fn spec_combine_all(crcs: Seq<u32>, acc: u32) -> u32
    decreases crcs.len(),
{
    if crcs.len() == 0 {
        acc
    } else {
        spec_combine_all(crcs.skip(1), spec_combine(acc, crcs[0]))
    }
}

/// Fold one block checksum into the running stream checksum.
pub fn combine_crc(acc: u32, c: u32) -> (r: u32)
    ensures
        r == spec_combine(acc, c),
{
    c ^ ((acc << 1) | (acc >> 31))
}

} // verus!
