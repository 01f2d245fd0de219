//! One compressed block: a stored-payload block transform and its inverse.
//!
//! The stream layer treats a compressed block as an opaque bit sequence plus
//! a 32-bit checksum; any block transform with an inverse fits behind this
//! interface.  The transform here stores the payload: the block-start magic,
//! a four-byte payload length, and the payload bytes, all bit-packed.

use vstd::prelude::*;

use crate::bits::spec_bits_of_bytes;
use crate::bits::spec_read_bytes_at;
use crate::bits::spec_u32_bytes;
use crate::bits::spec_u32_of_bytes;
use crate::bits::bytes_to_bits;
use crate::bits::BitSource;
use crate::checksum::spec_combine;

verus! {

/// The largest payload a single block may carry, in bytes: four fifths of
/// the nominal 900,000-byte block size, keeping headroom for a run-length
/// stage that can expand its input by up to a quarter.
pub const BLOCK_CAPACITY: usize = 720000;

/// The six bytes announcing a block.
pub open spec fn spec_block_magic() -> Seq<u8> {
    seq![0x31u8, 0x41u8, 0x59u8, 0x26u8, 0x53u8, 0x59u8]
}

/// The six bytes announcing the end of the stream.
pub open spec fn spec_footer_magic() -> Seq<u8> {
    seq![0x17u8, 0x72u8, 0x45u8, 0x38u8, 0x50u8, 0x90u8]
}

/// The per-block checksum of the stored transform: the block's bytes folded
/// with the same rotate-and-xor step the stream checksum uses.
pub open spec fn spec_byte_fold(acc: u32, s: Seq<u8>) -> u32
    decreases s.len(),
{
    if s.len() == 0 {
        acc
    } else {
        spec_byte_fold(spec_combine(acc, s[0] as u32), s.skip(1))
    }
}

/// The checksum of one block's payload.
pub open spec fn spec_block_crc(block: Seq<u8>) -> u32 {
    spec_byte_fold(0, block)
}

/// A compressed block, as bytes: magic, payload length, payload.
pub open spec fn spec_block_bytes(block: Seq<u8>) -> Seq<u8> {
    spec_block_magic() + spec_u32_bytes(block.len() as u32) + block
}

/// A compressed block, as the bit sequence a worker hands back.
pub open spec fn spec_block_bits(block: Seq<u8>) -> Seq<bool> {
    spec_bits_of_bytes(spec_block_bytes(block))
}

/// What one block-body parse yields at `pos` (just past the block magic):
/// the payload and the position after it, or nothing on a malformed body.
pub open spec fn spec_parse_block_body(bits: Seq<bool>, pos: int) -> Option<(Seq<u8>, int)> {
    if 0 <= pos && pos + 32 <= bits.len() {
        let lb = spec_read_bytes_at(bits, pos, 4);
        let l = spec_u32_of_bytes(lb[0], lb[1], lb[2], lb[3]) as int;
        if 1 <= l && l <= BLOCK_CAPACITY && pos + 32 + 8 * l <= bits.len() {
            Some((spec_read_bytes_at(bits, pos + 32, l), pos + 32 + 8 * l))
        } else {
            None
        }
    } else {
        None
    }
}

/// The bytes of one compressed block: magic, payload length, payload.
pub fn block_bytes(block: &Vec<u8>) -> (r: Vec<u8>)
    requires
        1 <= block@.len() <= BLOCK_CAPACITY,
    ensures
        r@ == spec_block_bytes(block@),
{
    let mut r: Vec<u8> = Vec::new();
    r.push(0x31);
    r.push(0x41);
    r.push(0x59);
    r.push(0x26);
    r.push(0x53);
    r.push(0x59);
    let l: u32 = block.len() as u32;
    r.push(((l >> 24) & 0xff) as u8);
    r.push(((l >> 16) & 0xff) as u8);
    r.push(((l >> 8) & 0xff) as u8);
    r.push((l & 0xff) as u8);
    proof {
        assert(r@ =~= spec_block_magic() + spec_u32_bytes(block@.len() as u32));
    }
    let mut i: usize = 0;
    while i < block.len()
        invariant
            i <= block@.len(),
            r@ == spec_block_magic() + spec_u32_bytes(block@.len() as u32) + block@.subrange(
                0,
                i as int,
            ),
        decreases block@.len() - i,
    {
        r.push(block[i]);
        proof {
            assert(r@ =~= spec_block_magic() + spec_u32_bytes(block@.len() as u32)
                + block@.subrange(0, i as int + 1));
        }
        i = i + 1;
    }
    proof {
        assert(block@.subrange(0, block@.len() as int) =~= block@);
    }
    r
}

/// The checksum of a byte run, folded front to back.
pub fn crc_of_bytes(s: &Vec<u8>) -> (r: u32)
    ensures
        r == spec_block_crc(s@),
{
    let mut crc: u32 = 0;
    let mut i: usize = 0;
    proof {
        assert(s@.skip(0) =~= s@);
    }
    while i < s.len()
        invariant
            i <= s@.len(),
            spec_byte_fold(crc, s@.skip(i as int)) == spec_block_crc(s@),
        decreases s@.len() - i,
    {
        proof {
            assert(s@.skip(i as int).skip(1) =~= s@.skip(i as int + 1));
            assert(s@.skip(i as int)[0] == s@[i as int]);
        }
        crc = (s[i] as u32) ^ ((crc << 1) | (crc >> 31));
        i = i + 1;
    }
    proof {
        assert(s@.skip(s@.len() as int) =~= Seq::<u8>::empty());
    }
    crc
}

/// Compress one raw block: its bit sequence and its checksum.  This is the
/// work a background worker performs for each block it is sent.
pub fn generate_block_data(work: &Vec<u8>) -> (r: (Vec<bool>, u32))
    requires
        1 <= work@.len() <= BLOCK_CAPACITY,
    ensures
        r.0@ == spec_block_bits(work@),
        r.1 == spec_block_crc(work@),
{
    let bb = block_bytes(work);
    let bits = bytes_to_bits(&bb);
    let crc = crc_of_bytes(work);
    (bits, crc)
}

/// Decode one block body (the source stands just past the block magic):
/// read the payload length, then the payload, appending it to `out`.
/// A length of zero, a length over the block capacity, or a source too short
/// for the announced payload is a malformed block.
pub fn decode_block(src: &mut BitSource, out: &mut Vec<u8>) -> (r: Result<(), ()>)
    requires
        old(src).wf(),
    ensures
        final(src).wf(),
        final(src).bits@ == old(src).bits@,
        match spec_parse_block_body(old(src).bits@, old(src).pos as int) {
            Some(pr) => r is Ok && final(out)@ == old(out)@ + pr.0 && final(src).pos == pr.1,
            None => r is Err && final(out)@ == old(out)@,
        },
        r is Err && old(src).pos + 32 <= old(src).bits@.len() ==> final(src).pos == old(src).pos
            + 32,
        r is Err && old(src).pos + 32 > old(src).bits@.len() ==> final(src).pos == old(src).pos,
{
    let lb = match src.read_bytes(4) {
        Ok(v) => v,
        Err(_) => {
            return Err(());
        },
    };
    let l: u32 = ((lb[0] as u32) << 24) | ((lb[1] as u32) << 16) | ((lb[2] as u32) << 8) | (lb[3]
        as u32);
    if l == 0 || l > BLOCK_CAPACITY as u32 {
        return Err(());
    }
    let payload = match src.read_bytes(l as usize) {
        Ok(v) => v,
        Err(_) => {
            return Err(());
        },
    };
    let mut i: usize = 0;
    proof {
        assert(out@ =~= old(out)@ + payload@.subrange(0, 0));
    }
    while i < payload.len()
        invariant
            i <= payload@.len(),
            out@ == old(out)@ + payload@.subrange(0, i as int),
        decreases payload@.len() - i,
    {
        out.push(payload[i]);
        proof {
            assert(out@ =~= old(out)@ + payload@.subrange(0, i as int + 1));
        }
        i = i + 1;
    }
    proof {
        assert(payload@.subrange(0, payload@.len() as int) =~= payload@);
    }
    Ok(())
}

} // verus!
