//! Bits and bytes: the container format is bit-granular, so byte sequences
//! are modelled as sequences of bits (most significant bit of each byte
//! first), with packing back into bytes and a deterministic zero padding for
//! the final partial byte.

use vstd::prelude::*;

verus! {

/// Bit `i` of byte `b`, counting from the most significant bit.
pub open spec fn spec_bit_of_byte(b: u8, i: int) -> bool {
    (b >> ((7 - i) as u8)) & 1 == 1
}

/// The eight bits of one byte, most significant first.
pub open spec fn spec_byte_bits(b: u8) -> Seq<bool> {
    Seq::new(8, |i: int| spec_bit_of_byte(b, i))
}

/// A byte sequence laid out bit by bit, each byte most significant bit first.
pub open spec fn spec_bits_of_bytes(s: Seq<u8>) -> Seq<bool> {
    Seq::new(s.len() * 8, |i: int| spec_bit_of_byte(s[i / 8], i % 8))
}

/// The byte denoted by eight bits, most significant first.
pub open spec fn spec_byte_of_bits(bs: Seq<bool>) -> u8 {
    ((if bs[0] { 128int } else { 0int }) + (if bs[1] { 64int } else { 0int })
        + (if bs[2] { 32int } else { 0int }) + (if bs[3] { 16int } else { 0int })
        + (if bs[4] { 8int } else { 0int }) + (if bs[5] { 4int } else { 0int })
        + (if bs[6] { 2int } else { 0int }) + (if bs[7] { 1int } else { 0int })) as u8
}

/// Bits regrouped into bytes; a trailing group of fewer than eight bits is
/// dropped (packing is meant for padded sequences).
pub open spec fn spec_pack_bits(bits: Seq<bool>) -> Seq<u8> {
    Seq::new(bits.len() / 8, |j: int| spec_byte_of_bits(bits.subrange(8 * j, 8 * j + 8)))
}

/// Zero bits appended up to the next byte boundary.
pub open spec fn spec_pad(bits: Seq<bool>) -> Seq<bool> {
    if bits.len() % 8 == 0 {
        bits
    } else {
        bits + Seq::new((8 - bits.len() % 8) as nat, |i: int| false)
    }
}

/// The bytes denoted by a slice of a bit sequence, starting at `pos`.
/// Opaque: callers reason through `lemma_read_aligned` and the contracts of
/// the reading functions, never through the packing itself.
#[verifier::opaque]
pub open spec fn spec_read_bytes_at(bits: Seq<bool>, pos: int, n: int) -> Seq<u8> {
    spec_pack_bits(bits.subrange(pos, pos + 8 * n))
}

/// A 32-bit value as four bytes, most significant first.
pub open spec fn spec_u32_bytes(x: u32) -> Seq<u8> {
    seq![
        ((x >> 24) & 0xff) as u8,
        ((x >> 16) & 0xff) as u8,
        ((x >> 8) & 0xff) as u8,
        (x & 0xff) as u8,
    ]
}

/// The 32-bit value denoted by four bytes, most significant first.
pub open spec fn spec_u32_of_bytes(b0: u8, b1: u8, b2: u8, b3: u8) -> u32 {
    ((b0 as u32) << 24) | ((b1 as u32) << 16) | ((b2 as u32) << 8) | (b3 as u32)
}

/// Reassembling the eight bits of a byte yields the byte back.
pub proof fn lemma_byte_bits_roundtrip(b: u8)
    ensures
        spec_byte_of_bits(spec_byte_bits(b)) == b,
{
    assert((if (b >> 7u8) & 1 == 1 { 128int } else { 0int })
        + (if (b >> 6u8) & 1 == 1 { 64int } else { 0int })
        + (if (b >> 5u8) & 1 == 1 { 32int } else { 0int })
        + (if (b >> 4u8) & 1 == 1 { 16int } else { 0int })
        + (if (b >> 3u8) & 1 == 1 { 8int } else { 0int })
        + (if (b >> 2u8) & 1 == 1 { 4int } else { 0int })
        + (if (b >> 1u8) & 1 == 1 { 2int } else { 0int })
        + (if (b >> 0u8) & 1 == 1 { 1int } else { 0int }) == b) by (bit_vector);
    assert(spec_byte_bits(b)[0] == ((b >> 7u8) & 1 == 1));
    assert(spec_byte_bits(b)[1] == ((b >> 6u8) & 1 == 1));
    assert(spec_byte_bits(b)[2] == ((b >> 5u8) & 1 == 1));
    assert(spec_byte_bits(b)[3] == ((b >> 4u8) & 1 == 1));
    assert(spec_byte_bits(b)[4] == ((b >> 3u8) & 1 == 1));
    assert(spec_byte_bits(b)[5] == ((b >> 2u8) & 1 == 1));
    assert(spec_byte_bits(b)[6] == ((b >> 1u8) & 1 == 1));
    assert(spec_byte_bits(b)[7] == ((b >> 0u8) & 1 == 1));
}

/// Reassembling the four bytes of a 32-bit value yields the value back.
pub proof fn lemma_u32_bytes_roundtrip(x: u32)
    ensures
        spec_u32_of_bytes(
            spec_u32_bytes(x)[0],
            spec_u32_bytes(x)[1],
            spec_u32_bytes(x)[2],
            spec_u32_bytes(x)[3],
        ) == x,
{
    assert(((((x >> 24) & 0xff) as u8 as u32) << 24) | ((((x >> 16) & 0xff) as u8 as u32) << 16)
        | ((((x >> 8) & 0xff) as u8 as u32) << 8) | (((x & 0xff) as u8) as u32) == x)
        by (bit_vector);
}

/// Bit layout distributes over byte-sequence concatenation.
pub proof fn lemma_bits_of_bytes_concat(a: Seq<u8>, b: Seq<u8>)
    ensures
        spec_bits_of_bytes(a + b) == spec_bits_of_bytes(a) + spec_bits_of_bytes(b),
{
    let lhs = spec_bits_of_bytes(a + b);
    let rhs = spec_bits_of_bytes(a) + spec_bits_of_bytes(b);
    assert forall|i: int| 0 <= i < lhs.len() implies lhs[i] == rhs[i] by {
        if i < 8 * a.len() {
            assert(i / 8 < a.len());
            assert((a + b)[i / 8] == a[i / 8]);
        } else {
            assert(a.len() <= i / 8 < a.len() + b.len());
            assert((a + b)[i / 8] == b[i / 8 - a.len()]);
            assert((i - 8 * a.len()) / 8 == i / 8 - a.len());
            assert((i - 8 * a.len()) % 8 == i % 8);
        }
    }
    assert(lhs =~= rhs);
}

/// The bit layout of a single byte is that byte's bits.
pub proof fn lemma_bits_of_single(b: u8)
    ensures
        spec_bits_of_bytes(seq![b]) == spec_byte_bits(b),
{
    assert(spec_bits_of_bytes(seq![b]) =~= spec_byte_bits(b));
}

/// Reading whole bytes from a byte-aligned position of a bit layout yields
/// the corresponding bytes of the underlying byte sequence.
pub proof fn lemma_read_aligned(s: Seq<u8>, k: int, n: int)
    requires
        0 <= k,
        0 <= n,
        k + n <= s.len(),
    ensures
        spec_read_bytes_at(spec_bits_of_bytes(s), 8 * k, n) == s.subrange(k, k + n),
{
    reveal(spec_read_bytes_at);
    let bits = spec_bits_of_bytes(s);
    let sub = bits.subrange(8 * k, 8 * k + 8 * n);
    let lhs = spec_pack_bits(sub);
    assert forall|j: int| 0 <= j < n implies lhs[j] == s[k + j] by {
        let chunk = sub.subrange(8 * j, 8 * j + 8);
        assert forall|i: int| 0 <= i < 8 implies chunk[i] == spec_bit_of_byte(s[k + j], i) by {
            assert(chunk[i] == bits[8 * k + 8 * j + i]);
            assert((8 * (k + j) + i) / 8 == k + j);
            assert((8 * (k + j) + i) % 8 == i);
        }
        assert(chunk =~= spec_byte_bits(s[k + j]));
        lemma_byte_bits_roundtrip(s[k + j]);
    }
    assert(lhs =~= s.subrange(k, k + n));
}

/// Packing the bit layout of a byte sequence yields the byte sequence back.
pub proof fn lemma_pack_unpack(s: Seq<u8>)
    ensures
        spec_pack_bits(spec_bits_of_bytes(s)) == s,
{
    reveal(spec_read_bytes_at);
    lemma_read_aligned(s, 0, s.len() as int);
    assert(spec_bits_of_bytes(s).subrange(0, 8 * s.len() as int) =~= spec_bits_of_bytes(s));
    assert(s.subrange(0, s.len() as int) =~= s);
}

/// Append the eight bits of `b` to `out`, most significant first.
fn push_byte_bits(out: &mut Vec<bool>, b: u8)
    ensures
        final(out)@ == old(out)@ + spec_byte_bits(b),
{
    out.push((b >> 7u8) & 1 == 1);
    out.push((b >> 6u8) & 1 == 1);
    out.push((b >> 5u8) & 1 == 1);
    out.push((b >> 4u8) & 1 == 1);
    out.push((b >> 3u8) & 1 == 1);
    out.push((b >> 2u8) & 1 == 1);
    out.push((b >> 1u8) & 1 == 1);
    out.push((b >> 0u8) & 1 == 1);
    proof {
        assert(out@ =~= old(out)@ + spec_byte_bits(b));
    }
}

/// The bit layout of a whole byte sequence, as an owned vector.
pub fn bytes_to_bits(bytes: &Vec<u8>) -> (r: Vec<bool>)
    ensures
        r@ == spec_bits_of_bytes(bytes@),
{
    let mut r: Vec<bool> = Vec::new();
    let mut i: usize = 0;
    proof {
        assert(r@ =~= spec_bits_of_bytes(bytes@.subrange(0, 0)));
    }
    while i < bytes.len()
        invariant
            i <= bytes@.len(),
            r@ == spec_bits_of_bytes(bytes@.subrange(0, i as int)),
        decreases bytes@.len() - i,
    {
        push_byte_bits(&mut r, bytes[i]);
        proof {
            let pre = bytes@.subrange(0, i as int);
            lemma_bits_of_bytes_concat(pre, seq![bytes@[i as int]]);
            lemma_bits_of_single(bytes@[i as int]);
            assert(bytes@.subrange(0, i as int + 1) =~= pre + seq![bytes@[i as int]]);
        }
        i = i + 1;
    }
    proof {
        assert(bytes@.subrange(0, bytes@.len() as int) =~= bytes@);
    }
    r
}

/// Append a copy of every bit of `src` to `out`.
pub fn write_bits(out: &mut Vec<bool>, src: &Vec<bool>)
    ensures
        final(out)@ == old(out)@ + src@,
{
    let mut i: usize = 0;
    proof {
        assert(out@ =~= old(out)@ + src@.subrange(0, 0));
    }
    while i < src.len()
        invariant
            i <= src@.len(),
            out@ == old(out)@ + src@.subrange(0, i as int),
        decreases src@.len() - i,
    {
        out.push(src[i]);
        proof {
            assert(out@ =~= old(out)@ + src@.subrange(0, i as int + 1));
        }
        i = i + 1;
    }
    proof {
        assert(src@.subrange(0, src@.len() as int) =~= src@);
    }
}

/// Assemble one byte from the eight bits at `pos`, most significant first.
fn collect_byte(bits: &Vec<bool>, pos: usize) -> (r: u8)
    requires
        pos + 8 <= bits@.len(),
    ensures
        r == spec_byte_of_bits(bits@.subrange(pos as int, pos as int + 8)),
{
    let n: usize = bits.len();
    proof {
        assert(pos + 8 <= n);
    }
    let mut v: u8 = 0;
    if bits[pos] {
        v = v + 128;
    }
    if bits[pos + 1] {
        v = v + 64;
    }
    if bits[pos + 2] {
        v = v + 32;
    }
    if bits[pos + 3] {
        v = v + 16;
    }
    if bits[pos + 4] {
        v = v + 8;
    }
    if bits[pos + 5] {
        v = v + 4;
    }
    if bits[pos + 6] {
        v = v + 2;
    }
    if bits[pos + 7] {
        v = v + 1;
    }
    v
}

/// Pack a bit sequence into bytes, padding the final partial byte with zero
/// bits, most significant first.
pub fn bits_to_bytes(bits: &Vec<bool>) -> (r: Vec<u8>)
    ensures
        r@ == spec_pack_bits(spec_pad(bits@)),
{
    let mut r: Vec<u8> = Vec::new();
    let mut p: usize = 0;
    while bits.len() - p >= 8
        invariant
            p <= bits@.len(),
            p % 8 == 0,
            r@.len() == p / 8,
            forall|j: int|
                0 <= j < r@.len() ==> r@[j] == spec_byte_of_bits(
                    bits@.subrange(8 * j, 8 * j + 8),
                ),
        decreases bits@.len() - p,
    {
        let b = collect_byte(bits, p);
        r.push(b);
        p = p + 8;
    }
    if p < bits.len() {
        let mut last: Vec<bool> = Vec::new();
        let mut q: usize = p;
        while q < bits.len()
            invariant
                p <= q <= bits@.len(),
                last@ == bits@.subrange(p as int, q as int),
            decreases bits@.len() - q,
        {
            last.push(bits[q]);
            proof {
                assert(last@ =~= bits@.subrange(p as int, q as int + 1));
            }
            q = q + 1;
        }
        proof {
            assert(last@.subrange(0, (bits@.len() - p) as int) =~= bits@.subrange(
                p as int,
                bits@.len() as int,
            ));
        }
        while last.len() < 8
            invariant
                p < bits@.len(),
                last@.subrange(0, (bits@.len() - p) as int) == bits@.subrange(
                    p as int,
                    bits@.len() as int,
                ),
                bits@.len() - p <= last@.len() <= 8,
                forall|t: int| bits@.len() - p <= t < last@.len() ==> last@[t] == false,
            decreases 8 - last@.len(),
        {
            last.push(false);
            proof {
                assert(last@.subrange(0, (bits@.len() - p) as int) =~= bits@.subrange(
                    p as int,
                    bits@.len() as int,
                ));
            }
        }
        let b = collect_byte(&last, 0);
        r.push(b);
        proof {
            let padded = spec_pad(bits@);
            assert(padded.len() == p + 8);
            assert(last@ =~= padded.subrange(p as int, p as int + 8));
            assert forall|j: int| 0 <= j < r@.len() - 1 implies r@[j] == spec_byte_of_bits(
                padded.subrange(8 * j, 8 * j + 8),
            ) by {
                assert(padded.subrange(8 * j, 8 * j + 8) =~= bits@.subrange(8 * j, 8 * j + 8));
            }
            assert(last@ =~= last@.subrange(0, 8));
            assert(r@ =~= spec_pack_bits(padded));
        }
    } else {
        proof {
            assert(spec_pad(bits@) == bits@);
            assert(r@ =~= spec_pack_bits(bits@));
        }
    }
    r
}

/// A bit sequence read sequentially, whole bytes at a time; the decoder's
/// input source.
pub struct BitSource {
    pub bits: Vec<bool>,
    pub pos: usize,
}

impl BitSource {
    /// The read position never passes the end of the bits.
    pub open spec fn wf(self) -> bool {
        self.pos <= self.bits@.len()
    }

    /// A source positioned at the start of the bit layout of `bytes`.
    pub fn from_bytes(bytes: &Vec<u8>) -> (r: BitSource)
        ensures
            r.wf(),
            r.bits@ == spec_bits_of_bytes(bytes@),
            r.pos == 0,
    {
        BitSource { bits: bytes_to_bits(bytes), pos: 0 }
    }

    /// Read exactly `n` bytes' worth of bits; fails, consuming nothing, when
    /// fewer than `8 * n` bits remain.
    pub fn read_bytes(&mut self, n: usize) -> (r: Result<Vec<u8>, ()>)
        requires
            old(self).wf(),
        ensures
            final(self).wf(),
            final(self).bits@ == old(self).bits@,
            r is Ok <==> old(self).pos + 8 * n <= old(self).bits@.len(),
            r is Ok ==> final(self).pos == old(self).pos + 8 * n && r.unwrap()@.len() == n
                && r.unwrap()@ == spec_read_bytes_at(
                old(self).bits@,
                old(self).pos as int,
                n as int,
            ),
            r is Err ==> final(self).pos == old(self).pos,
    {
        if n > (self.bits.len() - self.pos) / 8 {
            return Err(());
        }
        let pos0: usize = self.pos;
        let mut out: Vec<u8> = Vec::new();
        let mut j: usize = 0;
        while j < n
            invariant
                j <= n,
                self.bits@ == old(self).bits@,
                pos0 == old(self).pos,
                self.pos == pos0 + 8 * j,
                pos0 + 8 * n <= self.bits@.len(),
                self.bits@.len() <= usize::MAX,
                out@.len() == j,
                forall|t: int|
                    0 <= t < j ==> out@[t] == spec_byte_of_bits(
                        self.bits@.subrange(pos0 + 8 * t, pos0 + 8 * t + 8),
                    ),
            decreases n - j,
        {
            let b = collect_byte(&self.bits, self.pos);
            out.push(b);
            self.pos = self.pos + 8;
            j = j + 1;
        }
        proof {
            reveal(spec_read_bytes_at);
            let target = spec_read_bytes_at(old(self).bits@, pos0 as int, n as int);
            let whole = old(self).bits@.subrange(pos0 as int, pos0 as int + 8 * n);
            assert(target.len() == n);
            assert forall|t: int| 0 <= t < n implies out@[t] == target[t] by {
                assert(whole.subrange(8 * t, 8 * t + 8) =~= old(self).bits@.subrange(
                    pos0 + 8 * t,
                    pos0 + 8 * t + 8,
                ));
            }
            assert(out@ =~= target);
        }
        Ok(out)
    }
}

} // verus!
