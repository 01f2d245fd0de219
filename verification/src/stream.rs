//! The stream layer: the container format around independently compressed
//! blocks.
//!
//! Encoding chunks the input into blocks of at most `BLOCK_CAPACITY` bytes,
//! scatters the chunks round-robin over a pool of workers, gathers every
//! round's results in fixed worker order (so output order is dispatch order,
//! whatever each worker's speed), folds the per-block checksums into one
//! stream checksum, and writes header, blocks, and footer.
//!
//! Decoding is a sequential state machine: validate the four-byte header
//! once, then repeatedly read a six-byte marker deciding between "another
//! block" and "end of stream"; any other marker is a fatal format error.

use vstd::prelude::*;

use crate::bits::bits_to_bytes;
use crate::bits::bytes_to_bits;
use crate::bits::lemma_bits_of_bytes_concat;
use crate::bits::lemma_pack_unpack;
use crate::bits::lemma_read_aligned;
use crate::bits::lemma_u32_bytes_roundtrip;
use crate::bits::spec_bits_of_bytes;
use crate::bits::spec_pad;
use crate::bits::spec_read_bytes_at;
use crate::bits::spec_u32_bytes;
use crate::bits::write_bits;
use crate::bits::BitSource;
use crate::block::decode_block;
use crate::block::spec_block_bytes;
use crate::block::spec_block_crc;
use crate::block::spec_block_magic;
use crate::block::spec_footer_magic;
use crate::block::spec_parse_block_body;
use crate::block::BLOCK_CAPACITY;
use crate::checksum::spec_combine;
use crate::checksum::spec_combine_all;
use crate::worker::WorkerThread;

verus! {

/// The four header bytes: the three-byte signature and one version byte.
pub open spec fn spec_header_bytes() -> Seq<u8> {
    seq![0x42u8, 0x5au8, 0x68u8, 0x39u8]
}

/// The footer, as bytes: the stream-end magic and the combined checksum.
pub open spec fn spec_footer_bytes(crc: u32) -> Seq<u8> {
    spec_footer_magic() + spec_u32_bytes(crc)
}

/// How many bytes the next block takes from a remainder of `n` bytes.
pub open spec fn spec_chunk_len(n: int) -> int {
    if n <= BLOCK_CAPACITY {
        n
    } else {
        BLOCK_CAPACITY as int
    }
}

/// The input split into blocks: all of capacity size except a shorter last
/// one; every block holds at least one byte; an empty input has no blocks.
pub open spec fn spec_chunks(s: Seq<u8>) -> Seq<Seq<u8>>
    decreases s.len(),
{
    if s.len() == 0 {
        Seq::empty()
    } else {
        seq![s.take(spec_chunk_len(s.len() as int))] + spec_chunks(
            s.skip(spec_chunk_len(s.len() as int)),
        )
    }
}

/// The byte run of a run of compressed blocks, in order.
pub open spec fn spec_blocks_bytes(chunks: Seq<Seq<u8>>) -> Seq<u8>
    decreases chunks.len(),
{
    if chunks.len() == 0 {
        Seq::empty()
    } else {
        spec_block_bytes(chunks[0]) + spec_blocks_bytes(chunks.skip(1))
    }
}

/// The stream checksum: every block's checksum folded in, in block order.
pub open spec fn spec_stream_crc(chunks: Seq<Seq<u8>>, acc: u32) -> u32
    decreases chunks.len(),
{
    if chunks.len() == 0 {
        acc
    } else {
        spec_stream_crc(chunks.skip(1), spec_combine(acc, spec_block_crc(chunks[0])))
    }
}

/// The whole encoded stream, as bytes: header, blocks, footer.
pub open spec fn spec_stream_bytes(input: Seq<u8>) -> Seq<u8> {
    spec_header_bytes() + spec_blocks_bytes(spec_chunks(input)) + spec_footer_bytes(
        spec_stream_crc(spec_chunks(input), 0),
    )
}

/// Splitting a run of blocks splits its byte run.
pub proof fn lemma_blocks_bytes_concat(a: Seq<Seq<u8>>, b: Seq<Seq<u8>>)
    ensures
        spec_blocks_bytes(a + b) == spec_blocks_bytes(a) + spec_blocks_bytes(b),
    decreases a.len(),
{
    if a.len() == 0 {
        assert(a + b =~= b);
        assert(Seq::<u8>::empty() + spec_blocks_bytes(b) =~= spec_blocks_bytes(b));
    } else {
        assert((a + b)[0] == a[0]);
        assert((a + b).skip(1) =~= a.skip(1) + b);
        lemma_blocks_bytes_concat(a.skip(1), b);
        assert(spec_block_bytes(a[0]) + (spec_blocks_bytes(a.skip(1)) + spec_blocks_bytes(b)) =~= (
        spec_block_bytes(a[0]) + spec_blocks_bytes(a.skip(1))) + spec_blocks_bytes(b));
    }
}

/// The stream checksum of a split run folds the first part first.
pub proof fn lemma_stream_crc_concat(a: Seq<Seq<u8>>, b: Seq<Seq<u8>>, acc: u32)
    ensures
        spec_stream_crc(a + b, acc) == spec_stream_crc(b, spec_stream_crc(a, acc)),
    decreases a.len(),
{
    if a.len() == 0 {
        assert(a + b =~= b);
    } else {
        assert((a + b)[0] == a[0]);
        assert((a + b).skip(1) =~= a.skip(1) + b);
        lemma_stream_crc_concat(a.skip(1), b, spec_combine(acc, spec_block_crc(a[0])));
    }
}

/// The stream checksum is exactly the fold of the blocks' checksums with the
/// combination step, in block order.
pub proof fn lemma_stream_crc_is_fold(chunks: Seq<Seq<u8>>, acc: u32)
    ensures
        spec_stream_crc(chunks, acc) == spec_combine_all(
            chunks.map_values(|c: Seq<u8>| spec_block_crc(c)),
            acc,
        ),
    decreases chunks.len(),
{
    let crcs = chunks.map_values(|c: Seq<u8>| spec_block_crc(c));
    if chunks.len() == 0 {
    } else {
        lemma_stream_crc_is_fold(chunks.skip(1), spec_combine(acc, spec_block_crc(chunks[0])));
        assert(crcs.skip(1) =~= chunks.skip(1).map_values(|c: Seq<u8>| spec_block_crc(c)));
        assert(crcs[0] == spec_block_crc(chunks[0]));
    }
}

/// The header bits written before any block.
pub fn file_header() -> (r: Vec<bool>)
    ensures
        r@ == spec_bits_of_bytes(spec_header_bytes()),
{
    let mut hb: Vec<u8> = Vec::new();
    hb.push(0x42u8);
    hb.push(0x5au8);
    hb.push(0x68u8);
    hb.push(0x39u8);
    proof {
        assert(hb@ =~= spec_header_bytes());
    }
    bytes_to_bits(&hb)
}

/// The footer bits: stream-end magic and combined checksum.
pub fn stream_footer(total_crc: u32) -> (r: Vec<bool>)
    ensures
        r@ == spec_bits_of_bytes(spec_footer_bytes(total_crc)),
{
    let mut fb: Vec<u8> = Vec::new();
    fb.push(0x17);
    fb.push(0x72);
    fb.push(0x45);
    fb.push(0x38);
    fb.push(0x50);
    fb.push(0x90);
    fb.push(((total_crc >> 24) & 0xff) as u8);
    fb.push(((total_crc >> 16) & 0xff) as u8);
    fb.push(((total_crc >> 8) & 0xff) as u8);
    fb.push((total_crc & 0xff) as u8);
    proof {
        assert(fb@ =~= spec_footer_bytes(total_crc));
    }
    bytes_to_bits(&fb)
}

/// Copy the next block's bytes out of the input, starting at `p`: the full
/// capacity, or whatever remains when less.
pub fn take_chunk(input: &Vec<u8>, p: usize) -> (r: Vec<u8>)
    requires
        p < input@.len(),
    ensures
        r@ == input@.skip(p as int).take(spec_chunk_len(input@.len() - p)),
        r@.len() == spec_chunk_len(input@.len() - p),
        1 <= r@.len() <= BLOCK_CAPACITY,
{
    let rem: usize = input.len() - p;
    let c: usize = if rem < BLOCK_CAPACITY {
        rem
    } else {
        BLOCK_CAPACITY
    };
    let mut r: Vec<u8> = Vec::new();
    let mut k: usize = 0;
    proof {
        assert(r@ =~= input@.subrange(p as int, p as int));
    }
    while k < c
        invariant
            k <= c,
            c == spec_chunk_len(input@.len() - p),
            p + c <= input@.len(),
            input@.len() <= usize::MAX,
            r@ == input@.subrange(p as int, p as int + k),
        decreases c - k,
    {
        r.push(input[p + k]);
        proof {
            assert(r@ =~= input@.subrange(p as int, p as int + k + 1));
        }
        k = k + 1;
    }
    proof {
        assert(input@.skip(p as int).take(c as int) =~= input@.subrange(p as int, p as int + c));
    }
    r
}

/// The input split into blocks, as owned vectors, in order.
pub fn chunk_input(input: &Vec<u8>) -> (r: Vec<Vec<u8>>)
    ensures
        r@.map_values(|c: Vec<u8>| c@) == spec_chunks(input@),
{
    let mut r: Vec<Vec<u8>> = Vec::new();
    let mut p: usize = 0;
    proof {
        assert(input@.skip(0) =~= input@);
        assert(r@.map_values(|c: Vec<u8>| c@) + spec_chunks(input@) =~= spec_chunks(input@));
    }
    while p < input.len()
        invariant
            p <= input@.len(),
            r@.map_values(|c: Vec<u8>| c@) + spec_chunks(input@.skip(p as int)) == spec_chunks(
                input@,
            ),
        decreases input@.len() - p,
    {
        let chunk = take_chunk(input, p);
        let c: usize = chunk.len();
        proof {
            let rem = input@.skip(p as int);
            let views = r@.map_values(|cv: Vec<u8>| cv@);
            assert(rem.len() == input@.len() - p);
            assert(chunk@ == rem.take(spec_chunk_len(rem.len() as int)));
            assert(rem.skip(spec_chunk_len(rem.len() as int)) =~= input@.skip(p as int + c));
            assert(views + (seq![chunk@] + spec_chunks(input@.skip(p as int + c))) =~= (views
                + seq![chunk@]) + spec_chunks(input@.skip(p as int + c)));
            assert(views.push(chunk@) =~= views + seq![chunk@]);
        }
        r.push(chunk);
        proof {
            assert(r@.map_values(|cv: Vec<u8>| cv@) =~= r@.drop_last().map_values(
                |cv: Vec<u8>| cv@,
            ).push(r@.last()@));
        }
        p = p + c;
    }
    proof {
        assert(input@.skip(input@.len() as int) =~= Seq::<u8>::empty());
        assert(r@.map_values(|c: Vec<u8>| c@) + Seq::<Seq<u8>>::empty() =~= r@.map_values(
            |c: Vec<u8>| c@,
        ));
    }
    r
}

/// Encode the whole input: write the header, split the input into blocks,
/// scatter them round-robin over `num_threads` workers round by round,
/// gather every round's results in fixed worker order, and close with the
/// footer carrying the combined checksum.  The output depends on the input
/// alone: the worker count never changes the bytes produced.
pub fn write_stream_data(input: &Vec<u8>, num_threads: usize) -> (r: Vec<u8>)
    requires
        num_threads >= 1,
    ensures
        r@ == spec_stream_bytes(input@),
{
    let mut bit_writer: Vec<bool> = file_header();
    let ghost mut written: Seq<u8> = spec_header_bytes();
    let mut total_crc: u32 = 0;
    let ghost all = spec_chunks(input@);
    let ghost mut done: Seq<Seq<u8>> = Seq::empty();

    let mut worker_threads: Vec<WorkerThread> = Vec::new();
    let mut t: usize = 0;
    while t < num_threads
        invariant
            t <= num_threads,
            worker_threads@.len() == t,
            forall|j: int| 0 <= j < t ==> worker_threads@[j].idle(),
        decreases num_threads - t,
    {
        worker_threads.push(WorkerThread::spawn(t));
        t = t + 1;
    }

    let mut p: usize = 0;
    let mut finalize: bool = false;
    proof {
        assert(input@.skip(0) =~= input@);
        assert(done + all =~= all);
    }
    while !finalize
        invariant
            num_threads >= 1,
            worker_threads@.len() == num_threads,
            forall|j: int| 0 <= j < num_threads ==> worker_threads@[j].idle(),
            p <= input@.len(),
            finalize ==> p == input@.len(),
            all == spec_chunks(input@),
            bit_writer@ == spec_bits_of_bytes(written),
            written == spec_header_bytes() + spec_blocks_bytes(done),
            total_crc == spec_stream_crc(done, 0),
            all == done + spec_chunks(input@.skip(p as int)),
        decreases input@.len() - p + (if finalize { 0int } else { 1int }),
    {
        let ghost p0 = p;
        let ghost mut sent: Seq<Seq<u8>> = Seq::empty();
        let mut i: usize = 0;
        proof {
            assert(done + sent + spec_chunks(input@.skip(p as int)) =~= done + spec_chunks(
                input@.skip(p as int),
            ));
        }
        while i < num_threads && !finalize
            invariant
                num_threads >= 1,
                i <= num_threads,
                worker_threads@.len() == num_threads,
                sent.len() == i,
                forall|j: int| 0 <= j < i ==> worker_threads@[j].holds_result_for(sent[j]),
                forall|j: int| i <= j < num_threads ==> worker_threads@[j].idle(),
                p <= input@.len(),
                p0 <= p,
                p - p0 >= i,
                finalize ==> p == input@.len(),
                all == spec_chunks(input@),
                bit_writer@ == spec_bits_of_bytes(written),
                written == spec_header_bytes() + spec_blocks_bytes(done),
                total_crc == spec_stream_crc(done, 0),
                all == done + sent + spec_chunks(input@.skip(p as int)),
            decreases num_threads - i + (if finalize { 0int } else { 1int }),
        {
            if p < input.len() {
                let work = take_chunk(input, p);
                let c: usize = work.len();
                proof {
                    let rem = input@.skip(p as int);
                    assert(rem.len() == input@.len() - p);
                    assert(work@ == rem.take(spec_chunk_len(rem.len() as int)));
                    assert(rem.skip(spec_chunk_len(rem.len() as int)) =~= input@.skip(
                        p as int + c,
                    ));
                    assert(done + sent.push(work@) + spec_chunks(input@.skip(p as int + c)) =~= done
                        + sent + spec_chunks(input@.skip(p as int)));
                }
                let ghost ws0 = worker_threads@;
                let mut w = worker_threads.remove(i);
                w.send_work(work);
                worker_threads.insert(i, w);
                proof {
                    assert(worker_threads@ =~= ws0.update(i as int, w));
                    sent = sent.push(work@);
                }
                p = p + c;
                i = i + 1;
            } else {
                finalize = true;
            }
        }
        let ghost sentlen = sent.len();
        let mut gj: usize = 0;
        while gj < num_threads
            invariant
                num_threads >= 1,
                gj <= num_threads,
                worker_threads@.len() == num_threads,
                sentlen == sent.len() <= num_threads,
                forall|j: int|
                    gj <= j < sentlen ==> worker_threads@[j].holds_result_for(sent[j]),
                forall|j: int|
                    (0 <= j < gj || sentlen <= j < num_threads) && 0 <= j < num_threads
                        ==> worker_threads@[j].idle(),
                p <= input@.len(),
                finalize ==> p == input@.len(),
                !finalize ==> p - p0 >= num_threads,
                p0 <= p,
                all == spec_chunks(input@),
                bit_writer@ == spec_bits_of_bytes(written),
                written == spec_header_bytes() + spec_blocks_bytes(done),
                total_crc == spec_stream_crc(done, 0),
                all == done + sent.skip(if gj <= sentlen {
                    gj as int
                } else {
                    sentlen as int
                }) + spec_chunks(input@.skip(p as int)),
            decreases num_threads - gj,
        {
            let ghost ws0 = worker_threads@;
            let mut w = worker_threads.remove(gj);
            proof {
                assert(w == ws0[gj as int]);
                if (gj as int) < sentlen {
                    assert(ws0[gj as int].holds_result_for(sent[gj as int]));
                } else {
                    assert(ws0[gj as int].idle());
                }
            }
            if w.pending {
                proof {
                    assert(gj < sentlen);
                }
                let ghost written0 = written;
                let ghost total0 = total_crc;
                w.flush_work_buffer(&mut bit_writer, &mut total_crc);
                proof {
                    let ck = sent[gj as int];
                    let single = seq![ck];
                    let nil = Seq::<Seq<u8>>::empty();
                    lemma_bits_of_bytes_concat(written0, spec_block_bytes(ck));
                    written = written0 + spec_block_bytes(ck);
                    assert(bit_writer@ == spec_bits_of_bytes(written));
                    lemma_blocks_bytes_concat(done, single);
                    assert(single.skip(1) =~= nil);
                    assert(spec_blocks_bytes(nil) == Seq::<u8>::empty());
                    assert(spec_blocks_bytes(single) == spec_block_bytes(single[0])
                        + spec_blocks_bytes(single.skip(1)));
                    assert(spec_block_bytes(ck) + Seq::<u8>::empty() =~= spec_block_bytes(ck));
                    assert((spec_header_bytes() + spec_blocks_bytes(done)) + spec_block_bytes(ck)
                        =~= spec_header_bytes() + (spec_blocks_bytes(done) + spec_block_bytes(
                        ck,
                    )));
                    lemma_stream_crc_concat(done, single, 0);
                    assert(spec_stream_crc(nil, spec_combine(total0, spec_block_crc(ck)))
                        == spec_combine(total0, spec_block_crc(ck)));
                    assert(spec_stream_crc(single, total0) == spec_stream_crc(
                        single.skip(1),
                        spec_combine(total0, spec_block_crc(single[0])),
                    ));
                    assert(total_crc == spec_stream_crc(done + single, 0));
                    assert(done.push(ck) =~= done + single);
                    assert(sent.skip(gj as int) =~= single + sent.skip(gj as int + 1));
                    assert(done + single + sent.skip(gj as int + 1) =~= done + sent.skip(
                        gj as int,
                    ));
                    assert((done + single + sent.skip(gj as int + 1)) + spec_chunks(
                        input@.skip(p as int),
                    ) =~= (done + sent.skip(gj as int)) + spec_chunks(input@.skip(p as int)));
                    done = done.push(ck);
                }
            }
            worker_threads.insert(gj, w);
            proof {
                assert(worker_threads@ =~= ws0.update(gj as int, w));
            }
            gj = gj + 1;
        }
        proof {
            assert(sent.skip(sentlen as int) =~= Seq::<Seq<u8>>::empty());
            assert(done + Seq::<Seq<u8>>::empty() + spec_chunks(input@.skip(p as int)) =~= done
                + spec_chunks(input@.skip(p as int)));
        }
    }
    proof {
        assert(input@.skip(input@.len() as int) =~= Seq::<u8>::empty());
        assert(done + Seq::<Seq<u8>>::empty() =~= done);
        assert(done =~= all);
    }
    let footer_bits = stream_footer(total_crc);
    write_bits(&mut bit_writer, &footer_bits);
    proof {
        lemma_bits_of_bytes_concat(written, spec_footer_bytes(total_crc));
        written = written + spec_footer_bytes(total_crc);
        assert(written =~= spec_stream_bytes(input@));
    }
    let r = bits_to_bytes(&bit_writer);
    proof {
        assert(bit_writer@.len() == written.len() * 8);
        assert(spec_pad(bit_writer@) == bit_writer@);
        lemma_pack_unpack(written);
    }
    r
}

/// The decoder's decision after a six-byte marker: another block follows, or
/// the stream ends here.
#[derive(Debug, PartialEq, Eq, Structural)]
pub enum BlockType {
    StreamFooter,
    BlockHeader,
}

/// The header is present at `pos`: the three signature bytes, then any
/// version byte.
pub open spec fn spec_header_ok(bits: Seq<bool>, pos: int) -> bool {
    &&& 0 <= pos
    &&& pos + 32 <= bits.len()
    &&& spec_read_bytes_at(bits, pos, 4)[0] == 0x42u8
    &&& spec_read_bytes_at(bits, pos, 4)[1] == 0x5au8
    &&& spec_read_bytes_at(bits, pos, 4)[2] == 0x68u8
}

/// The six bytes at `pos` are exactly `magic`.
pub open spec fn spec_marker_is(bits: Seq<bool>, pos: int, magic: Seq<u8>) -> bool {
    &&& 0 <= pos
    &&& pos + 48 <= bits.len()
    &&& spec_read_bytes_at(bits, pos, 6) == magic
}

/// What parsing the run of blocks from `pos` yields: the concatenated
/// decoded payloads and the position just past the stream-end magic, or
/// nothing on any format violation.
pub open spec fn spec_parse_blocks(bits: Seq<bool>, pos: int) -> Option<(Seq<u8>, int)>
    decreases bits.len() - pos,
{
    if pos < 0 || pos + 48 > bits.len() {
        None
    } else if spec_read_bytes_at(bits, pos, 6) == spec_footer_magic() {
        Some((Seq::empty(), pos + 48))
    } else if spec_read_bytes_at(bits, pos, 6) == spec_block_magic() {
        match spec_parse_block_body(bits, pos + 48) {
            Some(pr) => match spec_parse_blocks(bits, pr.1) {
                Some(rest) => Some((pr.0 + rest.0, rest.1)),
                None => None,
            },
            None => None,
        }
    } else {
        None
    }
}

/// What decoding a whole stream from `pos` yields: header, then blocks.
pub open spec fn spec_decode_from(bits: Seq<bool>, pos: int) -> Option<(Seq<u8>, int)> {
    if spec_header_ok(bits, pos) {
        spec_parse_blocks(bits, pos + 32)
    } else {
        None
    }
}

/// The payloads of a run of blocks, joined back together in order.
pub open spec fn spec_concat_chunks(chunks: Seq<Seq<u8>>) -> Seq<u8>
    decreases chunks.len(),
{
    if chunks.len() == 0 {
        Seq::empty()
    } else {
        chunks[0] + spec_concat_chunks(chunks.skip(1))
    }
}

/// Chunking loses nothing: the chunks joined in order are the input.
pub proof fn lemma_chunks_concat(s: Seq<u8>)
    ensures
        spec_concat_chunks(spec_chunks(s)) == s,
    decreases s.len(),
{
    if s.len() == 0 {
        assert(spec_concat_chunks(spec_chunks(s)) =~= s);
    } else {
        let c = spec_chunk_len(s.len() as int);
        lemma_chunks_concat(s.skip(c));
        assert(spec_chunks(s)[0] == s.take(c));
        assert(spec_chunks(s).skip(1) =~= spec_chunks(s.skip(c)));
        assert(s.take(c) + s.skip(c) =~= s);
    }
}

/// Every chunk holds at least one byte and at most the block capacity.
pub proof fn lemma_chunks_bounds(s: Seq<u8>)
    ensures
        forall|j: int|
            0 <= j < spec_chunks(s).len() ==> 1 <= (#[trigger] spec_chunks(s)[j]).len()
                <= BLOCK_CAPACITY,
    decreases s.len(),
{
    if s.len() == 0 {
    } else {
        let c = spec_chunk_len(s.len() as int);
        lemma_chunks_bounds(s.skip(c));
        assert forall|j: int| 0 <= j < spec_chunks(s).len() implies 1 <= (
        #[trigger] spec_chunks(s)[j]).len() <= BLOCK_CAPACITY by {
            if j == 0 {
                assert(spec_chunks(s)[0] == s.take(c));
            } else {
                assert(spec_chunks(s)[j] == spec_chunks(s.skip(c))[j - 1]);
            }
        }
    }
}

/// Where the pieces of one block lie inside `pre + block + tail`, read from
/// the bit layout.
#[verifier::rlimit(100)]
proof fn lemma_block_layout(pre: Seq<u8>, c0: Seq<u8>, tail: Seq<u8>)
    ensures
        ({
            let s2 = pre + spec_block_bytes(c0) + tail;
            let bits = spec_bits_of_bytes(s2);
            let pos = 8 * pre.len() as int;
            &&& s2.len() == pre.len() + 10 + c0.len() + tail.len()
            &&& bits.len() == 8 * s2.len()
            &&& spec_read_bytes_at(bits, pos, 6) == spec_block_magic()
            &&& spec_read_bytes_at(bits, pos + 48, 4) == spec_u32_bytes(c0.len() as u32)
            &&& spec_read_bytes_at(bits, pos + 80, c0.len() as int) == c0
        }),
{
    let s2 = pre + spec_block_bytes(c0) + tail;
    assert(spec_block_bytes(c0).len() == 10 + c0.len());
    assert(s2.subrange(pre.len() as int, pre.len() as int + 6) =~= spec_block_magic());
    assert(s2.subrange(pre.len() as int + 6, pre.len() as int + 10) =~= spec_u32_bytes(
        c0.len() as u32,
    ));
    assert(s2.subrange(pre.len() as int + 10, pre.len() as int + 10 + c0.len() as int) =~= c0);
    lemma_read_aligned(s2, pre.len() as int, 6);
    lemma_read_aligned(s2, pre.len() as int + 6, 4);
    lemma_read_aligned(s2, pre.len() as int + 10, c0.len() as int);
}

/// Parsing at the end of the blocks, where the stream-end magic stands,
/// stops there with nothing more decoded.
#[verifier::rlimit(100)]
proof fn lemma_parse_stream_nil(pre: Seq<u8>, crc: u32)
    ensures
        spec_parse_blocks(spec_bits_of_bytes(pre + spec_footer_bytes(crc)), 8 * pre.len() as int)
            == Some((Seq::<u8>::empty(), 8 * pre.len() as int + 48)),
{
    let s = pre + spec_footer_bytes(crc);
    let bits = spec_bits_of_bytes(s);
    let pos = 8 * pre.len() as int;
    assert(spec_footer_bytes(crc).len() == 10);
    assert(s.len() == pre.len() + 10);
    lemma_read_aligned(s, pre.len() as int, 6);
    assert(s.subrange(pre.len() as int, pre.len() as int + 6) =~= spec_footer_magic());
    assert(spec_parse_blocks(bits, pos) == Some((Seq::<u8>::empty(), pos + 48)));
}

/// The body of the block after its magic parses to exactly its payload.
#[verifier::rlimit(100)]
proof fn lemma_parse_body_at(pre: Seq<u8>, c0: Seq<u8>, tail: Seq<u8>)
    requires
        1 <= c0.len() <= BLOCK_CAPACITY,
    ensures
        spec_parse_block_body(
            spec_bits_of_bytes(pre + spec_block_bytes(c0) + tail),
            8 * pre.len() as int + 48,
        ) == Some((c0, 8 * pre.len() as int + 80 + 8 * c0.len())),
{
    let s = pre + spec_block_bytes(c0) + tail;
    let bits = spec_bits_of_bytes(s);
    let pos = 8 * pre.len() as int;
    lemma_block_layout(pre, c0, tail);
    lemma_u32_bytes_roundtrip(c0.len() as u32);
    assert(spec_parse_block_body(bits, pos + 48) == Some((c0, pos + 80 + 8 * c0.len())));
}

/// One parsing step: a block at the front of the run decodes to its payload,
/// and parsing carries on just past it.
#[verifier::rlimit(100)]
proof fn lemma_parse_stream_cons(pre: Seq<u8>, c0: Seq<u8>, tail: Seq<u8>, rest0: Seq<u8>, end: int)
    requires
        1 <= c0.len() <= BLOCK_CAPACITY,
        spec_parse_blocks(
            spec_bits_of_bytes(pre + spec_block_bytes(c0) + tail),
            8 * (pre.len() + 10 + c0.len()) as int,
        ) == Some((rest0, end)),
    ensures
        spec_parse_blocks(spec_bits_of_bytes(pre + spec_block_bytes(c0) + tail), 8 * pre.len() as int)
            == Some((c0 + rest0, end)),
{
    let s = pre + spec_block_bytes(c0) + tail;
    let bits = spec_bits_of_bytes(s);
    let pos = 8 * pre.len() as int;
    lemma_block_layout(pre, c0, tail);
    assert(spec_block_magic()[0] != spec_footer_magic()[0]);
    lemma_parse_body_at(pre, c0, tail);
    assert(8 * (pre.len() + 10 + c0.len()) as int == pos + 80 + 8 * c0.len());
    assert(spec_parse_blocks(bits, pos) == Some((c0 + rest0, end)));
}

/// Parsing a well-formed run of blocks followed by the footer, from just
/// past a prefix, yields exactly the joined payloads and stops just past the
/// stream-end magic.
#[verifier::rlimit(100)]
pub proof fn lemma_parse_stream(pre: Seq<u8>, chunks: Seq<Seq<u8>>, crc: u32)
    requires
        forall|j: int|
            0 <= j < chunks.len() ==> 1 <= (#[trigger] chunks[j]).len() <= BLOCK_CAPACITY,
    ensures
        spec_parse_blocks(
            spec_bits_of_bytes(pre + spec_blocks_bytes(chunks) + spec_footer_bytes(crc)),
            8 * pre.len() as int,
        ) == Some(
            (
                spec_concat_chunks(chunks),
                8 * (pre.len() + spec_blocks_bytes(chunks).len() + 6) as int,
            ),
        ),
    decreases chunks.len(),
{
    let s = pre + spec_blocks_bytes(chunks) + spec_footer_bytes(crc);
    assert(spec_footer_bytes(crc).len() == 10);
    if chunks.len() == 0 {
        assert(spec_blocks_bytes(chunks) == Seq::<u8>::empty());
        assert(s =~= pre + spec_footer_bytes(crc));
        lemma_parse_stream_nil(pre, crc);
        assert(spec_concat_chunks(chunks) =~= Seq::<u8>::empty());
    } else {
        let c0 = chunks[0];
        let rest = chunks.skip(1);
        let pre2 = pre + spec_block_bytes(c0);
        let tail = spec_blocks_bytes(rest) + spec_footer_bytes(crc);
        assert(1 <= c0.len() <= BLOCK_CAPACITY);
        assert(spec_blocks_bytes(chunks) == spec_block_bytes(c0) + spec_blocks_bytes(rest));
        assert(spec_block_bytes(c0).len() == 10 + c0.len());
        assert(pre + spec_block_bytes(c0) + tail =~= s);
        assert(pre2 + spec_blocks_bytes(rest) + spec_footer_bytes(crc) =~= s);
        assert forall|j: int| 0 <= j < rest.len() implies 1 <= (#[trigger] rest[j]).len()
            <= BLOCK_CAPACITY by {
            assert(rest[j] == chunks[j + 1]);
        }
        lemma_parse_stream(pre2, rest, crc);
        assert(pre2.len() == pre.len() + 10 + c0.len());
        lemma_parse_stream_cons(
            pre,
            c0,
            tail,
            spec_concat_chunks(rest),
            8 * (pre2.len() + spec_blocks_bytes(rest).len() + 6) as int,
        );
        assert(8 * (pre2.len() + spec_blocks_bytes(rest).len() + 6) as int == 8 * (pre.len()
            + spec_blocks_bytes(chunks).len() + 6) as int);
        assert(c0 + spec_concat_chunks(rest) == spec_concat_chunks(chunks));
    }
}

/// Round trip: decoding an encoded stream succeeds and yields exactly the
/// original input, whatever the input and however many workers encoded it.
pub proof fn lemma_round_trip(input: Seq<u8>)
    ensures
        spec_decode_from(spec_bits_of_bytes(spec_stream_bytes(input)), 0) is Some,
        spec_decode_from(spec_bits_of_bytes(spec_stream_bytes(input)), 0).unwrap().0 == input,
{
    let s = spec_stream_bytes(input);
    let bits = spec_bits_of_bytes(s);
    let chunks = spec_chunks(input);
    let crc = spec_stream_crc(chunks, 0);
    assert(s.len() >= 14);
    lemma_read_aligned(s, 0, 4);
    assert(s.subrange(0, 4) =~= spec_header_bytes());
    assert(spec_header_ok(bits, 0));
    lemma_chunks_bounds(input);
    lemma_parse_stream(spec_header_bytes(), chunks, crc);
    lemma_chunks_concat(input);
}

/// Validate the four-byte header: the fixed three-byte signature followed by
/// one arbitrary version byte.  Anything else is a fatal format error.
pub fn read_file_header(src: &mut BitSource) -> (r: Result<(), ()>)
    requires
        old(src).wf(),
    ensures
        final(src).wf(),
        final(src).bits@ == old(src).bits@,
        r is Ok <==> spec_header_ok(old(src).bits@, old(src).pos as int),
        r is Ok ==> final(src).pos == old(src).pos + 32,
        r is Err && old(src).pos + 32 <= old(src).bits@.len() ==> final(src).pos == old(src).pos
            + 32,
        r is Err && old(src).pos + 32 > old(src).bits@.len() ==> final(src).pos == old(src).pos,
{
    let res = match src.read_bytes(4) {
        Ok(v) => v,
        Err(_) => {
            return Err(());
        },
    };
    if res[0] == 0x42u8 && res[1] == 0x5au8 && res[2] == 0x68u8 {
        Ok(())
    } else {
        Err(())
    }
}

/// Read a six-byte marker and decide what follows: the block-start magic
/// announces a block, the stream-end magic the footer; any other six bytes
/// are a fatal format error.
pub fn what_next(src: &mut BitSource) -> (r: Result<BlockType, ()>)
    requires
        old(src).wf(),
    ensures
        final(src).wf(),
        final(src).bits@ == old(src).bits@,
        r == Ok::<BlockType, ()>(BlockType::BlockHeader) <==> spec_marker_is(
            old(src).bits@,
            old(src).pos as int,
            spec_block_magic(),
        ),
        r == Ok::<BlockType, ()>(BlockType::StreamFooter) <==> spec_marker_is(
            old(src).bits@,
            old(src).pos as int,
            spec_footer_magic(),
        ),
        r is Ok ==> final(src).pos == old(src).pos + 48,
        r is Err && old(src).pos + 48 <= old(src).bits@.len() ==> final(src).pos == old(src).pos
            + 48,
        r is Err && old(src).pos + 48 > old(src).bits@.len() ==> final(src).pos == old(src).pos,
{
    let res = match src.read_bytes(6) {
        Ok(v) => v,
        Err(_) => {
            return Err(());
        },
    };
    if res[0] == 0x31 && res[1] == 0x41 && res[2] == 0x59 && res[3] == 0x26 && res[4] == 0x53
        && res[5] == 0x59 {
        proof {
            assert(res@ =~= spec_block_magic());
        }
        Ok(BlockType::BlockHeader)
    } else if res[0] == 0x17 && res[1] == 0x72 && res[2] == 0x45 && res[3] == 0x38 && res[4]
        == 0x50 && res[5] == 0x90 {
        proof {
            assert(res@ =~= spec_footer_magic());
        }
        Ok(BlockType::StreamFooter)
    } else {
        proof {
            assert(res@ != spec_block_magic());
            assert(res@ != spec_footer_magic());
        }
        Err(())
    }
}

/// Decode a whole stream: validate the header, then loop on markers,
/// delegating each announced block to the block decoder and appending its
/// payload to `out`; stop at the stream-end magic.  Every format violation
/// aborts immediately.  Past the stream-end magic nothing is read.
pub fn write_stream(src: &mut BitSource, out: &mut Vec<u8>) -> (r: Result<(), ()>)
    requires
        old(src).wf(),
    ensures
        final(src).wf(),
        final(src).bits@ == old(src).bits@,
        r is Ok <==> spec_decode_from(old(src).bits@, old(src).pos as int) is Some,
        r is Ok ==> final(out)@ == old(out)@ + spec_decode_from(
            old(src).bits@,
            old(src).pos as int,
        ).unwrap().0 && final(src).pos == spec_decode_from(
            old(src).bits@,
            old(src).pos as int,
        ).unwrap().1,
{
    let ghost target = spec_decode_from(old(src).bits@, old(src).pos as int);
    match read_file_header(src) {
        Ok(_) => {},
        Err(_) => {
            return Err(());
        },
    }
    loop
        invariant
            src.wf(),
            src.bits@ == old(src).bits@,
            target == spec_decode_from(old(src).bits@, old(src).pos as int),
            (spec_parse_blocks(src.bits@, src.pos as int) is Some) <==> (target is Some),
            target is Some ==> spec_parse_blocks(src.bits@, src.pos as int) is Some && out@
                + spec_parse_blocks(src.bits@, src.pos as int).unwrap().0 == old(out)@
                + target.unwrap().0 && spec_parse_blocks(src.bits@, src.pos as int).unwrap().1
                == target.unwrap().1,
        decreases src.bits@.len() - src.pos,
    {
        let ghost pos_marker = src.pos as int;
        match what_next(src) {
            Err(_) => {
                proof {
                    let bb = src.bits@;
                    assert(!spec_marker_is(bb, pos_marker, spec_block_magic()));
                    assert(!spec_marker_is(bb, pos_marker, spec_footer_magic()));
                    assert(spec_parse_blocks(bb, pos_marker) is None);
                }
                return Err(());
            },
            Ok(BlockType::StreamFooter) => {
                proof {
                    let bb = src.bits@;
                    assert(spec_parse_blocks(bb, pos_marker) == Some(
                        (Seq::<u8>::empty(), pos_marker + 48),
                    ));
                    assert(out@ + Seq::<u8>::empty() =~= out@);
                }
                return Ok(());
            },
            Ok(BlockType::BlockHeader) => {
                proof {
                    let bb = src.bits@;
                    assert(spec_block_magic()[0] == 0x31u8 && spec_footer_magic()[0] == 0x17u8);
                    assert(spec_read_bytes_at(bb, pos_marker, 6) != spec_footer_magic());
                }
                match decode_block(src, out) {
                    Err(_) => {
                        return Err(());
                    },
                    Ok(_) => {
                        proof {
                            let bb = src.bits@;
                            assert(spec_block_magic()[0] != spec_footer_magic()[0]);
                            assert(spec_read_bytes_at(bb, pos_marker, 6) != spec_footer_magic());
                            let pr = spec_parse_block_body(bb, pos_marker + 48).unwrap();
                            if target is Some {
                                let rest = spec_parse_blocks(bb, pr.1).unwrap();
                                let prev = out@.subrange(0, out@.len() - pr.0.len() as int);
                                assert(out@ + rest.0 =~= old(out)@ + target.unwrap().0) by {
                                    assert(out@ + rest.0 =~= (prev + pr.0) + rest.0);
                                    assert((prev + pr.0) + rest.0 =~= prev + (pr.0 + rest.0));
                                }
                            }
                        }
                    },
                }
            },
        }
    }
}

} // verus!
