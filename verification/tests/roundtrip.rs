use bzstream::bits::bits_to_bytes;
use bzstream::bits::bytes_to_bits;
use bzstream::bits::BitSource;
use bzstream::block::decode_block;
use bzstream::block::generate_block_data;
use bzstream::block::BLOCK_CAPACITY;
use bzstream::checksum::combine_crc;
use bzstream::stream::chunk_input;
use bzstream::stream::write_stream;
use bzstream::stream::write_stream_data;
use bzstream::worker::WorkerThread;

fn decode_all(encoded: &Vec<u8>) -> Result<Vec<u8>, ()> {
    let mut src = BitSource::from_bytes(encoded);
    let mut out: Vec<u8> = Vec::new();
    write_stream(&mut src, &mut out)?;
    Ok(out)
}

#[test]
fn round_trip_empty() {
    for k in [1usize, 2, 4, 8] {
        let input: Vec<u8> = Vec::new();
        let encoded = write_stream_data(&input, k);
        assert_eq!(decode_all(&encoded).unwrap(), input);
    }
}

#[test]
fn round_trip_small() {
    let input: Vec<u8> = (0..2048u32).map(|i| (i * 7 + 13) as u8).collect();
    for k in [1usize, 2, 4, 8] {
        let encoded = write_stream_data(&input, k);
        assert_eq!(decode_all(&encoded).unwrap(), input);
    }
}

#[test]
fn encode_independent_of_worker_count() {
    let input: Vec<u8> = (0..5000u32).map(|i| (i % 251) as u8).collect();
    let one = write_stream_data(&input, 1);
    for k in [2usize, 3, 8] {
        assert_eq!(one, write_stream_data(&input, k));
    }
}

#[test]
fn checksum_combination_hand_computed() {
    // One block: the fold of a single checksum from zero is the checksum.
    assert_eq!(combine_crc(0, 0xdead_beef), 0xdead_beef);
    // Two blocks: c2 xor rotate-left-1 of c1.
    let acc1 = combine_crc(0, 1);
    assert_eq!(acc1, 1);
    let acc2 = combine_crc(acc1, 2);
    assert_eq!(acc2, 0); // 2 ^ 2
    // Three blocks.
    let acc3 = combine_crc(acc2, 5);
    assert_eq!(acc3, 5);
    // The rotate wraps the top bit around to the bottom.
    assert_eq!(combine_crc(0x8000_0000, 0), 1);
}

#[test]
fn footer_carries_combined_checksum() {
    // Two blocks, so the combination step is exercised.
    let input = vec![7u8; BLOCK_CAPACITY + 1];
    let chunks = chunk_input(&input);
    assert_eq!(chunks.len(), 2);
    let mut expected: u32 = 0;
    for c in &chunks {
        let (_, crc) = generate_block_data(c);
        expected = combine_crc(expected, crc);
    }
    let encoded = write_stream_data(&input, 2);
    let n = encoded.len();
    let footer_crc = ((encoded[n - 4] as u32) << 24)
        | ((encoded[n - 3] as u32) << 16)
        | ((encoded[n - 2] as u32) << 8)
        | (encoded[n - 1] as u32);
    assert_eq!(footer_crc, expected);
}

#[test]
fn chunking_boundary() {
    let exact = vec![0u8; BLOCK_CAPACITY];
    let chunks = chunk_input(&exact);
    assert_eq!(chunks.len(), 1);
    assert_eq!(chunks[0].len(), BLOCK_CAPACITY);

    let over = vec![0u8; BLOCK_CAPACITY + 1];
    let chunks = chunk_input(&over);
    assert_eq!(chunks.len(), 2);
    assert_eq!(chunks[0].len(), BLOCK_CAPACITY);
    assert_eq!(chunks[1].len(), 1);
}

#[test]
fn worker_is_stateless_between_blocks() {
    let b1 = vec![1u8, 2, 3];
    let b2 = vec![9u8, 8, 7, 6];
    let mut w = WorkerThread::spawn(0);

    let mut bits1: Vec<bool> = Vec::new();
    let mut crc1: u32 = 0;
    w.send_work(b1.clone());
    w.flush_work_buffer(&mut bits1, &mut crc1);

    let mut bits2: Vec<bool> = Vec::new();
    let mut crc2: u32 = 0;
    w.send_work(b2.clone());
    w.flush_work_buffer(&mut bits2, &mut crc2);

    let (exp_bits1, exp_crc1) = generate_block_data(&b1);
    let (exp_bits2, exp_crc2) = generate_block_data(&b2);
    assert_eq!(bits1, exp_bits1);
    assert_eq!(crc1, combine_crc(0, exp_crc1));
    assert_eq!(bits2, exp_bits2);
    assert_eq!(crc2, combine_crc(0, exp_crc2));
}

#[test]
fn end_to_end_three_blocks() {
    let input = vec![0u8; 1_500_000];
    let chunks = chunk_input(&input);
    assert_eq!(chunks.len(), 3);
    assert_eq!(chunks[0].len(), 720_000);
    assert_eq!(chunks[1].len(), 720_000);
    assert_eq!(chunks[2].len(), 60_000);

    let encoded = write_stream_data(&input, 3);
    // Header first, then the first block's start magic.
    assert_eq!(&encoded[0..4], &b"BZh9"[..]);
    assert_eq!(&encoded[4..10], &[0x31u8, 0x41, 0x59, 0x26, 0x53, 0x59][..]);
    assert_eq!(decode_all(&encoded).unwrap(), input);
}

#[test]
fn altered_header_decodes_nothing() {
    let input = vec![3u8; 500];
    for i in 0..3 {
        let mut encoded = write_stream_data(&input, 1);
        encoded[i] ^= 0x01;
        assert!(decode_all(&encoded).is_err());
    }
}

#[test]
fn multi_round_single_worker() {
    // Three blocks through one worker: several scatter/gather rounds.
    let input = vec![1u8; 1_500_000];
    let encoded = write_stream_data(&input, 1);
    assert_eq!(decode_all(&encoded).unwrap(), input);
    // The same bytes as with one block per worker in a single round.
    assert_eq!(encoded, write_stream_data(&input, 3));
}

#[test]
fn decode_rejects_zero_length_block_body() {
    let body = vec![0u8, 0, 0, 0];
    let mut src = BitSource::from_bytes(&body);
    let mut out: Vec<u8> = Vec::new();
    assert!(decode_block(&mut src, &mut out).is_err());
    assert!(out.is_empty());
}

#[test]
fn decode_rejects_oversized_block_body() {
    // Announced length is one past the block capacity.
    let body = vec![0x00u8, 0x0a, 0xfc, 0x81];
    let mut src = BitSource::from_bytes(&body);
    let mut out: Vec<u8> = Vec::new();
    assert!(decode_block(&mut src, &mut out).is_err());
}

#[test]
fn decode_rejects_truncated_stream() {
    let input = vec![5u8; 100];
    let mut encoded = write_stream_data(&input, 1);
    encoded.truncate(encoded.len() - 8);
    assert!(decode_all(&encoded).is_err());
}

#[test]
fn decode_rejects_garbage_after_header() {
    let bytes = vec![0x42u8, 0x5a, 0x68, 0x39, 1, 2, 3, 4, 5, 6];
    assert!(decode_all(&bytes).is_err());
}

#[test]
fn bit_packing_round_trip_and_padding() {
    let bytes: Vec<u8> = (0..=255u32).map(|b| b as u8).collect();
    let bits = bytes_to_bits(&bytes);
    assert_eq!(bits.len(), 8 * bytes.len());
    assert_eq!(bits_to_bytes(&bits), bytes);

    // A partial byte is padded with zero bits, high bits first.
    let three = vec![true, false, true];
    assert_eq!(bits_to_bytes(&three), vec![0b1010_0000]);
}
