use bzstream::bits::BitSource;
use bzstream::stream::read_file_header;
use bzstream::stream::what_next;
use bzstream::stream::BlockType;

#[test]
pub fn accepts_correct_header() {
    let input = b"BZh9".to_vec();
    let mut bit_reader = BitSource::from_bytes(&input);
    let read = read_file_header(&mut bit_reader);
    assert!(read.is_ok());
}

#[test]
pub fn detects_block_header() {
    let data = vec![0x31u8, 0x41u8, 0x59u8, 0x26u8, 0x53u8, 0x59u8];
    let mut bit_reader = BitSource::from_bytes(&data);

    assert_eq!(BlockType::BlockHeader, what_next(&mut bit_reader).unwrap());
}

#[test]
pub fn detects_stream_footer() {
    let data = vec![0x17, 0x72, 0x45, 0x38, 0x50, 0x90];
    let mut bit_reader = BitSource::from_bytes(&data);

    assert_eq!(BlockType::StreamFooter, what_next(&mut bit_reader).unwrap());
}

#[test]
pub fn detects_error() {
    let data = vec![0, 1, 2, 3, 4, 5];
    let mut bit_reader = BitSource::from_bytes(&data);

    assert!(what_next(&mut bit_reader).is_err());
}

#[test]
fn any_version_byte_accepted() {
    let input = vec![0x42, 0x5a, 0x68, 0x00];
    let mut src = BitSource::from_bytes(&input);
    assert!(read_file_header(&mut src).is_ok());
}

#[test]
fn altered_signature_rejected() {
    for i in 0..3 {
        let mut input = b"BZh9".to_vec();
        input[i] ^= 0xff;
        let mut src = BitSource::from_bytes(&input);
        assert!(read_file_header(&mut src).is_err());
    }
}

#[test]
fn short_header_rejected() {
    let input = vec![0x42, 0x5a];
    let mut src = BitSource::from_bytes(&input);
    assert!(read_file_header(&mut src).is_err());
}

#[test]
fn marker_decision_ignores_what_follows() {
    let mut data = vec![0x31u8, 0x41, 0x59, 0x26, 0x53, 0x59];
    data.extend_from_slice(&[0xde, 0xad, 0xbe, 0xef]);
    let mut src = BitSource::from_bytes(&data);
    assert_eq!(BlockType::BlockHeader, what_next(&mut src).unwrap());

    let mut data = vec![0x17u8, 0x72, 0x45, 0x38, 0x50, 0x90];
    data.extend_from_slice(&[1, 2, 3]);
    let mut src = BitSource::from_bytes(&data);
    assert_eq!(BlockType::StreamFooter, what_next(&mut src).unwrap());

    let mut data = vec![9u8, 9, 9, 9, 9, 9];
    data.extend_from_slice(&[0x31, 0x41, 0x59, 0x26, 0x53, 0x59]);
    let mut src = BitSource::from_bytes(&data);
    assert!(what_next(&mut src).is_err());
}
