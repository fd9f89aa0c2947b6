use bytes::Buf;
use localwal::{
    Block, Error, Record, BLOCK_SIZE, HEADER_SIZE, R_KIND_FIRST, R_KIND_FULL, R_KIND_LAST,
    R_KIND_MIDDLE,
};

#[test]
fn test_buffer() {
    let mut buf = &b"hello world"[..];

    println!("default value: {:?}", buf);

    assert_eq!(b'h', buf.get_u8());
    assert_eq!(b'e', buf.get_u8());
    assert_eq!(b'l', buf.get_u8());

    let mut rest = [0; 8];
    buf.copy_to_slice(&mut rest);

    assert_eq!(&rest[..], &b"lo world"[..]);
}

#[test]
fn test_crc32() {
    let checksum = crc32fast::hash(b"foo bar baz");
    assert_eq!(checksum, crc32fast::hash(&b"foo bar baz"[..]));
    let rec = Record::new(R_KIND_FULL, b"foo bar baz");
    let mut input = vec![R_KIND_FULL];
    input.extend_from_slice(b"foo bar baz");
    assert_eq!(rec.crc32, crc32fast::hash(&input));
}

#[test]
fn record_header_layout() {
    let rec = Record::new(R_KIND_FULL, b"hello");
    let bytes = rec.encode();
    assert_eq!(bytes.len(), HEADER_SIZE + 5);
    assert_eq!(&bytes[0..4], &crc32fast::hash(b"\x01hello").to_le_bytes());
    assert_eq!(&bytes[4..6], &[5u8, 0u8]);
    assert_eq!(bytes[6], R_KIND_FULL);
    assert_eq!(&bytes[7..], b"hello");
}

#[test]
fn record_round_trip() {
    for payload in [&b""[..], &b"x"[..], &b"some payload bytes"[..]] {
        let rec = Record::new(R_KIND_MIDDLE, payload);
        let mut buf = vec![9u8, 9u8];
        rec.encode_into(&mut buf);
        buf.push(7);
        let back = Record::decode(&buf, 2).unwrap();
        assert_eq!(back.kind, R_KIND_MIDDLE);
        assert_eq!(back.payload, payload.to_vec());
        assert_eq!(back.size as usize, payload.len());
        assert_eq!(back.crc32, rec.crc32);
    }
}

#[test]
fn record_decode_truncated() {
    let bytes = Record::new(R_KIND_FULL, b"hello").encode();
    assert!(matches!(Record::decode(&bytes[..6], 0), Err(Error::Truncated)));
    assert!(matches!(Record::decode(&bytes[..11], 0), Err(Error::Truncated)));
    assert!(matches!(Record::decode(&bytes, 1), Err(Error::Truncated)));
    assert!(matches!(Record::decode(&bytes, 100), Err(Error::Truncated)));
}

#[test]
fn record_bit_flip_is_detected() {
    let bytes = Record::new(R_KIND_FULL, b"payload under test").encode();
    for i in HEADER_SIZE..bytes.len() {
        for bit in 0..8 {
            let mut bad = bytes.clone();
            bad[i] ^= 1 << bit;
            assert!(matches!(Record::decode(&bad, 0), Err(Error::ChecksumMismatch)));
            assert!(matches!(Block::read_payload(&bad, 0), Err(Error::ChecksumMismatch)));
        }
    }
}

#[test]
fn block_empty_payload_is_one_full_record() {
    let mut seg = Vec::new();
    Block::write_payload(&mut seg, b"");
    assert_eq!(seg.len(), HEADER_SIZE);
    assert_eq!(seg[6], R_KIND_FULL);
    let (p, end) = Block::read_payload(&seg, 0).unwrap();
    assert!(p.is_empty());
    assert_eq!(end, HEADER_SIZE);
}

#[test]
fn block_sized_payload_round_trip() {
    let payload: Vec<u8> = (0..BLOCK_SIZE).map(|i| (i % 251) as u8).collect();
    let mut seg = Vec::new();
    Block::write_payload(&mut seg, &payload);
    assert_eq!(seg[6], R_KIND_FIRST);
    assert_eq!(seg[BLOCK_SIZE + 6], R_KIND_LAST);
    assert_eq!(seg.len(), BLOCK_SIZE + HEADER_SIZE + HEADER_SIZE);
    let (p, end) = Block::read_payload(&seg, 0).unwrap();
    assert_eq!(p, payload);
    assert_eq!(end, seg.len());
}

#[test]
fn fragmentation_first_middles_last() {
    let k = 3;
    let r = 100;
    let payload: Vec<u8> = (0..k * BLOCK_SIZE + r).map(|i| (i % 253) as u8).collect();
    let mut seg = Vec::new();
    Block::write_payload(&mut seg, &payload);
    assert_eq!(seg[6], R_KIND_FIRST);
    for b in 1..k {
        assert_eq!(seg[b * BLOCK_SIZE + 6], R_KIND_MIDDLE);
    }
    assert_eq!(seg[k * BLOCK_SIZE + 6], R_KIND_LAST);
    let last_len = payload.len() - k * (BLOCK_SIZE - HEADER_SIZE);
    assert_eq!(seg.len(), k * BLOCK_SIZE + HEADER_SIZE + last_len);
    let (p, _) = Block::read_payload(&seg, 0).unwrap();
    assert_eq!(p, payload);
}

#[test]
fn padding_before_a_record_that_does_not_fit() {
    let mut seg = vec![1u8; BLOCK_SIZE - 5];
    Block::write_payload(&mut seg, b"abc");
    assert_eq!(&seg[BLOCK_SIZE - 5..BLOCK_SIZE], &[0u8; 5]);
    assert_eq!(seg[BLOCK_SIZE + 6], R_KIND_FULL);
    let (p, end) = Block::read_payload(&seg, BLOCK_SIZE - 5).unwrap();
    assert_eq!(p, b"abc".to_vec());
    assert_eq!(end, BLOCK_SIZE + HEADER_SIZE + 3);
}

#[test]
fn exactly_header_left_gives_empty_first_fragment() {
    let mut seg = vec![1u8; BLOCK_SIZE - HEADER_SIZE];
    Block::write_payload(&mut seg, b"abc");
    assert_eq!(seg[BLOCK_SIZE - 1], R_KIND_FIRST);
    assert_eq!(seg[BLOCK_SIZE + 6], R_KIND_LAST);
    let (p, _) = Block::read_payload(&seg, BLOCK_SIZE - HEADER_SIZE).unwrap();
    assert_eq!(p, b"abc".to_vec());
}

#[test]
fn framing_errors() {
    let middle = Record::new(R_KIND_MIDDLE, b"m").encode();
    assert!(matches!(Block::read_payload(&middle, 0), Err(Error::FramingError)));
    let last = Record::new(R_KIND_LAST, b"l").encode();
    assert!(matches!(Block::read_payload(&last, 0), Err(Error::FramingError)));
    let mut nested = Record::new(R_KIND_FIRST, b"a").encode();
    nested.extend(Record::new(R_KIND_FIRST, b"b").encode());
    assert!(matches!(Block::read_payload(&nested, 0), Err(Error::FramingError)));
    let mut full_inside = Record::new(R_KIND_FIRST, b"a").encode();
    full_inside.extend(Record::new(R_KIND_FULL, b"b").encode());
    assert!(matches!(Block::read_payload(&full_inside, 0), Err(Error::FramingError)));
    let unknown = Record::new(9, b"u").encode();
    assert!(matches!(Block::read_payload(&unknown, 0), Err(Error::FramingError)));
    let first_only = Record::new(R_KIND_FIRST, b"a").encode();
    assert!(matches!(Block::read_payload(&first_only, 0), Err(Error::Truncated)));
}
