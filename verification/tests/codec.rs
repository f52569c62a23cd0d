use btc_header_chain::bytes::{be_le, bytes_eq, copy_bytes};
use btc_header_chain::header_info::HeaderInfo;
use btc_header_chain::wire::{put_varint, take_varint};

fn sample() -> HeaderInfo {
    HeaderInfo { header: vec![1, 2], hash: vec![3], height: 300, work: b"7".to_vec() }
}

/// The bytes that the field encoders of `prost` give for a header.
fn by_prost(info: &HeaderInfo) -> Vec<u8> {
    let mut buf: Vec<u8> = Vec::new();
    if !info.header.is_empty() {
        prost::encoding::bytes::encode(1, &info.header, &mut buf);
    }
    if !info.hash.is_empty() {
        prost::encoding::bytes::encode(2, &info.hash, &mut buf);
    }
    if info.height != 0 {
        prost::encoding::uint64::encode(3, &info.height, &mut buf);
    }
    if !info.work.is_empty() {
        prost::encoding::bytes::encode(4, &info.work, &mut buf);
    }
    buf
}

#[test]
fn encode_gives_the_fields_in_order() {
    assert_eq!(
        sample().encode(),
        vec![0x0a, 0x02, 0x01, 0x02, 0x12, 0x01, 0x03, 0x18, 0xac, 0x02, 0x22, 0x01, 0x37]
    );
}

#[test]
fn encode_leaves_out_what_is_empty_or_zero() {
    let empty = HeaderInfo { header: vec![], hash: vec![], height: 0, work: vec![] };
    assert_eq!(empty.encode(), Vec::<u8>::new());
    let only_hash = HeaderInfo { header: vec![], hash: vec![9], height: 0, work: vec![] };
    assert_eq!(only_hash.encode(), vec![0x12, 0x01, 0x09]);
    let only_height = HeaderInfo { header: vec![], hash: vec![], height: 1, work: vec![] };
    assert_eq!(only_height.encode(), vec![0x18, 0x01]);
}

#[test]
fn encode_agrees_with_prost() {
    let cases = vec![
        sample(),
        HeaderInfo { header: vec![], hash: vec![], height: 0, work: vec![] },
        HeaderInfo { header: vec![0xab; 80], hash: vec![0xcd; 32], height: u64::MAX, work: b"1234567890".to_vec() },
        HeaderInfo { header: vec![7; 200], hash: vec![], height: 127, work: vec![0; 20000] },
        HeaderInfo { header: vec![], hash: vec![1; 128], height: 128, work: vec![] },
    ];
    for info in cases {
        assert_eq!(info.encode(), by_prost(&info));
    }
}

#[test]
fn decode_reads_back_what_encode_wrote() {
    let cases = vec![
        sample(),
        HeaderInfo { header: vec![], hash: vec![], height: 0, work: vec![] },
        HeaderInfo { header: vec![0xab; 80], hash: vec![0xcd; 32], height: u64::MAX, work: b"1234567890".to_vec() },
        HeaderInfo { header: vec![7; 200], hash: vec![], height: 127, work: vec![0; 20000] },
        HeaderInfo { header: vec![0x12, 0x18, 0x22, 0x0a], hash: vec![0x0a], height: 0x0a, work: vec![0x22] },
    ];
    for info in cases {
        assert_eq!(HeaderInfo::decode(&info.encode()), Some(info.clone()));
        assert_eq!(info.copy(), info);
    }
}

#[test]
fn decode_refuses_what_encode_never_writes() {
    // something after the fields
    assert_eq!(HeaderInfo::decode(&[0x0a, 0x01, 0x05, 0x00]), None);
    // a field that is there and empty
    assert_eq!(HeaderInfo::decode(&[0x0a, 0x00]), None);
    assert_eq!(HeaderInfo::decode(&[0x18, 0x00]), None);
    // fields out of order
    assert_eq!(HeaderInfo::decode(&[0x12, 0x01, 0x03, 0x0a, 0x01, 0x01]), None);
    // a field twice
    assert_eq!(HeaderInfo::decode(&[0x0a, 0x01, 0x03, 0x0a, 0x01, 0x01]), None);
    // a field that runs past the end
    assert_eq!(HeaderInfo::decode(&[0x0a, 0x03, 0x01, 0x02]), None);
    assert_eq!(HeaderInfo::decode(&[0x0a]), None);
    assert_eq!(HeaderInfo::decode(&[0x18, 0x80]), None);
    // a number in a longer spelling
    assert_eq!(HeaderInfo::decode(&[0x18, 0x81, 0x00]), None);
    assert_eq!(HeaderInfo::decode(&[0x0a, 0x81, 0x00, 0x05]), None);
    // a number past 64 bits
    assert_eq!(
        HeaderInfo::decode(&[0x18, 0xff, 0xff, 0xff, 0xff, 0xff, 0xff, 0xff, 0xff, 0xff, 0x02]),
        None
    );
    // an unknown key
    assert_eq!(HeaderInfo::decode(&[0x28, 0x01]), None);
}

#[test]
fn decode_reads_the_largest_height() {
    let bytes = [0x18, 0xff, 0xff, 0xff, 0xff, 0xff, 0xff, 0xff, 0xff, 0xff, 0x01];
    assert_eq!(
        HeaderInfo::decode(&bytes),
        Some(HeaderInfo { header: vec![], hash: vec![], height: u64::MAX, work: vec![] })
    );
}

#[test]
fn varint_examples() {
    let cases: Vec<(u64, Vec<u8>)> = vec![
        (0, vec![0x00]),
        (1, vec![0x01]),
        (127, vec![0x7f]),
        (128, vec![0x80, 0x01]),
        (300, vec![0xac, 0x02]),
        (16384, vec![0x80, 0x80, 0x01]),
        (u64::MAX, vec![0xff, 0xff, 0xff, 0xff, 0xff, 0xff, 0xff, 0xff, 0xff, 0x01]),
    ];
    for (n, bytes) in cases {
        let mut out = vec![0xee];
        put_varint(&mut out, n);
        assert_eq!(out[0], 0xee);
        assert_eq!(&out[1..], bytes.as_slice());
        assert_eq!(take_varint(&out, 1), Some((n, out.len())));
        out.push(0x55);
        assert_eq!(take_varint(&out, 1), Some((n, out.len() - 1)));
    }
}

#[test]
fn take_varint_refuses() {
    assert_eq!(take_varint(&[], 0), None);
    assert_eq!(take_varint(&[0x01], 1), None);
    assert_eq!(take_varint(&[0x01], 2), None);
    assert_eq!(take_varint(&[0x80], 0), None);
    assert_eq!(take_varint(&[0x80, 0x00], 0), None);
    assert_eq!(take_varint(&[0x80, 0x80, 0x00], 0), None);
    assert_eq!(take_varint(&[0xff, 0xff, 0xff, 0xff, 0xff, 0xff, 0xff, 0xff, 0xff, 0x02], 0), None);
    assert_eq!(take_varint(&[0x80; 11], 0), None);
    assert_eq!(take_varint(&[0x80, 0x80, 0x80, 0x80, 0x80, 0x80, 0x80, 0x80, 0x80, 0x80, 0x01], 0), None);
}

#[test]
fn bytes_are_compared_as_numbers() {
    let number = |high: u8, low: u8| {
        let mut bytes = [0u8; 32];
        bytes[0] = high;
        bytes[31] = low;
        bytes
    };
    assert!(be_le(&number(0, 1), &number(0, 1)));
    assert!(be_le(&number(0, 1), &number(0, 2)));
    assert!(!be_le(&number(0, 2), &number(0, 1)));
    assert!(be_le(&number(0, 255), &number(1, 0)));
    assert!(!be_le(&number(1, 0), &number(0, 255)));
    assert!(be_le(&[0; 32], &[0; 32]));
    assert!(be_le(&[0xff; 32], &[0xff; 32]));
    assert!(!be_le(&[0xff; 32], &number(0xff, 0)));
}

#[test]
fn bytes_are_compared_and_copied() {
    assert!(bytes_eq(&[1, 2, 3], &[1, 2, 3]));
    assert!(!bytes_eq(&[1, 2, 3], &[1, 2]));
    assert!(!bytes_eq(&[1, 2, 3], &[1, 2, 4]));
    assert!(bytes_eq(&[], &[]));
    assert_eq!(copy_bytes(&[9, 8]), vec![9, 8]);
}
