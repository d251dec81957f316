use mmqp::encoding::{read_length, write_length};
use mmqp::{MmqpEncoding, MmqpError};

fn round_trip_string(len: usize) {
    let s: String = "a".repeat(len);
    let bytes = s.to_mmqp_binary().unwrap();
    assert_eq!(bytes.len(), s.mmqp_binary_size());
    let mut cursor = 0usize;
    let back = String::from_mmqp_binary(&bytes, &mut cursor).unwrap();
    assert_eq!(back, s);
    assert_eq!(cursor, bytes.len());
}

#[test]
fn string_round_trip_at_boundaries() {
    for len in [0usize, 1, 255, 256, 65535, 65536] {
        round_trip_string(len);
    }
}

#[test]
fn empty_string_is_single_zero_byte() {
    assert_eq!(String::new().to_mmqp_binary().unwrap(), vec![0u8]);
    assert_eq!(String::new().mmqp_binary_size(), 1);
}

#[test]
fn string_header_sizes() {
    assert_eq!("a".repeat(255).to_mmqp_binary().unwrap()[..2], [1u8, 255]);
    assert_eq!("a".repeat(256).to_mmqp_binary().unwrap()[..3], [2u8, 1, 0]);
    assert_eq!("a".repeat(65536).to_mmqp_binary().unwrap()[..4], [3u8, 1, 0, 0]);
    assert_eq!("a".repeat(65536).mmqp_binary_size(), 65536 + 4);
}

#[test]
fn non_ascii_string_round_trip() {
    let s = "héllo wörld ✓".to_string();
    let bytes = s.to_mmqp_binary().unwrap();
    assert_eq!(bytes[0], 1);
    assert_eq!(bytes[1] as usize, s.len());
    let mut cursor = 0usize;
    assert_eq!(String::from_mmqp_binary(&bytes, &mut cursor).unwrap(), s);
}

#[test]
fn integer_round_trip_at_boundaries() {
    let values: [u64; 9] = [
        0,
        1,
        255,
        256,
        65535,
        65536,
        (1u64 << 32) - 1,
        1u64 << 32,
        u64::MAX,
    ];
    let counts: [u8; 9] = [0, 1, 1, 2, 2, 3, 4, 5, 8];
    for (v, c) in values.iter().zip(counts.iter()) {
        let bytes = (*v as usize).to_mmqp_binary().unwrap();
        assert_eq!(bytes[0], *c);
        assert_eq!(bytes.len(), 1 + *c as usize);
        assert_eq!((*v as usize).mmqp_binary_size(), bytes.len());
        let mut cursor = 0usize;
        assert_eq!(usize::from_mmqp_binary(&bytes, &mut cursor).unwrap(), *v as usize);
        assert_eq!(cursor, bytes.len());

        let mut out = Vec::new();
        write_length(&mut out, *v);
        assert_eq!(out, bytes);
        let mut cursor = 0usize;
        assert_eq!(read_length(&out, &mut cursor), Ok(*v));
    }
}

#[test]
fn integer_exact_bytes() {
    assert_eq!(300usize.to_mmqp_binary().unwrap(), vec![2u8, 1, 44]);
    assert_eq!(0usize.to_mmqp_binary().unwrap(), vec![0u8]);
    assert_eq!(
        (u64::MAX as usize).to_mmqp_binary().unwrap(),
        vec![8u8, 255, 255, 255, 255, 255, 255, 255, 255]
    );
}

#[test]
fn non_minimal_integer_is_accepted() {
    let bytes = vec![3u8, 0, 0, 5];
    let mut cursor = 0usize;
    assert_eq!(usize::from_mmqp_binary(&bytes, &mut cursor), Ok(5));
    assert_eq!(cursor, 4);
}

#[test]
fn raw_field_payloads() {
    let mut cursor = 0usize;
    assert_eq!(usize::raw(&[2u8, 1, 44], &mut cursor), Ok(vec![1u8, 44]));
    assert_eq!(cursor, 3);
    let bytes = "abc".to_string().to_mmqp_binary().unwrap();
    let mut cursor = 0usize;
    assert_eq!(String::raw(&bytes, &mut cursor), Ok(b"abc".to_vec()));
    assert_eq!(cursor, 5);
}

#[test]
fn truncated_inputs_are_refused() {
    let mut cursor = 0usize;
    assert_eq!(usize::from_mmqp_binary(&[], &mut cursor), Err(MmqpError::TruncatedMessage));
    assert_eq!(usize::from_mmqp_binary(&[2u8, 1], &mut cursor), Err(MmqpError::TruncatedMessage));
    assert_eq!(cursor, 0);
    let mut bytes = "hello".to_string().to_mmqp_binary().unwrap();
    bytes.pop();
    assert_eq!(String::from_mmqp_binary(&bytes, &mut cursor), Err(MmqpError::TruncatedMessage));
    assert_eq!(cursor, 0);
}

#[test]
fn bad_count_byte_is_refused() {
    let mut cursor = 0usize;
    let bytes = [9u8, 0, 0, 0, 0, 0, 0, 0, 0, 1];
    assert_eq!(usize::from_mmqp_binary(&bytes, &mut cursor), Err(MmqpError::InvalidEncoding));
    assert_eq!(String::from_mmqp_binary(&bytes, &mut cursor), Err(MmqpError::InvalidEncoding));
}

#[test]
fn invalid_utf8_is_refused() {
    let bytes = [1u8, 2, 0xC3, 0x28];
    let mut cursor = 0usize;
    assert_eq!(String::from_mmqp_binary(&bytes, &mut cursor), Err(MmqpError::InvalidEncoding));
    assert_eq!(cursor, 0);
}
