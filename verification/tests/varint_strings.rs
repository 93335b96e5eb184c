//! Varint and length-prefixed string behaviour on concrete inputs.

use rbr_codec::err::DecodeError;
use rbr_codec::strings::{read_sized_string, write_sized_string, SizedString};
use rbr_codec::varint::{read_varint, write_varint};

fn encode_varint(n: u64) -> Vec<u8> {
    let mut out = Vec::new();
    write_varint(&mut out, n);
    out
}

#[test]
fn varint_single_byte_values() {
    assert_eq!(encode_varint(0), vec![0x00]);
    assert_eq!(encode_varint(1), vec![0x01]);
    assert_eq!(encode_varint(127), vec![0x7F]);
}

#[test]
fn varint_multi_byte_values() {
    assert_eq!(encode_varint(128), vec![0x80, 0x01]);
    assert_eq!(encode_varint(300), vec![0xAC, 0x02]);
    assert_eq!(encode_varint(16384), vec![0x80, 0x80, 0x01]);
}

#[test]
fn varint_u64_max_encodes_in_ten_bytes() {
    let enc = encode_varint(u64::MAX);
    assert_eq!(enc.len(), 10);
    assert_eq!(
        enc,
        vec![0xFF, 0xFF, 0xFF, 0xFF, 0xFF, 0xFF, 0xFF, 0xFF, 0xFF, 0x01]
    );
}

#[test]
fn varint_round_trip_many_values() {
    for &n in &[
        0u64,
        1,
        127,
        128,
        255,
        300,
        16383,
        16384,
        u32::MAX as u64,
        u64::MAX - 1,
        u64::MAX,
    ] {
        let enc = encode_varint(n);
        let (value, end) = read_varint(&enc, 0).expect("canonical encoding must decode");
        assert_eq!(value, n);
        assert_eq!(end, enc.len());
    }
}

#[test]
fn varint_accepts_non_minimal_encoding() {
    // 128 written with an extra zero continuation group.
    let bytes = vec![0x80, 0x81, 0x00];
    let (value, end) = read_varint(&bytes, 0).unwrap();
    assert_eq!(value, 128);
    assert_eq!(end, 3);

    // Zero padded with continuation bytes.
    let bytes = vec![0x80, 0x80, 0x00];
    let (value, _) = read_varint(&bytes, 0).unwrap();
    assert_eq!(value, 0);
}

#[test]
fn varint_errors_on_truncation() {
    let bytes: Vec<u8> = vec![];
    assert_eq!(read_varint(&bytes, 0), Err(DecodeError::MalformedVarint));
    let bytes = vec![0x80];
    assert_eq!(read_varint(&bytes, 0), Err(DecodeError::MalformedVarint));
    let bytes = vec![0xFF, 0xFF];
    assert_eq!(read_varint(&bytes, 0), Err(DecodeError::MalformedVarint));
}

#[test]
fn varint_errors_on_overflow() {
    // Eleven 0xFF-style continuation bytes push past 64 bits.
    let bytes = vec![0xFF, 0xFF, 0xFF, 0xFF, 0xFF, 0xFF, 0xFF, 0xFF, 0xFF, 0x7F];
    assert_eq!(read_varint(&bytes, 0), Err(DecodeError::MalformedVarint));
}

#[test]
fn sized_string_decodes_items() {
    // Varint length 5, then the five ASCII bytes of "Items".
    let bytes = vec![0x05, 0x49, 0x74, 0x65, 0x6D, 0x73];
    let (s, end) = read_sized_string(&bytes, 0).unwrap();
    assert_eq!(s.as_bytes().as_slice(), b"Items");
    assert_eq!(end, 6);
}

#[test]
fn sized_string_encodes_kettenkrat() {
    let s = SizedString::new(b"kettenkrat".to_vec()).unwrap();
    let mut out = Vec::new();
    write_sized_string(&mut out, &s);
    assert_eq!(
        out,
        vec![0x0A, 0x6B, 0x65, 0x74, 0x74, 0x65, 0x6E, 0x6B, 0x72, 0x61, 0x74]
    );
}

#[test]
fn sized_string_round_trip_empty_and_ascii() {
    let cases: Vec<&[u8]> = vec![b"", b"a", b"hello world", b"0123456789"];
    for case in cases {
        let s = SizedString::new(case.to_vec()).unwrap();
        let mut out = Vec::new();
        write_sized_string(&mut out, &s);
        let (back, end) = read_sized_string(&out, 0).unwrap();
        assert_eq!(back.as_bytes().as_slice(), case);
        assert_eq!(end, out.len());
    }
}

#[test]
fn sized_string_errors_on_short_input() {
    // Declared length 5 but only three bytes follow.
    let bytes = vec![0x05, 0x41, 0x42, 0x43];
    assert!(matches!(
        read_sized_string(&bytes, 0),
        Err(DecodeError::UnexpectedEof)
    ));
}

#[test]
fn sized_string_errors_on_invalid_utf8() {
    let bytes = vec![0x01, 0xFF];
    assert!(matches!(read_sized_string(&bytes, 0), Err(DecodeError::InvalidUtf8)));
    // Overlong encoding of NUL is rejected.
    let bytes = vec![0x02, 0xC0, 0x80];
    assert!(matches!(read_sized_string(&bytes, 0), Err(DecodeError::InvalidUtf8)));
    // A UTF-16 surrogate is rejected.
    let bytes = vec![0x03, 0xED, 0xA0, 0x80];
    assert!(matches!(read_sized_string(&bytes, 0), Err(DecodeError::InvalidUtf8)));
}

#[test]
fn sized_string_accepts_multibyte_utf8() {
    // "é" is C3 A9; "狐" is E7 8B 90.
    let bytes = vec![0x05, 0xC3, 0xA9, 0xE7, 0x8B, 0x90];
    let (s, end) = read_sized_string(&bytes, 0).unwrap();
    assert_eq!(end, 6);
    let mut out = Vec::new();
    write_sized_string(&mut out, &s);
    assert_eq!(out, bytes);
}

#[test]
fn sized_string_rejects_non_utf8_construction() {
    assert_eq!(
        SizedString::new(vec![0xFE, 0xFF]).unwrap_err(),
        DecodeError::InvalidUtf8
    );
}
