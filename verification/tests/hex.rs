//! Hex rendering of byte blobs and 128-bit integers.

use rbr_codec::err::DecodeError;
use rbr_codec::hexcodec::{bytes_to_hex, hex_to_bytes, hex_to_u128, u128_to_hex};

#[test]
fn bytes_render_as_lowercase_pairs() {
    assert_eq!(bytes_to_hex(&vec![]), Vec::<u8>::new());
    assert_eq!(bytes_to_hex(&vec![0x00]), b"00".to_vec());
    assert_eq!(bytes_to_hex(&vec![0xDE, 0xAD, 0xBE, 0xEF]), b"deadbeef".to_vec());
    assert_eq!(bytes_to_hex(&vec![0x0F, 0xF0]), b"0ff0".to_vec());
}

#[test]
fn hex_parses_either_case() {
    assert_eq!(hex_to_bytes(&b"deadbeef".to_vec()).unwrap(), vec![0xDE, 0xAD, 0xBE, 0xEF]);
    assert_eq!(hex_to_bytes(&b"DEADBEEF".to_vec()).unwrap(), vec![0xDE, 0xAD, 0xBE, 0xEF]);
    assert_eq!(hex_to_bytes(&b"".to_vec()).unwrap(), Vec::<u8>::new());
}

#[test]
fn hex_rejects_odd_length_and_bad_digits() {
    assert!(matches!(
        hex_to_bytes(&b"abc".to_vec()),
        Err(DecodeError::TextDocumentMismatch)
    ));
    assert!(matches!(
        hex_to_bytes(&b"zz".to_vec()),
        Err(DecodeError::TextDocumentMismatch)
    ));
    assert!(matches!(
        hex_to_bytes(&b"a ".to_vec()),
        Err(DecodeError::TextDocumentMismatch)
    ));
}

#[test]
fn hex_round_trips_bytes() {
    let original = vec![0x00, 0x01, 0x7F, 0x80, 0xFF, 0x5A];
    let rendered = bytes_to_hex(&original);
    assert_eq!(rendered.len(), 2 * original.len());
    assert_eq!(hex_to_bytes(&rendered).unwrap(), original);
}

#[test]
fn u128_renders_as_32_zero_padded_digits() {
    assert_eq!(u128_to_hex(0), b"00000000000000000000000000000000".to_vec());
    assert_eq!(u128_to_hex(0x1234), b"00000000000000000000000000001234".to_vec());
    assert_eq!(
        u128_to_hex(u128::MAX),
        b"ffffffffffffffffffffffffffffffff".to_vec()
    );
}

#[test]
fn u128_parses_most_significant_digit_first() {
    assert_eq!(
        hex_to_u128(&b"00000000000000000000000000001234".to_vec()).unwrap(),
        0x1234
    );
    assert_eq!(
        hex_to_u128(&b"80000000000000000000000000000001".to_vec()).unwrap(),
        (1u128 << 127) | 1
    );
}

#[test]
fn u128_round_trips() {
    for &v in &[0u128, 1, 0xDEADBEEF, u64::MAX as u128 + 1, u128::MAX] {
        let rendered = u128_to_hex(v);
        assert_eq!(rendered.len(), 32);
        assert_eq!(hex_to_u128(&rendered).unwrap(), v);
    }
}

#[test]
fn u128_rejects_wrong_length_and_bad_digits() {
    assert!(matches!(
        hex_to_u128(&b"1234".to_vec()),
        Err(DecodeError::TextDocumentMismatch)
    ));
    assert!(matches!(
        hex_to_u128(&b"0000000000000000000000000000123g".to_vec()),
        Err(DecodeError::TextDocumentMismatch)
    ));
}
