//! Tagged-value dispatch and event-data records on concrete inputs.

use rbr_codec::err::DecodeError;
use rbr_codec::events::{read_event, read_event_data, write_event, write_event_data, Event,
    EventData};
use rbr_codec::record::{read_value, write_value, ArrayValue, EventDataType};
use rbr_codec::strings::SizedString;

fn sized(text: &[u8]) -> SizedString {
    SizedString::new(text.to_vec()).unwrap()
}

fn round_trip_value(v: &EventDataType, tag: u8) -> EventDataType {
    let mut out = Vec::new();
    write_value(&mut out, v);
    let (back, end) = read_value(&out, 0, tag).unwrap();
    assert_eq!(end, out.len());
    back
}

#[test]
fn value_u32_decodes_little_endian() {
    let bytes = vec![0x78, 0x56, 0x34, 0x12];
    let (v, end) = read_value(&bytes, 0, 0x01).unwrap();
    assert_eq!(end, 4);
    assert!(matches!(v, EventDataType::U32(0x12345678)));
}

#[test]
fn value_u128_decodes_little_endian() {
    let mut bytes = vec![0u8; 16];
    bytes[0] = 0x01;
    bytes[15] = 0x80;
    let (v, _) = read_value(&bytes, 0, 0x02).unwrap();
    assert!(matches!(v, EventDataType::U128(x) if x == (0x80u128 << 120) | 1));
}

#[test]
fn value_string_variants_follow_tag() {
    let bytes = vec![0x02, 0x68, 0x69];
    let (v, _) = read_value(&bytes, 0, 0x03).unwrap();
    assert!(matches!(v, EventDataType::Text(s) if s.as_bytes().as_slice() == b"hi"));
    let (v, _) = read_value(&bytes, 0, 0x04).unwrap();
    assert!(matches!(v, EventDataType::VariableName(s) if s.as_bytes().as_slice() == b"hi"));
    let (v, _) = read_value(&bytes, 0, 0x05).unwrap();
    assert!(matches!(v, EventDataType::SwitchName(s) if s.as_bytes().as_slice() == b"hi"));
}

#[test]
fn value_position_round_trips() {
    let v = EventDataType::Position {
        value: 7,
        data: 9,
        data2: 3,
        x: 0x3F800000, // 1.0f32 bit pattern
        y: 0x40000000, // 2.0f32
        z: 0xC0400000, // -3.0f32
    };
    let mut out = Vec::new();
    write_value(&mut out, &v);
    assert_eq!(out.len(), 33);
    let back = round_trip_value(&v, 0x06);
    assert!(
        matches!(back, EventDataType::Position { value: 7, data: 9, data2: 3, x: 0x3F800000, y: 0x40000000, z: 0xC0400000 })
    );
}

#[test]
fn value_float_round_trips_bit_pattern() {
    let bits = 0x41200000u32; // 10.0f32
    let back = round_trip_value(&EventDataType::Float(bits), 0x08);
    assert!(matches!(back, EventDataType::Float(b) if b == bits));
}

#[test]
fn value_unknown_tag_is_an_error() {
    let bytes = vec![0x00, 0x00, 0x00, 0x00];
    for tag in [0x00u8, 0x09, 0x20, 0xFF] {
        assert!(matches!(
            read_value(&bytes, 0, tag),
            Err(DecodeError::UnknownTagCode)
        ));
    }
}

#[test]
fn value_truncated_input_is_eof() {
    let bytes = vec![0x01, 0x02];
    assert!(matches!(
        read_value(&bytes, 0, 0x01),
        Err(DecodeError::UnexpectedEof)
    ));
    assert!(matches!(
        read_value(&bytes, 0, 0x06),
        Err(DecodeError::UnexpectedEof)
    ));
}

#[test]
fn array_payload_follows_array_type() {
    for (array_type, value) in [
        (1u32, ArrayValue::U32(5)),
        (2, ArrayValue::U128(6)),
        (3, ArrayValue::Str(sized(b"abc"))),
        (4, ArrayValue::Str(sized(b"def"))),
        (5, ArrayValue::Str(sized(b"ghi"))),
        (0xFF, ArrayValue::U32(8)),
        (7, ArrayValue::Absent),
        (0, ArrayValue::Absent),
    ] {
        let v = EventDataType::Array {
            array_name: sized(b"arr"),
            array_type,
            value,
        };
        let back = round_trip_value(&v, 0x07);
        match back {
            EventDataType::Array {
                array_name,
                array_type: at,
                value: av,
            } => {
                assert_eq!(array_name.as_bytes().as_slice(), b"arr");
                assert_eq!(at, array_type);
                match (array_type, av) {
                    (1, ArrayValue::U32(5)) => {}
                    (2, ArrayValue::U128(6)) => {}
                    (3, ArrayValue::Str(s)) => assert_eq!(s.as_bytes().as_slice(), b"abc"),
                    (4, ArrayValue::Str(s)) => assert_eq!(s.as_bytes().as_slice(), b"def"),
                    (5, ArrayValue::Str(s)) => assert_eq!(s.as_bytes().as_slice(), b"ghi"),
                    (0xFF, ArrayValue::U32(8)) => {}
                    (7, ArrayValue::Absent) => {}
                    (0, ArrayValue::Absent) => {}
                    other => panic!("wrong payload decoded: type {:?}", other.0),
                }
            }
            _ => panic!("array did not decode as an array"),
        }
    }
}

#[test]
fn event_data_pairs_each_tag_with_one_value() {
    // Tags 01 and 08, terminator, a u32 and a float payload.
    let bytes = vec![
        0x01, 0x08, 0x00, // tag list and terminator
        0x2A, 0x00, 0x00, 0x00, // u32 42
        0x00, 0x00, 0x80, 0x3F, // 1.0f32 bits
    ];
    let (record, end) = read_event_data(&bytes, 0).unwrap();
    assert_eq!(end, bytes.len());
    assert_eq!(record.data, vec![0x01, 0x08]);
    assert_eq!(record.data.len(), record.variables.len());
    assert!(record.data.iter().all(|&t| t != 0));
    assert!(matches!(record.variables[0], EventDataType::U32(42)));
    assert!(matches!(record.variables[1], EventDataType::Float(0x3F800000)));
}

#[test]
fn event_data_empty_tag_list_has_no_values() {
    let bytes = vec![0x00];
    let (record, end) = read_event_data(&bytes, 0).unwrap();
    assert_eq!(end, 1);
    assert!(record.data.is_empty());
    assert!(record.variables.is_empty());
}

#[test]
fn event_data_re_encodes_stored_tag_bytes() {
    let bytes = vec![0x01, 0x03, 0x00, 0x07, 0x00, 0x00, 0x00, 0x02, 0x68, 0x69];
    let (record, _) = read_event_data(&bytes, 0).unwrap();
    let mut out = Vec::new();
    write_event_data(&mut out, &record);
    assert_eq!(out, bytes);
}

#[test]
fn event_data_missing_terminator_is_eof() {
    let bytes = vec![0x01, 0x08];
    assert!(matches!(
        read_event_data(&bytes, 0),
        Err(DecodeError::UnexpectedEof)
    ));
}

#[test]
fn event_data_bad_tag_aborts_record() {
    let bytes = vec![0x09, 0x00, 0x01, 0x02, 0x03, 0x04];
    assert!(matches!(
        read_event_data(&bytes, 0),
        Err(DecodeError::UnknownTagCode)
    ));
}

#[test]
fn event_round_trips_with_type_and_depth() {
    let event = Event {
        event_type: 11,
        nest_depth: 2,
        event_data: EventData {
            data: vec![0x01],
            variables: vec![EventDataType::U32(99)],
        },
    };
    let mut out = Vec::new();
    write_event(&mut out, &event);
    let (back, end) = read_event(&out, 0).unwrap();
    assert_eq!(end, out.len());
    assert_eq!(back.event_type, 11);
    assert_eq!(back.nest_depth, 2);
    assert_eq!(back.event_data.data, vec![0x01]);
    assert!(matches!(back.event_data.variables[0], EventDataType::U32(99)));
}
