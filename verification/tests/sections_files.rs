//! Section framing, payload dispatch, and whole-file round trips.

use rbr_codec::container::{read_file, read_header, write_file, RbrFile, RbrHeader};
use rbr_codec::err::DecodeError;
use rbr_codec::events::{Event, EventData};
use rbr_codec::record::EventDataType;
use rbr_codec::section::{
    read_section, write_section, Section, SectionData, CODE_ENTITY_HEADER, CODE_EVENT_SHEET,
    CODE_ITEM_DATA,
};
use rbr_codec::strings::SizedString;

fn sized(text: &[u8]) -> SizedString {
    SizedString::new(text.to_vec()).unwrap()
}

/// A frame around `content`: little-endian length over the opaque value and
/// everything after it, then the big-endian type code, then 16 opaque
/// bytes, then the content.
fn frame(code: u16, opaque: [u8; 16], content: &[u8], declared_extra: i64) -> Vec<u8> {
    let length = (16 + content.len() as i64 + declared_extra) as u32;
    let mut out = Vec::new();
    out.extend_from_slice(&length.to_le_bytes());
    out.extend_from_slice(&code.to_be_bytes());
    out.extend_from_slice(&opaque);
    out.extend_from_slice(content);
    out
}

#[test]
fn item_data_section_decodes_every_field() {
    // name "A", note "b", a 128-bit value, one byte, description "cd", a u32.
    let mut content = Vec::new();
    content.extend_from_slice(&[0x01, 0x41]); // name
    content.extend_from_slice(&[0x01, 0x62]); // note
    let mut opaque_value = [0u8; 16];
    opaque_value[0] = 0x2A;
    content.extend_from_slice(&opaque_value); // data: 42
    content.push(0x07); // data2
    content.extend_from_slice(&[0x02, 0x63, 0x64]); // description
    content.extend_from_slice(&[0x0D, 0x00, 0x00, 0x00]); // data3: 13
    let bytes = frame(CODE_ITEM_DATA, [0x11; 16], &content, 0);

    let (section, end) = read_section(&bytes, 0).unwrap();
    assert_eq!(end, bytes.len());
    assert_eq!(section.section_type, CODE_ITEM_DATA);
    assert_eq!(section.data, u128::from_le_bytes([0x11; 16]));
    assert!(section.unparsed_bytes.is_empty());
    match &section.section_data {
        SectionData::ItemData {
            name,
            note,
            data,
            data2,
            description,
            data3,
        } => {
            assert_eq!(name.as_bytes().as_slice(), b"A");
            assert_eq!(note.as_bytes().as_slice(), b"b");
            assert_eq!(*data, 42u128);
            assert_eq!(*data2, 0x07);
            assert_eq!(description.as_bytes().as_slice(), b"cd");
            assert_eq!(*data3, 13);
        }
        _ => panic!("expected an item-data payload"),
    }
}

#[test]
fn frame_overrun_is_reported_not_truncated() {
    // The item-data payload consumes more than the declared length allows.
    let mut content = Vec::new();
    content.extend_from_slice(&[0x01, 0x41]);
    content.extend_from_slice(&[0x01, 0x62]);
    content.extend_from_slice(&[0u8; 16]);
    content.push(0x07);
    content.extend_from_slice(&[0x02, 0x63, 0x64]);
    content.extend_from_slice(&[0x0D, 0x00, 0x00, 0x00]);
    let bytes = frame(CODE_ITEM_DATA, [0u8; 16], &content, -5);
    assert!(matches!(
        read_section(&bytes, 0),
        Err(DecodeError::FrameOverrun)
    ));
}

#[test]
fn unknown_section_code_never_errors() {
    for code in [0x0000u16, 0x0001, 0x0042, 0x2007, 0xFFFF] {
        let bytes = frame(code, [0xAB; 16], &[0xDE, 0xAD, 0xBE, 0xEF], 0);
        let (section, end) = read_section(&bytes, 0).unwrap();
        assert_eq!(end, bytes.len());
        assert!(matches!(section.section_data, SectionData::Unknown));
        assert_eq!(section.unparsed_bytes, vec![0xDE, 0xAD, 0xBE, 0xEF]);
    }
}

#[test]
fn entity_header_section_decodes() {
    let mut content = Vec::new();
    content.extend_from_slice(&[0x03, 0x66, 0x6F, 0x78]); // object name "fox"
    content.extend_from_slice(&[0x05, 0x00]); // data
    content.extend_from_slice(&[0x09, 0x00, 0x00, 0x00]); // condition count
    let bytes = frame(CODE_ENTITY_HEADER, [0u8; 16], &content, 0);
    let (section, _) = read_section(&bytes, 0).unwrap();
    match &section.section_data {
        SectionData::EntityHeader {
            object_name,
            data,
            eventsheet_condition_count,
        } => {
            assert_eq!(object_name.as_bytes().as_slice(), b"fox");
            assert_eq!(*data, 5);
            assert_eq!(*eventsheet_condition_count, 9);
        }
        _ => panic!("expected an entity-header payload"),
    }
}

fn sample_event_sheet() -> SectionData {
    SectionData::EventSheet {
        name: sized(b"sheet"),
        padding: 0,
        entity_eventsheet_count: 1,
        events: vec![Event {
            event_type: 3,
            nest_depth: 0,
            event_data: EventData {
                data: vec![0x01, 0x03],
                variables: vec![
                    EventDataType::U32(7),
                    EventDataType::Text(sized(b"go")),
                ],
            },
        }],
        eventsheet_section_end: 0xFFFF,
    }
}

#[test]
fn event_sheet_section_round_trips_byte_exactly() {
    let section = Section {
        section_type: CODE_EVENT_SHEET,
        data: 0xDEADBEEF,
        section_data: sample_event_sheet(),
        unparsed_bytes: vec![0x9A, 0x9B],
    };
    let mut bytes = Vec::new();
    write_section(&mut bytes, &section);

    // The backpatched length field counts everything after the type code.
    let declared = u32::from_le_bytes([bytes[0], bytes[1], bytes[2], bytes[3]]);
    assert_eq!(declared as usize, bytes.len() - 6);

    let (back, end) = read_section(&bytes, 0).unwrap();
    assert_eq!(end, bytes.len());
    let mut again = Vec::new();
    write_section(&mut again, &back);
    assert_eq!(again, bytes);
    match &back.section_data {
        SectionData::EventSheet { name, events, .. } => {
            assert_eq!(name.as_bytes().as_slice(), b"sheet");
            assert_eq!(events.len(), 1);
        }
        _ => panic!("expected an event sheet"),
    }
}

#[test]
fn header_requires_magic() {
    let bytes = b"NOPE_".to_vec();
    assert!(matches!(read_header(&bytes), Err(DecodeError::InvalidHeader)));
    let bytes = b"YUKA".to_vec();
    assert!(matches!(read_header(&bytes), Err(DecodeError::InvalidHeader)));
}

#[test]
fn header_requires_declared_bytes() {
    // Magic, length 4, 16-bit field, but only two of the four bytes.
    let mut bytes = b"YUKAR".to_vec();
    bytes.extend_from_slice(&[0x04, 0x00, 0x00, 0x00]);
    bytes.extend_from_slice(&[0x00, 0x00]);
    bytes.extend_from_slice(&[0x01, 0x02]);
    assert!(matches!(read_header(&bytes), Err(DecodeError::InvalidHeader)));
}

#[test]
fn file_round_trips_byte_exactly() {
    let file = RbrFile {
        header: RbrHeader {
            header_length: 3,
            data: 2,
            data2: vec![0xAA, 0xBB, 0xCC],
        },
        sections: vec![
            Section {
                section_type: CODE_EVENT_SHEET,
                data: 1,
                section_data: sample_event_sheet(),
                unparsed_bytes: vec![],
            },
            Section {
                section_type: CODE_ITEM_DATA,
                data: 2,
                section_data: SectionData::ItemData {
                    name: sized(b"sword"),
                    note: sized(b""),
                    data: 3,
                    data2: 4,
                    description: sized(b"sharp"),
                    data3: 5,
                },
                unparsed_bytes: vec![0x01],
            },
        ],
    };
    let mut bytes = Vec::new();
    write_file(&mut bytes, &file);

    let back = read_file(&bytes).unwrap();
    assert_eq!(back.header.header_length, 3);
    assert_eq!(back.header.data2, vec![0xAA, 0xBB, 0xCC]);
    assert_eq!(back.sections.len(), 2);

    let mut again = Vec::new();
    write_file(&mut again, &back);
    assert_eq!(again, bytes);
}

#[test]
fn file_with_no_sections_is_valid() {
    let mut bytes = b"YUKAR".to_vec();
    bytes.extend_from_slice(&[0x00, 0x00, 0x00, 0x00]); // header length 0
    bytes.extend_from_slice(&[0x07, 0x00]); // 16-bit field
    let file = read_file(&bytes).unwrap();
    assert!(file.sections.is_empty());
    assert_eq!(file.header.data, 7);

    let mut again = Vec::new();
    write_file(&mut again, &file);
    assert_eq!(again, bytes);
}

#[test]
fn raw_file_bytes_survive_decode_then_encode() {
    // A whole file written out by hand: header with two declared bytes,
    // then an unknown section whose frame holds two trailing bytes.
    let mut bytes = b"YUKAR".to_vec();
    bytes.extend_from_slice(&[0x02, 0x00, 0x00, 0x00]); // header length 2
    bytes.extend_from_slice(&[0x09, 0x00]); // 16-bit header field
    bytes.extend_from_slice(&[0x10, 0x20]); // the two header bytes
    bytes.extend_from_slice(&[0x12, 0x00, 0x00, 0x00]); // section length 18
    bytes.extend_from_slice(&[0x00, 0x42]); // type code 0x0042, big-endian
    bytes.extend_from_slice(&[0xCD; 16]); // opaque value
    bytes.extend_from_slice(&[0x77, 0x88]); // trailing bytes

    let file = read_file(&bytes).unwrap();
    assert_eq!(file.sections.len(), 1);
    assert_eq!(file.sections[0].section_type, 0x0042);
    assert!(matches!(file.sections[0].section_data, SectionData::Unknown));
    assert_eq!(file.sections[0].unparsed_bytes, vec![0x77, 0x88]);

    let mut again = Vec::new();
    write_file(&mut again, &file);
    assert_eq!(again, bytes);
}

#[test]
fn file_propagates_section_errors() {
    let mut bytes = b"YUKAR".to_vec();
    bytes.extend_from_slice(&[0x00, 0x00, 0x00, 0x00]);
    bytes.extend_from_slice(&[0x00, 0x00]);
    bytes.extend_from_slice(&[0x01, 0x02]); // two stray bytes: not a section
    assert!(matches!(read_file(&bytes), Err(DecodeError::UnexpectedEof)));
}
