//! The runtime well-formedness checks, which gate re-encoding.

use rbr_codec::container::{RbrFile, RbrHeader};
use rbr_codec::err::DecodeError;
use rbr_codec::events::{Event, EventData};
use rbr_codec::record::{ArrayValue, EventDataType};
use rbr_codec::section::{
    read_section, Section, SectionData, CODE_ENTITY_HEADER, CODE_EVENT_SHEET,
};
use rbr_codec::strings::SizedString;
use rbr_codec::validate::{
    event_data_wf_check, file_wf_check, section_wf_check, value_tag, value_wf_check,
};

fn sized(text: &[u8]) -> SizedString {
    SizedString::new(text.to_vec()).unwrap()
}

fn good_file() -> RbrFile {
    RbrFile {
        header: RbrHeader {
            header_length: 2,
            data: 0,
            data2: vec![0x01, 0x02],
        },
        sections: vec![Section {
            section_type: CODE_ENTITY_HEADER,
            data: 0,
            section_data: SectionData::EntityHeader {
                object_name: sized(b"door"),
                data: 1,
                eventsheet_condition_count: 0,
            },
            unparsed_bytes: vec![],
        }],
    }
}

#[test]
fn value_tags_follow_variants() {
    assert_eq!(value_tag(&EventDataType::U32(0)), 0x01);
    assert_eq!(value_tag(&EventDataType::U128(0)), 0x02);
    assert_eq!(value_tag(&EventDataType::Text(sized(b""))), 0x03);
    assert_eq!(value_tag(&EventDataType::VariableName(sized(b""))), 0x04);
    assert_eq!(value_tag(&EventDataType::SwitchName(sized(b""))), 0x05);
    assert_eq!(value_tag(&EventDataType::Float(0)), 0x08);
}

#[test]
fn array_payload_must_match_its_key() {
    let good = EventDataType::Array {
        array_name: sized(b"a"),
        array_type: 2,
        value: ArrayValue::U128(1),
    };
    assert!(value_wf_check(&good));
    let bad = EventDataType::Array {
        array_name: sized(b"a"),
        array_type: 2,
        value: ArrayValue::U32(1),
    };
    assert!(!value_wf_check(&bad));
    let bad_absent = EventDataType::Array {
        array_name: sized(b"a"),
        array_type: 1,
        value: ArrayValue::Absent,
    };
    assert!(!value_wf_check(&bad_absent));
}

#[test]
fn record_tags_must_match_values() {
    let good = EventData {
        data: vec![0x01],
        variables: vec![EventDataType::U32(1)],
    };
    assert!(event_data_wf_check(&good));

    let wrong_tag = EventData {
        data: vec![0x02],
        variables: vec![EventDataType::U32(1)],
    };
    assert!(!event_data_wf_check(&wrong_tag));

    let wrong_count = EventData {
        data: vec![0x01, 0x01],
        variables: vec![EventDataType::U32(1)],
    };
    assert!(!event_data_wf_check(&wrong_count));
}

#[test]
fn section_code_must_match_payload() {
    let mut section = good_file().sections.remove(0);
    assert!(section_wf_check(&section));
    section.section_type = CODE_EVENT_SHEET;
    assert!(!section_wf_check(&section));
}

#[test]
fn file_header_length_must_match_bytes() {
    let good = good_file();
    assert!(file_wf_check(&good));
    let mut bad = good_file();
    bad.header.header_length = 5;
    assert!(!file_wf_check(&bad));
}

#[test]
fn file_check_rejects_bad_record_inside_sheet() {
    let mut file = good_file();
    file.sections.push(Section {
        section_type: CODE_EVENT_SHEET,
        data: 0,
        section_data: SectionData::EventSheet {
            name: sized(b"s"),
            padding: 0,
            entity_eventsheet_count: 0,
            events: vec![Event {
                event_type: 0,
                nest_depth: 0,
                event_data: EventData {
                    data: vec![0x05],
                    variables: vec![EventDataType::U32(1)], // tag says string
                },
            }],
            eventsheet_section_end: 0,
        },
        unparsed_bytes: vec![],
    });
    assert!(!file_wf_check(&file));
}

#[test]
fn event_count_bounds_the_read_loop() {
    // An event sheet declaring two events but providing only one.
    let mut content = Vec::new();
    content.extend_from_slice(&[0x01, 0x73]); // name "s"
    content.extend_from_slice(&[0x00, 0x00]); // padding
    content.extend_from_slice(&[0x00, 0x00, 0x00, 0x00]); // entity count
    content.extend_from_slice(&[0x02, 0x00, 0x00, 0x00]); // event count: 2
    content.extend_from_slice(&[0x07, 0x00, 0x00, 0x00]); // event type
    content.extend_from_slice(&[0x00, 0x00, 0x00, 0x00]); // nest depth
    content.extend_from_slice(&[0x00]); // empty tag list
    let length = (16 + content.len()) as u32;
    let mut bytes = Vec::new();
    bytes.extend_from_slice(&length.to_le_bytes());
    bytes.extend_from_slice(&CODE_EVENT_SHEET.to_be_bytes());
    bytes.extend_from_slice(&[0u8; 16]);
    bytes.extend_from_slice(&content);
    assert!(matches!(
        read_section(&bytes, 0),
        Err(DecodeError::UnexpectedEof)
    ));
}
