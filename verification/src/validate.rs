//! Runtime well-formedness checks, each proved to decide exactly the
//! spec-level condition the encoders require.
//!
//! A caller outside the verified world (one that rebuilt a file from a
//! text document, say) runs these before encoding; a `true` answer is a
//! proof-backed licence to call the writers.

use vstd::prelude::*;
use crate::container::{deep_sections, RbrFile};
use crate::events::{deep_values, Event, EventData};
use crate::record::{tag_of_value, wf_value, ArrayValue, EventDataType};
use crate::section::{
    code_matches, deep_events, write_section_data, Section, SectionData, CODE_ENTITY_HEADER,
    CODE_EVENT_SHEET, CODE_ITEM_DATA,
};
use crate::strings::SizedString;
use crate::utf8::validate_utf8;

verus! {

/// The tag byte under which this value's shape decodes.
pub fn value_tag(v: &EventDataType) -> (r: u8)
    ensures
        r == tag_of_value(v@),
{
    match v {
        EventDataType::U32(_) => 0x01,
        EventDataType::U128(_) => 0x02,
        EventDataType::Text(_) => 0x03,
        EventDataType::VariableName(_) => 0x04,
        EventDataType::SwitchName(_) => 0x05,
        EventDataType::Position { .. } => 0x06,
        EventDataType::Array { .. } => 0x07,
        EventDataType::Float(_) => 0x08,
    }
}

/// Whether the string bytes can stand in a length-prefixed string field.
fn string_wf_check(s: &SizedString) -> (r: bool)
    ensures
        r == crate::record::wf_string(s@),
{
    let len = s.byte_len();
    proof {
        assert(s@.len() <= u64::MAX);
    }
    validate_utf8(s.as_bytes())
}

/// Decide `wf_value` for one value.
pub fn value_wf_check(v: &EventDataType) -> (r: bool)
    ensures
        r == wf_value(v@),
{
    match v {
        EventDataType::U32(_) => true,
        EventDataType::U128(_) => true,
        EventDataType::Text(s) => string_wf_check(s),
        EventDataType::VariableName(s) => string_wf_check(s),
        EventDataType::SwitchName(s) => string_wf_check(s),
        EventDataType::Position { .. } => true,
        EventDataType::Array { array_name, array_type, value } => {
            let key_ok = match value {
                ArrayValue::U32(_) => *array_type == 1 || *array_type == 0xFF,
                ArrayValue::U128(_) => *array_type == 2,
                ArrayValue::Str(s) => (*array_type == 3 || *array_type == 4 || *array_type == 5)
                    && string_wf_check(s),
                ArrayValue::Absent => !(*array_type == 1 || *array_type == 2 || *array_type == 3
                    || *array_type == 4 || *array_type == 5 || *array_type == 0xFF),
            };
            key_ok && string_wf_check(array_name)
        },
        EventDataType::Float(_) => true,
    }
}

/// Decide `wf` for one record: one tag byte per value, each the value's
/// own tag, each value well-formed.
pub fn event_data_wf_check(r: &EventData) -> (res: bool)
    ensures
        res == r@.wf(),
{
    let n = r.variables.len();
    if r.data.len() != n {
        return false;
    }
    let mut i: usize = 0;
    #[verifier::loop_isolation(false)]
    while i < n
        invariant
            i <= n,
            n == r.variables@.len(),
            r.data@.len() == n,
            forall|k: int|
                0 <= k < i ==> #[trigger] tag_of_value(deep_values(r.variables@)[k]) == r.data@[k]
                    && wf_value(deep_values(r.variables@)[k]),
        decreases n - i,
    {
        proof {
            assert(deep_values(r.variables@)[i as int] == r.variables@[i as int]@);
        }
        if value_tag(&r.variables[i]) != r.data[i] {
            proof {
                assert(tag_of_value(deep_values(r.variables@)[i as int]) != r.data@[i as int]);
            }
            return false;
        }
        if !value_wf_check(&r.variables[i]) {
            proof {
                assert(!wf_value(deep_values(r.variables@)[i as int]));
            }
            return false;
        }
        proof {
            assert(tag_of_value(deep_values(r.variables@)[i as int]) == r.data@[i as int]);
            assert(wf_value(deep_values(r.variables@)[i as int]));
        }
        i = i + 1;
    }
    true
}

/// Decide `wf` for one event.
pub fn event_wf_check(e: &Event) -> (r: bool)
    ensures
        r == e@.wf(),
{
    event_data_wf_check(&e.event_data)
}

/// Decide `wf` for one payload.
pub fn section_data_wf_check(d: &SectionData) -> (r: bool)
    ensures
        r == d@.wf(),
{
    match d {
        SectionData::EventSheet { name, events, .. } => {
            if !string_wf_check(name) {
                return false;
            }
            let n = events.len();
            if n > u32::MAX as usize {
                return false;
            }
            let mut i: usize = 0;
            #[verifier::loop_isolation(false)]
            while i < n
                invariant
                    i <= n,
                    n == events@.len(),
                    forall|k: int| 0 <= k < i ==> (#[trigger] deep_events(events@)[k]).wf(),
                decreases n - i,
            {
                proof {
                    assert(deep_events(events@)[i as int] == events@[i as int]@);
                }
                if !event_wf_check(&events[i]) {
                    proof {
                        assert(!(deep_events(events@)[i as int]).wf());
                    }
                    return false;
                }
                i = i + 1;
            }
            proof {
                assert(deep_events(events@).len() == events@.len());
            }
            true
        },
        SectionData::EntityHeader { object_name, .. } => string_wf_check(object_name),
        SectionData::ItemData { name, note, description, .. } => string_wf_check(name)
            && string_wf_check(note) && string_wf_check(description),
        SectionData::Unknown => true,
    }
}

/// Decide the dispatch agreement between a type code and a payload.
pub fn code_matches_check(code: u16, d: &SectionData) -> (r: bool)
    ensures
        r == code_matches(code, d@),
{
    match d {
        SectionData::EventSheet { .. } => code == CODE_EVENT_SHEET,
        SectionData::EntityHeader { .. } => code == CODE_ENTITY_HEADER,
        SectionData::ItemData { .. } => code == CODE_ITEM_DATA,
        SectionData::Unknown => code != CODE_EVENT_SHEET && code != CODE_ENTITY_HEADER && code
            != CODE_ITEM_DATA,
    }
}

/// Decide `wf` for one section, the frame's 32-bit length bound included.
pub fn section_wf_check(s: &Section) -> (r: bool)
    ensures
        r == s@.wf(),
{
    if !code_matches_check(s.section_type, &s.section_data) {
        return false;
    }
    if !section_data_wf_check(&s.section_data) {
        return false;
    }
    let mut probe: Vec<u8> = Vec::new();
    write_section_data(&mut probe, &s.section_data);
    let payload_len = probe.len() as u128;
    let unparsed_len = s.unparsed_bytes.len() as u128;
    16 + payload_len + unparsed_len <= u32::MAX as u128
}

/// Decide `wf` for a whole file: the header's declared length and every
/// section.
pub fn file_wf_check(f: &RbrFile) -> (r: bool)
    ensures
        r == f@.wf(),
{
    if f.header.data2.len() as u64 != f.header.header_length as u64 {
        return false;
    }
    let n = f.sections.len();
    let mut i: usize = 0;
    #[verifier::loop_isolation(false)]
    while i < n
        invariant
            i <= n,
            n == f.sections@.len(),
            f.header@.wf(),
            forall|k: int| 0 <= k < i ==> (#[trigger] deep_sections(f.sections@)[k]).wf(),
        decreases n - i,
    {
        proof {
            assert(deep_sections(f.sections@)[i as int] == f.sections@[i as int]@);
        }
        if !section_wf_check(&f.sections[i]) {
            proof {
                assert(f@.sections == deep_sections(f.sections@));
                assert(!(f@.sections[i as int]).wf());
                assert(!f@.wf());
            }
            return false;
        }
        i = i + 1;
    }
    proof {
        assert(deep_sections(f.sections@).len() == f.sections@.len());
    }
    true
}

} // verus!
