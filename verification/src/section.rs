//! Section framing and type-code-dispatched payloads.
//!
//! A section on the wire is: a 32-bit little-endian length, a 16-bit
//! BIG-endian type code (fixed regardless of the file's endianness — a
//! protocol quirk that is preserved), a 128-bit opaque value, the payload
//! the type code selects, and any trailing bytes the payload did not
//! consume. The declared length counts everything after the type code.
//!
//! Unknown type codes select the zero-field `Unknown` payload and never
//! fail: the whole frame's content beyond the opaque value lands in
//! `unparsed_bytes`.

use vstd::prelude::*;
use crate::bytes::{
    append_bytes, be16_bytes, be16_value, copy_range, le_bytes, le_u128_at, le_u16_at, le_u32_at,
    lemma_le_bytes_len, lemma_le_round_trip, lemma_pow256_values, lemma_split_at, read_u128_le,
    read_u16_be, read_u16_le, read_u32_le, read_u8, write_u128_le, write_u16_be, write_u16_le,
    write_u32_le, write_u8,
};
use crate::err::DecodeError;
use crate::events::{
    lemma_read_event_at, read_event, spec_encode_event, spec_read_event, spec_read_event_data,
    write_event, Event, EventV,
};
use crate::strings::{
    lemma_read_string_at, lemma_read_string_consumed, lemma_read_string_ok, read_sized_string,
    spec_encode_string, spec_read_string, write_sized_string, SizedString,
};
use crate::record::wf_string;

verus! {

/// The section type code that selects an event sheet.
pub const CODE_EVENT_SHEET: u16 = 0x1007;

/// The section type code that selects an entity header.
pub const CODE_ENTITY_HEADER: u16 = 0x0007;

/// The section type code that selects an item-data record.
pub const CODE_ITEM_DATA: u16 = 0x000C;

/// Spec-level section payload.
#[verifier::ext_equal]
pub enum SectionDataV {
    EventSheet {
        name: Seq<u8>,
        padding: u16,
        entity_eventsheet_count: u32,
        events: Seq<EventV>,
        eventsheet_section_end: u16,
    },
    EntityHeader { object_name: Seq<u8>, data: u16, eventsheet_condition_count: u32 },
    ItemData {
        name: Seq<u8>,
        note: Seq<u8>,
        data: u128,
        data2: u8,
        description: Seq<u8>,
        data3: u32,
    },
    Unknown,
}

/// Spec-level section.
#[verifier::ext_equal]
pub struct SectionV {
    pub section_type: u16,
    pub data: u128,
    pub section_data: SectionDataV,
    pub unparsed_bytes: Seq<u8>,
}

/// A section payload, dispatched by the section's 16-bit type code.
///
/// `Unknown` is the total fallback: any code outside the known set selects
/// it, with zero fields, and never errors.
#[derive(Debug, Clone)]
pub enum SectionData {
    EventSheet {
        name: SizedString,
        padding: u16,
        entity_eventsheet_count: u32,
        events: Vec<Event>,
        eventsheet_section_end: u16,
    },
    EntityHeader { object_name: SizedString, data: u16, eventsheet_condition_count: u32 },
    ItemData {
        name: SizedString,
        note: SizedString,
        data: u128,
        data2: u8,
        description: SizedString,
        data3: u32,
    },
    Unknown,
}

/// One length-framed, type-tagged section. On encode the length field is
/// recomputed from the payload actually produced, never taken on trust.
#[derive(Debug, Clone)]
pub struct Section {
    pub section_type: u16,
    pub data: u128,
    pub section_data: SectionData,
    pub unparsed_bytes: Vec<u8>,
}

/// The events of a sequence of decoded events, one view per element.
pub open spec fn deep_events(s: Seq<Event>) -> Seq<EventV> {
    s.map_values(|x: Event| x@)
}

impl View for SectionData {
    type V = SectionDataV;

    open spec fn view(&self) -> SectionDataV {
        match self {
            SectionData::EventSheet {
                name,
                padding,
                entity_eventsheet_count,
                events,
                eventsheet_section_end,
            } => SectionDataV::EventSheet {
                name: name@,
                padding: *padding,
                entity_eventsheet_count: *entity_eventsheet_count,
                events: deep_events(events@),
                eventsheet_section_end: *eventsheet_section_end,
            },
            SectionData::EntityHeader { object_name, data, eventsheet_condition_count } => {
                SectionDataV::EntityHeader {
                    object_name: object_name@,
                    data: *data,
                    eventsheet_condition_count: *eventsheet_condition_count,
                }
            },
            SectionData::ItemData { name, note, data, data2, description, data3 } => {
                SectionDataV::ItemData {
                    name: name@,
                    note: note@,
                    data: *data,
                    data2: *data2,
                    description: description@,
                    data3: *data3,
                }
            },
            SectionData::Unknown => SectionDataV::Unknown,
        }
    }
}

impl View for Section {
    type V = SectionV;

    open spec fn view(&self) -> SectionV {
        SectionV {
            section_type: self.section_type,
            data: self.data,
            section_data: self.section_data@,
            unparsed_bytes: self.unparsed_bytes@,
        }
    }
}

impl SectionDataV {
    /// Strings are UTF-8, event counts fit the wire's 32-bit count field,
    /// and every event is well-formed.
    pub open spec fn wf(self) -> bool {
        match self {
            SectionDataV::EventSheet { name, events, .. } => wf_string(name) && events.len()
                <= u32::MAX && forall|i: int| 0 <= i < events.len() ==> (#[trigger] events[i]).wf(),
            SectionDataV::EntityHeader { object_name, .. } => wf_string(object_name),
            SectionDataV::ItemData { name, note, description, .. } => wf_string(name) && wf_string(
                note,
            ) && wf_string(description),
            SectionDataV::Unknown => true,
        }
    }
}

/// The payload variant agrees with the type code that selects it.
pub open spec fn code_matches(code: u16, d: SectionDataV) -> bool {
    match d {
        SectionDataV::EventSheet { .. } => code == CODE_EVENT_SHEET,
        SectionDataV::EntityHeader { .. } => code == CODE_ENTITY_HEADER,
        SectionDataV::ItemData { .. } => code == CODE_ITEM_DATA,
        SectionDataV::Unknown => code != CODE_EVENT_SHEET && code != CODE_ENTITY_HEADER && code
            != CODE_ITEM_DATA,
    }
}

impl SectionV {
    /// The payload matches the type code, is itself well-formed, and the
    /// frame's content fits the 32-bit length field.
    pub open spec fn wf(self) -> bool {
        &&& code_matches(self.section_type, self.section_data)
        &&& self.section_data.wf()
        &&& 16 + spec_encode_section_data(self.section_data).len() + self.unparsed_bytes.len()
            <= u32::MAX
    }
}

/// The wire form of an event sequence: each event's encoding, in order.
pub open spec fn spec_encode_events(es: Seq<EventV>) -> Seq<u8>
    decreases es.len(),
{
    if es.len() == 0 {
        Seq::<u8>::empty()
    } else {
        spec_encode_event(es[0]) + spec_encode_events(es.skip(1))
    }
}

/// Encoding distributes over concatenation of event sequences.
pub proof fn lemma_encode_events_concat(a: Seq<EventV>, c: Seq<EventV>)
    ensures
        spec_encode_events(a + c) == spec_encode_events(a) + spec_encode_events(c),
    decreases a.len(),
{
    if a.len() == 0 {
        assert(a + c =~= c);
        assert(Seq::<u8>::empty() + spec_encode_events(c) =~= spec_encode_events(c));
        assert(spec_encode_events(a) == Seq::<u8>::empty());
    } else {
        assert((a + c).skip(1) =~= a.skip(1) + c);
        lemma_encode_events_concat(a.skip(1), c);
        assert((a + c)[0] == a[0]);
        assert(spec_encode_event(a[0]) + (spec_encode_events(a.skip(1)) + spec_encode_events(c))
            =~= (spec_encode_event(a[0]) + spec_encode_events(a.skip(1))) + spec_encode_events(c));
    }
}

/// The encoding of a single event as a sequence.
pub proof fn lemma_encode_events_singleton(e: EventV)
    ensures
        spec_encode_events(seq![e]) == spec_encode_event(e),
{
    assert(seq![e].skip(1) =~= Seq::<EventV>::empty());
    assert(spec_encode_events(seq![e].skip(1)) == Seq::<u8>::empty());
    assert(spec_encode_event(e) + Seq::<u8>::empty() =~= spec_encode_event(e));
}

/// What reading `count` events in sequence yields.
pub open spec fn spec_read_events(b: Seq<u8>, pos: int, count: nat) -> Result<
    (Seq<EventV>, int),
    DecodeError,
>
    decreases count,
{
    if count == 0 {
        Ok((Seq::<EventV>::empty(), pos))
    } else {
        match spec_read_event(b, pos) {
            Err(e) => Err(e),
            Ok((ev, p)) => match spec_read_events(b, p, (count - 1) as nat) {
                Err(e) => Err(e),
                Ok((es, end)) => Ok((seq![ev] + es, end)),
            },
        }
    }
}

/// Prefix decoded events onto a pending read result.
pub open spec fn prepend_events(
    pre: Seq<EventV>,
    r: Result<(Seq<EventV>, int), DecodeError>,
) -> Result<(Seq<EventV>, int), DecodeError> {
    match r {
        Err(e) => Err(e),
        Ok((es, end)) => Ok((pre + es, end)),
    }
}

/// A successful event-sequence read yields exactly `count` well-formed
/// events, within bounds.
pub proof fn lemma_read_events_wf(b: Seq<u8>, pos: int, count: nat)
    requires
        0 <= pos <= b.len(),
    ensures
        (match spec_read_events(b, pos, count) {
            Ok((es, end)) => es.len() == count && pos <= end <= b.len() && forall|i: int|
                0 <= i < es.len() ==> (#[trigger] es[i]).wf(),
            Err(_) => true,
        }),
    decreases count,
{
    if count > 0 {
        match spec_read_event(b, pos) {
            Err(_) => {},
            Ok((ev, p)) => {
                lemma_read_event_ok(b, pos);
                lemma_read_events_wf(b, p, (count - 1) as nat);
                match spec_read_events(b, p, (count - 1) as nat) {
                    Err(_) => {},
                    Ok((es, end)) => {
                        let whole = seq![ev] + es;
                        assert(whole[0] == ev);
                        assert(forall|i: int| 1 <= i < whole.len() ==> whole[i] == es[i - 1]);
                    },
                }
            },
        }
    }
}

/// A successful event read stays within bounds and yields a well-formed
/// event.
pub proof fn lemma_read_event_ok(b: Seq<u8>, pos: int)
    requires
        0 <= pos <= b.len(),
    ensures
        (match spec_read_event(b, pos) {
            Ok((ev, end)) => ev.wf() && pos <= end <= b.len(),
            Err(_) => true,
        }),
{
    if pos + 8 <= b.len() {
        match spec_read_event_data(b, pos + 8) {
            Ok((r, end)) => {
                crate::events::lemma_event_data_invariant(b, pos + 8, r, end);
            },
            Err(_) => {},
        }
    }
}

/// The wire form of a section payload. An event sheet carries a derived
/// event count, always the length of its events list.
pub open spec fn spec_encode_section_data(d: SectionDataV) -> Seq<u8> {
    match d {
        SectionDataV::EventSheet {
            name,
            padding,
            entity_eventsheet_count,
            events,
            eventsheet_section_end,
        } => spec_encode_string(name) + le_bytes(padding as nat, 2) + le_bytes(
            entity_eventsheet_count as nat,
            4,
        ) + le_bytes(events.len() as nat, 4) + spec_encode_events(events) + le_bytes(
            eventsheet_section_end as nat,
            2,
        ),
        SectionDataV::EntityHeader { object_name, data, eventsheet_condition_count } => {
            spec_encode_string(object_name) + le_bytes(data as nat, 2) + le_bytes(
                eventsheet_condition_count as nat,
                4,
            )
        },
        SectionDataV::ItemData { name, note, data, data2, description, data3 } => {
            spec_encode_string(name) + spec_encode_string(note) + le_bytes(data as nat, 16)
                + seq![data2] + spec_encode_string(description) + le_bytes(data3 as nat, 4)
        },
        SectionDataV::Unknown => Seq::<u8>::empty(),
    }
}

/// What reading the payload selected by `code` at `pos` yields. A code
/// outside the known set always yields `Unknown` and consumes nothing.
#[verifier::opaque]
pub open spec fn spec_read_section_data(b: Seq<u8>, pos: int, code: u16) -> Result<
    (SectionDataV, int),
    DecodeError,
> {
    if code == CODE_EVENT_SHEET {
        match spec_read_string(b, pos) {
            Err(e) => Err(e),
            Ok((name, p)) => if p + 10 <= b.len() {
                let padding = le_u16_at(b, p);
                let entity_eventsheet_count = le_u32_at(b, p + 2);
                let event_count = le_u32_at(b, p + 6);
                match spec_read_events(b, p + 10, event_count as nat) {
                    Err(e) => Err(e),
                    Ok((events, q)) => if q + 2 <= b.len() {
                        Ok((
                            SectionDataV::EventSheet {
                                name,
                                padding,
                                entity_eventsheet_count,
                                events,
                                eventsheet_section_end: le_u16_at(b, q),
                            },
                            q + 2,
                        ))
                    } else {
                        Err(DecodeError::UnexpectedEof)
                    },
                }
            } else {
                Err(DecodeError::UnexpectedEof)
            },
        }
    } else if code == CODE_ENTITY_HEADER {
        match spec_read_string(b, pos) {
            Err(e) => Err(e),
            Ok((object_name, p)) => if p + 6 <= b.len() {
                Ok((
                    SectionDataV::EntityHeader {
                        object_name,
                        data: le_u16_at(b, p),
                        eventsheet_condition_count: le_u32_at(b, p + 2),
                    },
                    p + 6,
                ))
            } else {
                Err(DecodeError::UnexpectedEof)
            },
        }
    } else if code == CODE_ITEM_DATA {
        match spec_read_string(b, pos) {
            Err(e) => Err(e),
            Ok((name, p1)) => match spec_read_string(b, p1) {
                Err(e) => Err(e),
                Ok((note, p2)) => if p2 + 17 <= b.len() {
                    match spec_read_string(b, p2 + 17) {
                        Err(e) => Err(e),
                        Ok((description, p3)) => if p3 + 4 <= b.len() {
                            Ok((
                                SectionDataV::ItemData {
                                    name,
                                    note,
                                    data: le_u128_at(b, p2),
                                    data2: b[p2 + 16],
                                    description,
                                    data3: le_u32_at(b, p3),
                                },
                                p3 + 4,
                            ))
                        } else {
                            Err(DecodeError::UnexpectedEof)
                        },
                    }
                } else {
                    Err(DecodeError::UnexpectedEof)
                },
            },
        }
    } else {
        Ok((SectionDataV::Unknown, pos))
    }
}

/// A successful event-sequence read consumes at least as many bytes as the
/// canonical re-encoding of the events it yields.
pub proof fn lemma_read_events_consumed(b: Seq<u8>, pos: int, count: nat)
    requires
        0 <= pos <= b.len(),
    ensures
        (match spec_read_events(b, pos, count) {
            Ok(p) => spec_encode_events(p.0).len() <= p.1 - pos,
            Err(_) => true,
        }),
    decreases count,
{
    if count > 0 {
        match spec_read_event(b, pos) {
            Err(_) => {},
            Ok((ev, p)) => {
                crate::events::lemma_read_event_consumed(b, pos);
                lemma_read_event_ok(b, pos);
                lemma_read_events_consumed(b, p, (count - 1) as nat);
                match spec_read_events(b, p, (count - 1) as nat) {
                    Err(_) => {},
                    Ok((es, end)) => {
                        let whole = seq![ev] + es;
                        assert(whole[0] == ev);
                        assert(whole.skip(1) =~= es);
                        assert(spec_encode_events(whole) == spec_encode_event(ev)
                            + spec_encode_events(es));
                    },
                }
            },
        }
    }
}

/// A successful payload read lands on a well-formed payload that matches
/// the code, within bounds, consuming at least its canonical re-encoding.
pub proof fn lemma_read_section_data_ok(b: Seq<u8>, pos: int, code: u16)
    requires
        0 <= pos <= b.len(),
    ensures
        (match spec_read_section_data(b, pos, code) {
            Ok(p) => p.0.wf() && code_matches(code, p.0) && pos <= p.1 <= b.len()
                && spec_encode_section_data(p.0).len() <= p.1 - pos,
            Err(_) => true,
        }),
{
    reveal(spec_read_section_data);
    if code == CODE_EVENT_SHEET {
        lemma_read_string_ok(b, pos);
        lemma_read_string_consumed(b, pos);
        match spec_read_string(b, pos) {
            Ok((name, p)) => {
                if p + 10 <= b.len() {
                    let count = le_u32_at(b, p + 6);
                    lemma_read_events_wf(b, p + 10, count as nat);
                    lemma_read_events_consumed(b, p + 10, count as nat);
                    lemma_le_bytes_len(le_u16_at(b, p) as nat, 2);
                    lemma_le_bytes_len(le_u32_at(b, p + 2) as nat, 4);
                    match spec_read_events(b, p + 10, count as nat) {
                        Ok((events, q)) => {
                            lemma_le_bytes_len(events.len() as nat, 4);
                            if q + 2 <= b.len() {
                                lemma_le_bytes_len(le_u16_at(b, q) as nat, 2);
                            }
                        },
                        Err(_) => {},
                    }
                }
            },
            Err(_) => {},
        }
    } else if code == CODE_ENTITY_HEADER {
        lemma_read_string_ok(b, pos);
        lemma_read_string_consumed(b, pos);
        match spec_read_string(b, pos) {
            Ok((object_name, p)) => {
                if p + 6 <= b.len() {
                    lemma_le_bytes_len(le_u16_at(b, p) as nat, 2);
                    lemma_le_bytes_len(le_u32_at(b, p + 2) as nat, 4);
                }
            },
            Err(_) => {},
        }
    } else if code == CODE_ITEM_DATA {
        lemma_read_string_ok(b, pos);
        lemma_read_string_consumed(b, pos);
        match spec_read_string(b, pos) {
            Ok((name, p1)) => {
                lemma_read_string_ok(b, p1);
                lemma_read_string_consumed(b, p1);
                match spec_read_string(b, p1) {
                    Ok((note, p2)) => {
                        if p2 + 17 <= b.len() {
                            lemma_le_bytes_len(le_u128_at(b, p2) as nat, 16);
                            lemma_read_string_ok(b, p2 + 17);
                            lemma_read_string_consumed(b, p2 + 17);
                            match spec_read_string(b, p2 + 17) {
                                Ok((description, p3)) => {
                                    if p3 + 4 <= b.len() {
                                        lemma_le_bytes_len(le_u32_at(b, p3) as nat, 4);
                                    }
                                },
                                Err(_) => {},
                            }
                        }
                    },
                    Err(_) => {},
                }
            },
            Err(_) => {},
        }
    }
}

/// Read `count` events in sequence from `b` at `pos`.
pub fn read_events(b: &Vec<u8>, pos: usize, count: u32) -> (r: Result<
    (Vec<Event>, usize),
    DecodeError,
>)
    requires
        pos <= b@.len(),
    ensures
        (match r {
            Ok(p) => spec_read_events(b@, pos as int, count as nat) == Ok::<
                (Seq<EventV>, int),
                DecodeError,
            >((deep_events(p.0@), p.1 as int)) && pos <= p.1 <= b@.len() && p.0@.len()
                == count,
            Err(e) => spec_read_events(b@, pos as int, count as nat) == Err::<
                (Seq<EventV>, int),
                DecodeError,
            >(e),
        }),
{
    let mut events: Vec<Event> = Vec::new();
    let mut q: usize = pos;
    let mut k: u32 = 0;
    proof {
        assert(deep_events(events@) =~= Seq::<EventV>::empty());
        match spec_read_events(b@, q as int, count as nat) {
            Ok((es, end)) => {
                assert(Seq::<EventV>::empty() + es =~= es);
            },
            Err(_) => {},
        }
    }
    while k < count
        invariant
            k <= count,
            pos <= q <= b@.len(),
            events@.len() == k,
            prepend_events(
                deep_events(events@),
                spec_read_events(b@, q as int, (count - k) as nat),
            ) == spec_read_events(b@, pos as int, count as nat),
        decreases count - k,
    {
        match read_event(b, q) {
            Err(e) => {
                return Err(e);
            },
            Ok((ev, p2)) => {
                proof {
                    let ghost rest = spec_read_events(b@, p2 as int, (count - k - 1) as nat);
                    assert(spec_read_events(b@, q as int, (count - k) as nat) == prepend_events(
                        seq![ev@],
                        rest,
                    ));
                    assert(deep_events(events@.push(ev)) =~= deep_events(events@).push(ev@));
                    assert(deep_events(events@).push(ev@) =~= deep_events(events@) + seq![ev@]);
                    match rest {
                        Ok((es, end)) => {
                            assert(deep_events(events@) + (seq![ev@] + es) =~= (deep_events(
                                events@,
                            ) + seq![ev@]) + es);
                        },
                        Err(_) => {},
                    }
                }
                events.push(ev);
                q = p2;
                k = k + 1;
            },
        }
    }
    proof {
        assert(spec_read_events(b@, q as int, 0) == Ok::<(Seq<EventV>, int), DecodeError>((
            Seq::<EventV>::empty(),
            q as int,
        )));
        assert(deep_events(events@) + Seq::<EventV>::empty() =~= deep_events(events@));
    }
    Ok((events, q))
}

/// Append the wire form of each event, in order, to `out`.
pub fn write_events(out: &mut Vec<u8>, events: &Vec<Event>)
    ensures
        final(out)@ == old(out)@ + spec_encode_events(deep_events(events@)),
{
    let ghost o0 = out@;
    let n = events.len();
    let mut k: usize = 0;
    proof {
        assert(deep_events(events@).take(0) =~= Seq::<EventV>::empty());
        assert(o0 + Seq::<u8>::empty() =~= o0);
    }
    while k < n
        invariant
            k <= n,
            n == events@.len(),
            out@ == o0 + spec_encode_events(deep_events(events@).take(k as int)),
        decreases n - k,
    {
        let ghost es = deep_events(events@);
        write_event(out, &events[k]);
        proof {
            assert(es.take(k as int + 1) =~= es.take(k as int) + seq![es[k as int]]);
            lemma_encode_events_concat(es.take(k as int), seq![es[k as int]]);
            lemma_encode_events_singleton(es[k as int]);
            assert(events@[k as int]@ == es[k as int]);
            assert((o0 + spec_encode_events(es.take(k as int))) + spec_encode_event(es[k as int])
                =~= o0 + (spec_encode_events(es.take(k as int)) + spec_encode_event(
                es[k as int],
            )));
        }
        k = k + 1;
    }
    proof {
        assert(deep_events(events@).take(n as int) =~= deep_events(events@));
    }
}

/// Read the payload selected by `code` from `b` at `pos`.
pub fn read_section_data(b: &Vec<u8>, pos: usize, code: u16) -> (r: Result<
    (SectionData, usize),
    DecodeError,
>)
    requires
        pos <= b@.len(),
    ensures
        (match r {
            Ok(p) => spec_read_section_data(b@, pos as int, code) == Ok::<
                (SectionDataV, int),
                DecodeError,
            >((p.0@, p.1 as int)) && pos <= p.1 <= b@.len(),
            Err(e) => spec_read_section_data(b@, pos as int, code) == Err::<
                (SectionDataV, int),
                DecodeError,
            >(e),
        }),
{
    proof {
        reveal(spec_read_section_data);
    }
    let n = b.len();
    if code == CODE_EVENT_SHEET {
        let (name, p) = match read_sized_string(b, pos) {
            Err(e) => {
                return Err(e);
            },
            Ok(x) => x,
        };
        if n - p < 10 {
            return Err(DecodeError::UnexpectedEof);
        }
        let padding = read_u16_le(b, p);
        let entity_eventsheet_count = read_u32_le(b, p + 2);
        let event_count = read_u32_le(b, p + 6);
        let (events, q) = match read_events(b, p + 10, event_count) {
            Err(e) => {
                return Err(e);
            },
            Ok(x) => x,
        };
        if n - q < 2 {
            return Err(DecodeError::UnexpectedEof);
        }
        let eventsheet_section_end = read_u16_le(b, q);
        Ok((
            SectionData::EventSheet {
                name,
                padding,
                entity_eventsheet_count,
                events,
                eventsheet_section_end,
            },
            q + 2,
        ))
    } else if code == CODE_ENTITY_HEADER {
        let (object_name, p) = match read_sized_string(b, pos) {
            Err(e) => {
                return Err(e);
            },
            Ok(x) => x,
        };
        if n - p < 6 {
            return Err(DecodeError::UnexpectedEof);
        }
        let data = read_u16_le(b, p);
        let eventsheet_condition_count = read_u32_le(b, p + 2);
        Ok((SectionData::EntityHeader { object_name, data, eventsheet_condition_count }, p + 6))
    } else if code == CODE_ITEM_DATA {
        let (name, p1) = match read_sized_string(b, pos) {
            Err(e) => {
                return Err(e);
            },
            Ok(x) => x,
        };
        let (note, p2) = match read_sized_string(b, p1) {
            Err(e) => {
                return Err(e);
            },
            Ok(x) => x,
        };
        if n - p2 < 17 {
            return Err(DecodeError::UnexpectedEof);
        }
        let data = read_u128_le(b, p2);
        let data2 = read_u8(b, p2 + 16);
        let (description, p3) = match read_sized_string(b, p2 + 17) {
            Err(e) => {
                return Err(e);
            },
            Ok(x) => x,
        };
        if n - p3 < 4 {
            return Err(DecodeError::UnexpectedEof);
        }
        let data3 = read_u32_le(b, p3);
        Ok((SectionData::ItemData { name, note, data, data2, description, data3 }, p3 + 4))
    } else {
        Ok((SectionData::Unknown, pos))
    }
}

/// Append the wire form of `d` to `out`.
pub fn write_section_data(out: &mut Vec<u8>, d: &SectionData)
    requires
        d@.wf(),
    ensures
        final(out)@ == old(out)@ + spec_encode_section_data(d@),
{
    match d {
        SectionData::EventSheet {
            name,
            padding,
            entity_eventsheet_count,
            events,
            eventsheet_section_end,
        } => {
            let ghost o0 = out@;
            write_sized_string(out, name);
            write_u16_le(out, *padding);
            write_u32_le(out, *entity_eventsheet_count);
            proof {
                assert(deep_events(events@).len() == events@.len());
            }
            write_u32_le(out, events.len() as u32);
            write_events(out, events);
            write_u16_le(out, *eventsheet_section_end);
            proof {
                assert(out@ =~= o0 + spec_encode_section_data(d@));
            }
        },
        SectionData::EntityHeader { object_name, data, eventsheet_condition_count } => {
            let ghost o0 = out@;
            write_sized_string(out, object_name);
            write_u16_le(out, *data);
            write_u32_le(out, *eventsheet_condition_count);
            proof {
                assert(out@ =~= o0 + spec_encode_section_data(d@));
            }
        },
        SectionData::ItemData { name, note, data, data2, description, data3 } => {
            let ghost o0 = out@;
            write_sized_string(out, name);
            write_sized_string(out, note);
            write_u128_le(out, *data);
            write_u8(out, *data2);
            write_sized_string(out, description);
            write_u32_le(out, *data3);
            proof {
                assert(out@ =~= o0 + spec_encode_section_data(d@));
            }
        },
        SectionData::Unknown => {
            proof {
                assert(out@ + spec_encode_section_data(d@) =~= out@);
            }
        },
    }
}

/// Law: a type code outside the known set never produces a decode error —
/// the payload dispatch is total, falling back to `Unknown` and consuming
/// nothing (the frame's remaining content becomes trailing bytes).
pub proof fn lemma_unknown_code_never_errors(b: Seq<u8>, pos: int, code: u16)
    requires
        code != CODE_EVENT_SHEET,
        code != CODE_ENTITY_HEADER,
        code != CODE_ITEM_DATA,
    ensures
        spec_read_section_data(b, pos, code) == Ok::<(SectionDataV, int), DecodeError>((
            SectionDataV::Unknown,
            pos,
        )),
{
    reveal(spec_read_section_data);
}

/// The wire form of a section: computed length, big-endian type code,
/// opaque 128-bit value, payload, trailing bytes.
pub open spec fn spec_encode_section(s: SectionV) -> Seq<u8> {
    let body = le_bytes(s.data as nat, 16) + spec_encode_section_data(s.section_data)
        + s.unparsed_bytes;
    le_bytes(body.len() as nat, 4) + be16_bytes(s.section_type as nat) + body
}

/// What reading a section at `pos` yields. The payload overrunning the
/// declared length is `FrameOverrun`; input ending before the declared
/// length is `UnexpectedEof`.
pub open spec fn spec_read_section(b: Seq<u8>, pos: int) -> Result<(SectionV, int), DecodeError> {
    if pos + 6 > b.len() {
        Err(DecodeError::UnexpectedEof)
    } else {
        let length = le_u32_at(b, pos);
        let code = be16_value(b[pos + 4], b[pos + 5]) as u16;
        let start = pos + 6;
        if start + 16 > b.len() {
            Err(DecodeError::UnexpectedEof)
        } else {
            match spec_read_section_data(b, start + 16, code) {
                Err(e) => Err(e),
                Ok((d, end)) => {
                    let consumed = end - start;
                    if consumed > length {
                        Err(DecodeError::FrameOverrun)
                    } else if end + (length - consumed) > b.len() {
                        Err(DecodeError::UnexpectedEof)
                    } else {
                        Ok((
                            SectionV {
                                section_type: code,
                                data: le_u128_at(b, start),
                                section_data: d,
                                unparsed_bytes: b.subrange(end, end + (length - consumed)),
                            },
                            end + (length - consumed),
                        ))
                    }
                },
            }
        }
    }
}

/// Read one section from `b` at `pos`.
pub fn read_section(b: &Vec<u8>, pos: usize) -> (r: Result<(Section, usize), DecodeError>)
    requires
        pos <= b@.len(),
    ensures
        (match r {
            Ok(p) => spec_read_section(b@, pos as int) == Ok::<(SectionV, int), DecodeError>((
                p.0@,
                p.1 as int,
            )) && p.0@.wf() && pos < p.1 <= b@.len(),
            Err(e) => spec_read_section(b@, pos as int) == Err::<(SectionV, int), DecodeError>(e),
        }),
{
    let n = b.len();
    if n - pos < 6 {
        return Err(DecodeError::UnexpectedEof);
    }
    let length = read_u32_le(b, pos);
    let code = read_u16_be(b, pos + 4);
    let start = pos + 6;
    if n - start < 16 {
        return Err(DecodeError::UnexpectedEof);
    }
    let data = read_u128_le(b, start);
    let (d, end) = match read_section_data(b, start + 16, code) {
        Err(e) => {
            return Err(e);
        },
        Ok(x) => x,
    };
    let consumed = end - start;
    if consumed > length as usize {
        return Err(DecodeError::FrameOverrun);
    }
    let trailing = length as usize - consumed;
    if n - end < trailing {
        return Err(DecodeError::UnexpectedEof);
    }
    let unparsed_bytes = copy_range(b, end, end + trailing);
    proof {
        lemma_read_section_data_ok(b@, start as int + 16, code);
    }
    Ok((Section { section_type: code, data, section_data: d, unparsed_bytes }, end + trailing))
}

/// Append the wire form of `s` to `out`: the body is buffered first, so
/// the length field carries the body's measured size and no seek-based
/// backpatching is needed.
pub fn write_section(out: &mut Vec<u8>, s: &Section)
    requires
        s@.wf(),
    ensures
        final(out)@ == old(out)@ + spec_encode_section(s@),
{
    let mut body: Vec<u8> = Vec::new();
    write_u128_le(&mut body, s.data);
    write_section_data(&mut body, &s.section_data);
    append_bytes(&mut body, &s.unparsed_bytes);
    proof {
        assert(body@ =~= le_bytes(s@.data as nat, 16) + spec_encode_section_data(s@.section_data)
            + s@.unparsed_bytes);
        crate::bytes::lemma_le_bytes_len(s@.data as nat, 16);
    }
    let ghost o0 = out@;
    write_u32_le(out, body.len() as u32);
    write_u16_be(out, s.section_type);
    append_bytes(out, &body);
    proof {
        assert(out@ =~= o0 + spec_encode_section(s@));
    }
}

/// Reading at a position where the wire form of well-formed events lies
/// yields exactly those events back.
pub proof fn lemma_read_events_at(b: Seq<u8>, pos: int, es: Seq<EventV>)
    requires
        0 <= pos,
        forall|i: int| 0 <= i < es.len() ==> (#[trigger] es[i]).wf(),
        pos + spec_encode_events(es).len() <= b.len(),
        b.subrange(pos, pos + spec_encode_events(es).len()) == spec_encode_events(es),
    ensures
        spec_read_events(b, pos, es.len() as nat) == Ok::<(Seq<EventV>, int), DecodeError>((
            es,
            pos + spec_encode_events(es).len(),
        )),
    decreases es.len(),
{
    if es.len() == 0 {
        assert(spec_encode_events(es) == Seq::<u8>::empty());
        assert(es =~= Seq::<EventV>::empty());
    } else {
        let head = spec_encode_event(es[0]);
        let tail = spec_encode_events(es.skip(1));
        assert(spec_encode_events(es) == head + tail);
        lemma_split_at(b, pos, head, tail);
        assert(es[0].wf());
        lemma_read_event_at(b, pos, es[0]);
        assert(forall|i: int| 0 <= i < es.skip(1).len() ==> es.skip(1)[i] == es[i + 1]);
        lemma_read_events_at(b, pos + head.len() as int, es.skip(1));
        assert(seq![es[0]] + es.skip(1) =~= es);
    }
}

/// Reading at a position where the wire form of a well-formed payload
/// lies, under the code that matches it, yields exactly that payload back.
pub proof fn lemma_read_section_data_at(b: Seq<u8>, pos: int, code: u16, d: SectionDataV)
    requires
        0 <= pos,
        d.wf(),
        code_matches(code, d),
        pos + spec_encode_section_data(d).len() <= b.len(),
        b.subrange(pos, pos + spec_encode_section_data(d).len()) == spec_encode_section_data(d),
    ensures
        spec_read_section_data(b, pos, code) == Ok::<(SectionDataV, int), DecodeError>((
            d,
            pos + spec_encode_section_data(d).len(),
        )),
{
    reveal(spec_read_section_data);
    lemma_pow256_values();
    match d {
        SectionDataV::EventSheet {
            name,
            padding,
            entity_eventsheet_count,
            events,
            eventsheet_section_end,
        } => {
            let pn = spec_encode_string(name);
            let p2 = le_bytes(padding as nat, 2);
            let p4 = le_bytes(entity_eventsheet_count as nat, 4);
            let pk = le_bytes(events.len() as nat, 4);
            let pe = spec_encode_events(events);
            let pz = le_bytes(eventsheet_section_end as nat, 2);
            lemma_le_bytes_len(padding as nat, 2);
            lemma_le_bytes_len(entity_eventsheet_count as nat, 4);
            lemma_le_bytes_len(events.len() as nat, 4);
            lemma_le_bytes_len(eventsheet_section_end as nat, 2);
            assert(spec_encode_section_data(d) =~= pn + (p2 + (p4 + (pk + (pe + pz)))));
            lemma_split_at(b, pos, pn, p2 + (p4 + (pk + (pe + pz))));
            let a = pos + pn.len() as int;
            lemma_split_at(b, a, p2, p4 + (pk + (pe + pz)));
            lemma_split_at(b, a + 2, p4, pk + (pe + pz));
            lemma_split_at(b, a + 6, pk, pe + pz);
            lemma_split_at(b, a + 10, pe, pz);
            lemma_read_string_at(b, pos, name);
            lemma_le_round_trip(padding as nat, 2);
            lemma_le_round_trip(entity_eventsheet_count as nat, 4);
            lemma_le_round_trip(events.len() as nat, 4);
            lemma_le_round_trip(eventsheet_section_end as nat, 2);
            lemma_read_events_at(b, a + 10, events);
            assert(le_u32_at(b, a + 6) as nat == events.len());
        },
        SectionDataV::EntityHeader { object_name, data, eventsheet_condition_count } => {
            let pn = spec_encode_string(object_name);
            let p2 = le_bytes(data as nat, 2);
            let p4 = le_bytes(eventsheet_condition_count as nat, 4);
            lemma_le_bytes_len(data as nat, 2);
            lemma_le_bytes_len(eventsheet_condition_count as nat, 4);
            assert(spec_encode_section_data(d) =~= pn + (p2 + p4));
            lemma_split_at(b, pos, pn, p2 + p4);
            let a = pos + pn.len() as int;
            lemma_split_at(b, a, p2, p4);
            lemma_read_string_at(b, pos, object_name);
            lemma_le_round_trip(data as nat, 2);
            lemma_le_round_trip(eventsheet_condition_count as nat, 4);
        },
        SectionDataV::ItemData { name, note, data, data2, description, data3 } => {
            let pn = spec_encode_string(name);
            let po = spec_encode_string(note);
            let pd = le_bytes(data as nat, 16);
            let pb = seq![data2];
            let ps = spec_encode_string(description);
            let p3 = le_bytes(data3 as nat, 4);
            lemma_le_bytes_len(data as nat, 16);
            lemma_le_bytes_len(data3 as nat, 4);
            assert(spec_encode_section_data(d) =~= pn + (po + (pd + (pb + (ps + p3)))));
            lemma_split_at(b, pos, pn, po + (pd + (pb + (ps + p3))));
            let a1 = pos + pn.len() as int;
            lemma_split_at(b, a1, po, pd + (pb + (ps + p3)));
            let a2 = a1 + po.len() as int;
            lemma_split_at(b, a2, pd, pb + (ps + p3));
            lemma_split_at(b, a2 + 16, pb, ps + p3);
            lemma_split_at(b, a2 + 17, ps, p3);
            let a3 = a2 + 17 + ps.len() as int;
            lemma_read_string_at(b, pos, name);
            lemma_read_string_at(b, a1, note);
            lemma_read_string_at(b, a2 + 17, description);
            lemma_le_round_trip(data as nat, 16);
            lemma_le_round_trip(data3 as nat, 4);
            assert(b.subrange(a2 + 16, a2 + 17)[0] == b[a2 + 16]);
        },
        SectionDataV::Unknown => {
            assert(spec_encode_section_data(d).len() == 0);
        },
    }
}

/// Reading at a position where the wire form of a well-formed section lies
/// yields exactly that section back.
pub proof fn lemma_read_section_at(b: Seq<u8>, pos: int, s: SectionV)
    requires
        0 <= pos,
        s.wf(),
        pos + spec_encode_section(s).len() <= b.len(),
        b.subrange(pos, pos + spec_encode_section(s).len()) == spec_encode_section(s),
    ensures
        spec_read_section(b, pos) == Ok::<(SectionV, int), DecodeError>((
            s,
            pos + spec_encode_section(s).len(),
        )),
{
    lemma_pow256_values();
    let pd = le_bytes(s.data as nat, 16);
    let pp = spec_encode_section_data(s.section_data);
    let pu = s.unparsed_bytes;
    let body = pd + pp + pu;
    let pl = le_bytes(body.len() as nat, 4);
    let pc = be16_bytes(s.section_type as nat);
    lemma_le_bytes_len(s.data as nat, 16);
    lemma_le_bytes_len(body.len() as nat, 4);
    assert(spec_encode_section(s) =~= pl + (pc + (pd + (pp + pu))));
    lemma_split_at(b, pos, pl, pc + (pd + (pp + pu)));
    lemma_split_at(b, pos + 4, pc, pd + (pp + pu));
    let start = pos + 6;
    lemma_split_at(b, start, pd, pp + pu);
    lemma_split_at(b, start + 16, pp, pu);
    lemma_le_round_trip(body.len() as nat, 4);
    lemma_le_round_trip(s.data as nat, 16);
    assert(b[pos + 4] == b.subrange(pos + 4, pos + 6)[0]);
    assert(b[pos + 5] == b.subrange(pos + 4, pos + 6)[1]);
    crate::bytes::lemma_be16_round_trip(s.section_type);
    lemma_read_section_data_at(b, start + 16, s.section_type, s.section_data);
    let end = start + 16 + pp.len() as int;
    assert(b.subrange(end, end + pu.len() as int) == pu);
}

/// Law: a well-formed section survives the byte round trip. Decoding its
/// encoding — the backpatched length field included — yields it back
/// exactly and consumes every byte, so re-encoding reproduces the same
/// bytes.
pub proof fn lemma_section_round_trip(s: SectionV)
    requires
        s.wf(),
    ensures
        spec_read_section(spec_encode_section(s), 0) == Ok::<(SectionV, int), DecodeError>((
            s,
            spec_encode_section(s).len() as int,
        )),
{
    let enc = spec_encode_section(s);
    assert(enc.subrange(0, enc.len() as int) =~= enc);
    lemma_read_section_at(enc, 0, s);
}

} // verus!
