//! Event-data records and events.
//!
//! A record's wire form is: the tag bytes (none of them zero), one zero
//! terminator byte, then one tagged value per tag byte, in order. The two
//! phases are explicit: the tag list is fully decoded first, then handed to
//! the value phase as an ordered list of discriminators.

use vstd::prelude::*;
use crate::bytes::{
    append_bytes, copy_range, le_bytes, le_u32_at, lemma_le_bytes_len, lemma_le_round_trip,
    lemma_pow256_values, lemma_split_at, read_u32_le, write_u32_le, write_u8,
};
use crate::err::DecodeError;
use crate::record::{
    lemma_read_value_at, lemma_read_value_wf, read_value, spec_encode_value, spec_read_value,
    tag_of_value, wf_value, write_value, EventDataType, ValueV,
};

verus! {

/// Spec-level event-data record: the stored tag bytes and the values they
/// describe.
#[verifier::ext_equal]
pub struct EventDataV {
    pub tags: Seq<u8>,
    pub values: Seq<ValueV>,
}

/// Spec-level event.
#[verifier::ext_equal]
pub struct EventV {
    pub event_type: u32,
    pub nest_depth: u32,
    pub event_data: EventDataV,
}

/// One event-data record: the raw tag bytes read up to (not including) the
/// zero terminator, and the values decoded under those tags.
///
/// Re-encoding writes `data` back verbatim, then the zero byte, then the
/// values: the stored tag bytes, not ones re-derived from the values, frame
/// the record.
#[derive(Debug, Clone)]
pub struct EventData {
    pub data: Vec<u8>,
    pub variables: Vec<EventDataType>,
}

/// One event: a 32-bit type, a 32-bit nesting depth (carried, never
/// interpreted), and its data record.
#[derive(Debug, Clone)]
pub struct Event {
    pub event_type: u32,
    pub nest_depth: u32,
    pub event_data: EventData,
}

/// The values of a sequence of decoded data, one view per element.
pub open spec fn deep_values(s: Seq<EventDataType>) -> Seq<ValueV> {
    s.map_values(|x: EventDataType| x@)
}

impl View for EventData {
    type V = EventDataV;

    open spec fn view(&self) -> EventDataV {
        EventDataV { tags: self.data@, values: deep_values(self.variables@) }
    }
}

impl View for Event {
    type V = EventV;

    open spec fn view(&self) -> EventV {
        EventV {
            event_type: self.event_type,
            nest_depth: self.nest_depth,
            event_data: self.event_data@,
        }
    }
}

impl EventDataV {
    /// One tag byte per value, each the value's own tag, each value
    /// well-formed. Since no tag is zero, the terminator is unambiguous.
    pub open spec fn wf(self) -> bool {
        &&& self.tags.len() == self.values.len()
        &&& forall|i: int|
            0 <= i < self.values.len() ==> #[trigger] tag_of_value(self.values[i]) == self.tags[i]
                && wf_value(self.values[i])
    }
}

impl EventV {
    /// The record is well-formed.
    pub open spec fn wf(self) -> bool {
        self.event_data.wf()
    }
}

/// Position of the first zero byte at or after `pos`, if any.
pub open spec fn find_zero(b: Seq<u8>, pos: int) -> Option<int>
    decreases b.len() - pos,
{
    if pos < 0 || pos >= b.len() {
        None
    } else if b[pos] == 0 {
        Some(pos)
    } else {
        find_zero(b, pos + 1)
    }
}

/// What `find_zero` finds is a zero byte preceded by nonzero bytes; when it
/// finds nothing, no byte from `pos` on is zero.
pub proof fn lemma_find_zero_props(b: Seq<u8>, pos: int)
    requires
        0 <= pos <= b.len(),
    ensures
        (match find_zero(b, pos) {
            Some(z) => pos <= z < b.len() && b[z] == 0 && forall|k: int|
                pos <= k < z ==> b[k] != 0,
            None => forall|k: int| pos <= k < b.len() ==> b[k] != 0,
        }),
    decreases b.len() - pos,
{
    if pos < b.len() && b[pos] != 0 {
        lemma_find_zero_props(b, pos + 1);
    }
}

/// If the bytes from `pos` to `z` are nonzero and `b[z]` is zero, the scan
/// stops exactly at `z`.
pub proof fn lemma_find_zero_at(b: Seq<u8>, pos: int, z: int)
    requires
        0 <= pos <= z < b.len(),
        forall|k: int| pos <= k < z ==> b[k] != 0,
        b[z] == 0,
    ensures
        find_zero(b, pos) == Some(z),
    decreases z - pos,
{
    if pos < z {
        lemma_find_zero_at(b, pos + 1, z);
    }
}

/// The wire form of a value sequence: each value's encoding, in order.
pub open spec fn spec_encode_values(vs: Seq<ValueV>) -> Seq<u8>
    decreases vs.len(),
{
    if vs.len() == 0 {
        Seq::<u8>::empty()
    } else {
        spec_encode_value(vs[0]) + spec_encode_values(vs.skip(1))
    }
}

/// Encoding distributes over concatenation of value sequences.
pub proof fn lemma_encode_values_concat(a: Seq<ValueV>, c: Seq<ValueV>)
    ensures
        spec_encode_values(a + c) == spec_encode_values(a) + spec_encode_values(c),
    decreases a.len(),
{
    if a.len() == 0 {
        assert(a + c =~= c);
        assert(Seq::<u8>::empty() + spec_encode_values(c) =~= spec_encode_values(c));
        assert(spec_encode_values(a) == Seq::<u8>::empty());
    } else {
        assert((a + c).skip(1) =~= a.skip(1) + c);
        lemma_encode_values_concat(a.skip(1), c);
        assert((a + c)[0] == a[0]);
        assert(spec_encode_value(a[0]) + (spec_encode_values(a.skip(1)) + spec_encode_values(c))
            =~= (spec_encode_value(a[0]) + spec_encode_values(a.skip(1))) + spec_encode_values(c));
    }
}

/// The encoding of a single value as a sequence.
pub proof fn lemma_encode_values_singleton(v: ValueV)
    ensures
        spec_encode_values(seq![v]) == spec_encode_value(v),
{
    assert(seq![v].skip(1) =~= Seq::<ValueV>::empty());
    assert(spec_encode_values(seq![v].skip(1)) == Seq::<u8>::empty());
    assert(spec_encode_value(v) + Seq::<u8>::empty() =~= spec_encode_value(v));
}

/// What reading one value per tag byte, in order, yields.
pub open spec fn spec_read_values(b: Seq<u8>, pos: int, tags: Seq<u8>) -> Result<
    (Seq<ValueV>, int),
    DecodeError,
>
    decreases tags.len(),
{
    if tags.len() == 0 {
        Ok((Seq::<ValueV>::empty(), pos))
    } else {
        match spec_read_value(b, pos, tags[0]) {
            Err(e) => Err(e),
            Ok((v, p)) => match spec_read_values(b, p, tags.skip(1)) {
                Err(e) => Err(e),
                Ok((vs, end)) => Ok((seq![v] + vs, end)),
            },
        }
    }
}

/// A successful value-phase read yields one well-formed value per tag, each
/// under its own tag, within bounds.
pub proof fn lemma_read_values_wf(b: Seq<u8>, pos: int, tags: Seq<u8>)
    requires
        0 <= pos <= b.len(),
    ensures
        (match spec_read_values(b, pos, tags) {
            Ok((vs, end)) => vs.len() == tags.len() && pos <= end <= b.len() && forall|i: int|
                0 <= i < vs.len() ==> #[trigger] tag_of_value(vs[i]) == tags[i] && wf_value(vs[i]),
            Err(_) => true,
        }),
    decreases tags.len(),
{
    if tags.len() > 0 {
        match spec_read_value(b, pos, tags[0]) {
            Err(_) => {},
            Ok((v, p)) => {
                lemma_read_value_wf(b, pos, tags[0], v, p);
                lemma_read_values_wf(b, p, tags.skip(1));
                match spec_read_values(b, p, tags.skip(1)) {
                    Err(_) => {},
                    Ok((vs, end)) => {
                        let whole = seq![v] + vs;
                        assert(whole[0] == v);
                        assert(forall|i: int| 1 <= i < whole.len() ==> whole[i] == vs[i - 1]);
                        assert(forall|i: int| 1 <= i < whole.len() ==> tags[i] == tags.skip(1)[i
                            - 1]);
                    },
                }
            },
        }
    }
}

/// Prefix a decoded value sequence onto a pending read result.
pub open spec fn prepend_values(
    pre: Seq<ValueV>,
    r: Result<(Seq<ValueV>, int), DecodeError>,
) -> Result<(Seq<ValueV>, int), DecodeError> {
    match r {
        Err(e) => Err(e),
        Ok((vs, end)) => Ok((pre + vs, end)),
    }
}

/// The wire form of a record: tag bytes, zero terminator, encoded values.
pub open spec fn spec_encode_event_data(r: EventDataV) -> Seq<u8> {
    r.tags + seq![0u8] + spec_encode_values(r.values)
}

/// What reading a record at `pos` yields: scan to the zero terminator
/// (failing with `UnexpectedEof` if none is present), take the scanned
/// bytes as tags, consume the terminator, then read one value per tag.
pub open spec fn spec_read_event_data(b: Seq<u8>, pos: int) -> Result<
    (EventDataV, int),
    DecodeError,
> {
    match find_zero(b, pos) {
        None => Err(DecodeError::UnexpectedEof),
        Some(z) => match spec_read_values(b, z + 1, b.subrange(pos, z)) {
            Err(e) => Err(e),
            Ok((vs, end)) => Ok((EventDataV { tags: b.subrange(pos, z), values: vs }, end)),
        },
    }
}

/// The wire form of an event: type, nesting depth, record.
pub open spec fn spec_encode_event(e: EventV) -> Seq<u8> {
    le_bytes(e.event_type as nat, 4) + le_bytes(e.nest_depth as nat, 4) + spec_encode_event_data(
        e.event_data,
    )
}

/// What reading an event at `pos` yields.
pub open spec fn spec_read_event(b: Seq<u8>, pos: int) -> Result<(EventV, int), DecodeError> {
    if pos + 8 <= b.len() {
        match spec_read_event_data(b, pos + 8) {
            Err(e) => Err(e),
            Ok((r, end)) => Ok((
                EventV {
                    event_type: le_u32_at(b, pos),
                    nest_depth: le_u32_at(b, pos + 4),
                    event_data: r,
                },
                end,
            )),
        }
    } else {
        Err(DecodeError::UnexpectedEof)
    }
}

/// Law: a decoded record is well-formed — it pairs each stored tag byte
/// with exactly one value, and no stored tag byte is zero.
pub proof fn lemma_event_data_invariant(b: Seq<u8>, pos: int, r: EventDataV, end: int)
    requires
        0 <= pos <= b.len(),
        spec_read_event_data(b, pos) == Ok::<(EventDataV, int), DecodeError>((r, end)),
    ensures
        r.wf(),
        r.tags.len() == r.values.len(),
        forall|i: int| 0 <= i < r.tags.len() ==> #[trigger] r.tags[i] != 0,
        pos <= end <= b.len(),
{
    lemma_find_zero_props(b, pos);
    match find_zero(b, pos) {
        None => {},
        Some(z) => {
            lemma_read_values_wf(b, z + 1, b.subrange(pos, z));
        },
    }
}

/// Read one record from `b` at `pos`.
pub fn read_event_data(b: &Vec<u8>, pos: usize) -> (r: Result<(EventData, usize), DecodeError>)
    requires
        pos <= b@.len(),
    ensures
        (match r {
            Ok(p) => spec_read_event_data(b@, pos as int) == Ok::<
                (EventDataV, int),
                DecodeError,
            >((p.0@, p.1 as int)) && p.0@.wf() && pos <= p.1 <= b@.len(),
            Err(e) => spec_read_event_data(b@, pos as int) == Err::<(EventDataV, int), DecodeError>(
                e,
            ),
        }),
{
    let n = b.len();
    let mut i: usize = pos;
    while i < n && b[i] != 0
        invariant
            pos <= i <= n,
            n == b@.len(),
            find_zero(b@, pos as int) == find_zero(b@, i as int),
        decreases n - i,
    {
        i = i + 1;
    }
    if i == n {
        return Err(DecodeError::UnexpectedEof);
    }
    let ghost zi = i as int;
    assert(find_zero(b@, pos as int) == Some(zi));
    let tags = copy_range(b, pos, i);

    let mut vals: Vec<EventDataType> = Vec::new();
    let mut q: usize = i + 1;
    let tlen = tags.len();
    let mut k: usize = 0;
    proof {
        assert(tags@.skip(0) =~= tags@);
        assert(deep_values(vals@) =~= Seq::<ValueV>::empty());
        match spec_read_values(b@, q as int, tags@) {
            Ok((vs, end)) => {
                assert(Seq::<ValueV>::empty() + vs =~= vs);
            },
            Err(_) => {},
        }
    }
    while k < tlen
        invariant
            k <= tlen,
            tlen == tags@.len(),
            n == b@.len(),
            pos <= zi < n,
            find_zero(b@, pos as int) == Some(zi),
            tags@ == b@.subrange(pos as int, zi),
            q <= n,
            vals@.len() == k,
            prepend_values(deep_values(vals@), spec_read_values(b@, q as int, tags@.skip(k as int)))
                == spec_read_values(b@, zi + 1, tags@),
        decreases tlen - k,
    {
        let tag = tags[k];
        proof {
            assert(tags@.skip(k as int)[0] == tags@[k as int]);
            assert(tags@.skip(k as int).skip(1) =~= tags@.skip(k as int + 1));
        }
        match read_value(b, q, tag) {
            Err(e) => {
                return Err(e);
            },
            Ok((v, p)) => {
                proof {
                    let ghost rest = spec_read_values(b@, p as int, tags@.skip(k as int + 1));
                    assert(spec_read_values(b@, q as int, tags@.skip(k as int)) == prepend_values(
                        seq![v@],
                        rest,
                    ));
                    assert(deep_values(vals@.push(v)) =~= deep_values(vals@).push(v@));
                    assert(deep_values(vals@).push(v@) =~= deep_values(vals@) + seq![v@]);
                    match rest {
                        Ok((vs, end)) => {
                            assert(deep_values(vals@) + (seq![v@] + vs) =~= (deep_values(vals@)
                                + seq![v@]) + vs);
                        },
                        Err(_) => {},
                    }
                }
                vals.push(v);
                q = p;
                k = k + 1;
            },
        }
    }
    proof {
        assert(tags@.skip(tlen as int) =~= Seq::<u8>::empty());
        assert(spec_read_values(b@, q as int, tags@.skip(tlen as int)) == Ok::<
            (Seq<ValueV>, int),
            DecodeError,
        >((Seq::<ValueV>::empty(), q as int)));
        assert(deep_values(vals@) + Seq::<ValueV>::empty() =~= deep_values(vals@));
        lemma_read_values_wf(b@, zi + 1, tags@);
    }
    Ok((EventData { data: tags, variables: vals }, q))
}

/// Append the wire form of `r` to `out`.
pub fn write_event_data(out: &mut Vec<u8>, r: &EventData)
    ensures
        final(out)@ == old(out)@ + spec_encode_event_data(r@),
{
    let ghost o0 = out@;
    append_bytes(out, &r.data);
    write_u8(out, 0);
    let ghost o1 = out@;
    proof {
        assert(o1 =~= o0 + r@.tags + seq![0u8]);
    }
    let n = r.variables.len();
    let mut k: usize = 0;
    proof {
        assert(deep_values(r.variables@).take(0) =~= Seq::<ValueV>::empty());
        assert(o1 + Seq::<u8>::empty() =~= o1);
    }
    while k < n
        invariant
            k <= n,
            n == r.variables@.len(),
            out@ == o1 + spec_encode_values(deep_values(r.variables@).take(k as int)),
            o1 == o0 + r@.tags + seq![0u8],
        decreases n - k,
    {
        let ghost vs = deep_values(r.variables@);
        write_value(out, &r.variables[k]);
        proof {
            assert(vs.take(k as int + 1) =~= vs.take(k as int) + seq![vs[k as int]]);
            lemma_encode_values_concat(vs.take(k as int), seq![vs[k as int]]);
            lemma_encode_values_singleton(vs[k as int]);
            assert(r.variables@[k as int]@ == vs[k as int]);
            assert((o1 + spec_encode_values(vs.take(k as int))) + spec_encode_value(vs[k as int])
                =~= o1 + (spec_encode_values(vs.take(k as int)) + spec_encode_value(vs[k as int])));
        }
        k = k + 1;
    }
    proof {
        assert(deep_values(r.variables@).take(n as int) =~= deep_values(r.variables@));
        assert((o0 + r@.tags + seq![0u8]) + spec_encode_values(r@.values) =~= o0
            + spec_encode_event_data(r@));
    }
}

/// Read one event from `b` at `pos`.
pub fn read_event(b: &Vec<u8>, pos: usize) -> (r: Result<(Event, usize), DecodeError>)
    requires
        pos <= b@.len(),
    ensures
        (match r {
            Ok(p) => spec_read_event(b@, pos as int) == Ok::<(EventV, int), DecodeError>((
                p.0@,
                p.1 as int,
            )) && p.0@.wf() && pos <= p.1 <= b@.len(),
            Err(e) => spec_read_event(b@, pos as int) == Err::<(EventV, int), DecodeError>(e),
        }),
{
    let n = b.len();
    if n - pos < 8 {
        return Err(DecodeError::UnexpectedEof);
    }
    let event_type = read_u32_le(b, pos);
    let nest_depth = read_u32_le(b, pos + 4);
    match read_event_data(b, pos + 8) {
        Err(e) => Err(e),
        Ok((r, end)) => Ok((Event { event_type, nest_depth, event_data: r }, end)),
    }
}

/// Append the wire form of `e` to `out`.
pub fn write_event(out: &mut Vec<u8>, e: &Event)
    ensures
        final(out)@ == old(out)@ + spec_encode_event(e@),
{
    let ghost o0 = out@;
    write_u32_le(out, e.event_type);
    write_u32_le(out, e.nest_depth);
    write_event_data(out, &e.event_data);
    proof {
        assert(out@ =~= o0 + spec_encode_event(e@));
    }
}

/// A successful value-phase read consumes at least as many bytes as the
/// canonical re-encoding of the values it yields.
pub proof fn lemma_read_values_consumed(b: Seq<u8>, pos: int, tags: Seq<u8>)
    requires
        0 <= pos <= b.len(),
    ensures
        (match spec_read_values(b, pos, tags) {
            Ok(p) => spec_encode_values(p.0).len() <= p.1 - pos,
            Err(_) => true,
        }),
    decreases tags.len(),
{
    if tags.len() > 0 {
        match spec_read_value(b, pos, tags[0]) {
            Err(_) => {},
            Ok((v, p)) => {
                crate::record::lemma_read_value_consumed(b, pos, tags[0]);
                lemma_read_value_wf(b, pos, tags[0], v, p);
                lemma_read_values_consumed(b, p, tags.skip(1));
                match spec_read_values(b, p, tags.skip(1)) {
                    Err(_) => {},
                    Ok((vs, end)) => {
                        let whole = seq![v] + vs;
                        assert(whole[0] == v);
                        assert(whole.skip(1) =~= vs);
                        assert(spec_encode_values(whole) == spec_encode_value(v)
                            + spec_encode_values(vs));
                    },
                }
            },
        }
    }
}

/// A successful record read consumes at least as many bytes as the
/// canonical re-encoding of the record it yields.
pub proof fn lemma_read_event_data_consumed(b: Seq<u8>, pos: int)
    requires
        0 <= pos <= b.len(),
    ensures
        (match spec_read_event_data(b, pos) {
            Ok(p) => spec_encode_event_data(p.0).len() <= p.1 - pos,
            Err(_) => true,
        }),
{
    lemma_find_zero_props(b, pos);
    match find_zero(b, pos) {
        None => {},
        Some(z) => {
            lemma_read_values_consumed(b, z + 1, b.subrange(pos, z));
        },
    }
}

/// A successful event read consumes at least as many bytes as the canonical
/// re-encoding of the event it yields.
pub proof fn lemma_read_event_consumed(b: Seq<u8>, pos: int)
    requires
        0 <= pos <= b.len(),
    ensures
        (match spec_read_event(b, pos) {
            Ok(p) => spec_encode_event(p.0).len() <= p.1 - pos,
            Err(_) => true,
        }),
{
    if pos + 8 <= b.len() {
        lemma_read_event_data_consumed(b, pos + 8);
        match spec_read_event(b, pos) {
            Ok((ev, end)) => {
                lemma_le_bytes_len(ev.event_type as nat, 4);
                lemma_le_bytes_len(ev.nest_depth as nat, 4);
            },
            Err(_) => {},
        }
    }
}

/// Reading at a position where the wire form of well-formed values lies,
/// under their own tags, yields exactly those values back.
pub proof fn lemma_read_values_at(b: Seq<u8>, pos: int, tags: Seq<u8>, vs: Seq<ValueV>)
    requires
        0 <= pos,
        tags.len() == vs.len(),
        forall|i: int|
            0 <= i < vs.len() ==> #[trigger] tag_of_value(vs[i]) == tags[i] && wf_value(vs[i]),
        pos + spec_encode_values(vs).len() <= b.len(),
        b.subrange(pos, pos + spec_encode_values(vs).len()) == spec_encode_values(vs),
    ensures
        spec_read_values(b, pos, tags) == Ok::<(Seq<ValueV>, int), DecodeError>((
            vs,
            pos + spec_encode_values(vs).len(),
        )),
    decreases vs.len(),
{
    if vs.len() == 0 {
        assert(spec_encode_values(vs) == Seq::<u8>::empty());
        assert(vs =~= Seq::<ValueV>::empty());
    } else {
        let head = spec_encode_value(vs[0]);
        let tail = spec_encode_values(vs.skip(1));
        assert(spec_encode_values(vs) == head + tail);
        lemma_split_at(b, pos, head, tail);
        assert(tag_of_value(vs[0]) == tags[0] && wf_value(vs[0]));
        lemma_read_value_at(b, pos, vs[0]);
        assert forall|i: int|
            0 <= i < vs.skip(1).len() implies #[trigger] tag_of_value(vs.skip(1)[i]) == tags.skip(
            1,
        )[i] && wf_value(vs.skip(1)[i]) by {
            assert(vs.skip(1)[i] == vs[i + 1]);
            assert(tags.skip(1)[i] == tags[i + 1]);
            assert(tag_of_value(vs[i + 1]) == tags[i + 1] && wf_value(vs[i + 1]));
        }
        lemma_read_values_at(b, pos + head.len() as int, tags.skip(1), vs.skip(1));
        assert(seq![vs[0]] + vs.skip(1) =~= vs);
    }
}

/// Reading at a position where the wire form of a well-formed record lies
/// yields exactly that record back.
pub proof fn lemma_read_event_data_at(b: Seq<u8>, pos: int, r: EventDataV)
    requires
        0 <= pos,
        r.wf(),
        pos + spec_encode_event_data(r).len() <= b.len(),
        b.subrange(pos, pos + spec_encode_event_data(r).len()) == spec_encode_event_data(r),
    ensures
        spec_read_event_data(b, pos) == Ok::<(EventDataV, int), DecodeError>((
            r,
            pos + spec_encode_event_data(r).len(),
        )),
{
    let enc = spec_encode_event_data(r);
    let ev = spec_encode_values(r.values);
    assert(enc =~= r.tags + (seq![0u8] + ev));
    lemma_split_at(b, pos, r.tags, seq![0u8] + ev);
    let z = pos + r.tags.len() as int;
    lemma_split_at(b, z, seq![0u8], ev);
    assert(b[z] == b.subrange(z, z + 1)[0]);
    assert forall|k: int| pos <= k < z implies b[k] != 0 by {
        assert(b.subrange(pos, z)[k - pos] == r.tags[k - pos]);
        assert(tag_of_value(r.values[k - pos]) == r.tags[k - pos]);
    }
    lemma_find_zero_at(b, pos, z);
    lemma_read_values_at(b, z + 1, r.tags, r.values);
    assert(b.subrange(pos, z) == r.tags);
}

/// Reading at a position where the wire form of a well-formed event lies
/// yields exactly that event back.
pub proof fn lemma_read_event_at(b: Seq<u8>, pos: int, e: EventV)
    requires
        0 <= pos,
        e.wf(),
        pos + spec_encode_event(e).len() <= b.len(),
        b.subrange(pos, pos + spec_encode_event(e).len()) == spec_encode_event(e),
    ensures
        spec_read_event(b, pos) == Ok::<(EventV, int), DecodeError>((
            e,
            pos + spec_encode_event(e).len(),
        )),
{
    let pa = le_bytes(e.event_type as nat, 4);
    let pb = le_bytes(e.nest_depth as nat, 4);
    let pc = spec_encode_event_data(e.event_data);
    lemma_le_bytes_len(e.event_type as nat, 4);
    lemma_le_bytes_len(e.nest_depth as nat, 4);
    assert(spec_encode_event(e) =~= pa + (pb + pc));
    lemma_split_at(b, pos, pa, pb + pc);
    lemma_split_at(b, pos + 4, pb, pc);
    lemma_pow256_values();
    lemma_le_round_trip(e.event_type as nat, 4);
    lemma_le_round_trip(e.nest_depth as nat, 4);
    lemma_read_event_data_at(b, pos + 8, e.event_data);
}

} // verus!
