//! The tag-driven polymorphic record model for event data.
//!
//! A one-byte tag, supplied from outside the value's own bytes, selects
//! which shape follows in the stream. Unknown tags are a hard decode error:
//! there is no silent-skip fallback for value tags.
//!
//! A record stores its tag bytes (everything before a terminating zero
//! byte), then the terminator, then one value per tag, in order. Re-encoding
//! reproduces the stored tag bytes rather than re-deriving them.
//!
//! Floating-point fields are carried as their 32-bit IEEE bit patterns,
//! preserved byte-for-byte and never interpreted.

use vstd::prelude::*;
use crate::bytes::{
    le_bytes, le_u128_at, le_u32_at, lemma_le_bytes_len, lemma_le_round_trip,
    lemma_pow256_values, read_u128_le, read_u32_le, read_u8, write_u128_le, write_u32_le,
    write_u8,
};
use crate::err::DecodeError;
use crate::strings::{
    lemma_read_string_at, lemma_read_string_consumed, lemma_read_string_ok, read_sized_string,
    spec_encode_string, spec_read_string, write_sized_string, SizedString,
};
use crate::utf8::is_utf8;

verus! {

/// Spec-level payload of an `Array` value, keyed by the sibling
/// `array_type` field.
#[verifier::ext_equal]
pub enum ArrayValueV {
    U32(u32),
    U128(u128),
    Str(Seq<u8>),
    Absent,
}

/// Spec-level tagged value: what one decoded event datum is.
#[verifier::ext_equal]
pub enum ValueV {
    U32(u32),
    U128(u128),
    Text(Seq<u8>),
    VariableName(Seq<u8>),
    SwitchName(Seq<u8>),
    Position { value: u128, data: u32, data2: u8, x: u32, y: u32, z: u32 },
    Array { array_name: Seq<u8>, array_type: u32, value: ArrayValueV },
    Float(u32),
}

/// Payload of an `Array` value, keyed by the sibling `array_type` field.
///
/// `Absent` is the explicit zero-payload case for any `array_type` outside
/// the recognized set.
#[derive(Debug, Clone)]
pub enum ArrayValue {
    U32(u32),
    U128(u128),
    Str(SizedString),
    Absent,
}

/// One decoded event datum, dispatched by an externally supplied one-byte
/// tag.
///
/// `Position`'s `x`, `y`, `z` and the `Float` payload hold 32-bit IEEE
/// bit patterns, round-tripped without interpretation.
#[derive(Debug, Clone)]
pub enum EventDataType {
    U32(u32),
    U128(u128),
    Text(SizedString),
    VariableName(SizedString),
    SwitchName(SizedString),
    Position { value: u128, data: u32, data2: u8, x: u32, y: u32, z: u32 },
    Array { array_name: SizedString, array_type: u32, value: ArrayValue },
    Float(u32),
}

impl View for ArrayValue {
    type V = ArrayValueV;

    open spec fn view(&self) -> ArrayValueV {
        match self {
            ArrayValue::U32(x) => ArrayValueV::U32(*x),
            ArrayValue::U128(x) => ArrayValueV::U128(*x),
            ArrayValue::Str(s) => ArrayValueV::Str(s@),
            ArrayValue::Absent => ArrayValueV::Absent,
        }
    }
}

impl View for EventDataType {
    type V = ValueV;

    open spec fn view(&self) -> ValueV {
        match self {
            EventDataType::U32(x) => ValueV::U32(*x),
            EventDataType::U128(x) => ValueV::U128(*x),
            EventDataType::Text(s) => ValueV::Text(s@),
            EventDataType::VariableName(s) => ValueV::VariableName(s@),
            EventDataType::SwitchName(s) => ValueV::SwitchName(s@),
            EventDataType::Position { value, data, data2, x, y, z } => ValueV::Position {
                value: *value,
                data: *data,
                data2: *data2,
                x: *x,
                y: *y,
                z: *z,
            },
            EventDataType::Array { array_name, array_type, value } => ValueV::Array {
                array_name: array_name@,
                array_type: *array_type,
                value: value@,
            },
            EventDataType::Float(x) => ValueV::Float(*x),
        }
    }
}

/// String bytes that can stand in a length-prefixed string field.
pub open spec fn wf_string(s: Seq<u8>) -> bool {
    is_utf8(s) && s.len() <= u64::MAX
}

/// The payload variant agrees with the `array_type` that keys it.
pub open spec fn wf_array_value(array_type: u32, v: ArrayValueV) -> bool {
    match v {
        ArrayValueV::U32(_) => array_type == 1 || array_type == 0xFF,
        ArrayValueV::U128(_) => array_type == 2,
        ArrayValueV::Str(s) => (array_type == 3 || array_type == 4 || array_type == 5)
            && wf_string(s),
        ArrayValueV::Absent => !(array_type == 1 || array_type == 2 || array_type == 3
            || array_type == 4 || array_type == 5 || array_type == 0xFF),
    }
}

/// A tagged value whose strings are UTF-8 and whose array payload matches
/// its key.
pub open spec fn wf_value(v: ValueV) -> bool {
    match v {
        ValueV::U32(_) => true,
        ValueV::U128(_) => true,
        ValueV::Text(s) => wf_string(s),
        ValueV::VariableName(s) => wf_string(s),
        ValueV::SwitchName(s) => wf_string(s),
        ValueV::Position { .. } => true,
        ValueV::Array { array_name, array_type, value } => wf_string(array_name)
            && wf_array_value(array_type, value),
        ValueV::Float(_) => true,
    }
}

/// The one tag byte under which this value's shape decodes.
pub open spec fn tag_of_value(v: ValueV) -> u8 {
    match v {
        ValueV::U32(_) => 0x01,
        ValueV::U128(_) => 0x02,
        ValueV::Text(_) => 0x03,
        ValueV::VariableName(_) => 0x04,
        ValueV::SwitchName(_) => 0x05,
        ValueV::Position { .. } => 0x06,
        ValueV::Array { .. } => 0x07,
        ValueV::Float(_) => 0x08,
    }
}

/// The wire form of an array payload.
pub open spec fn spec_encode_array_value(v: ArrayValueV) -> Seq<u8> {
    match v {
        ArrayValueV::U32(x) => le_bytes(x as nat, 4),
        ArrayValueV::U128(x) => le_bytes(x as nat, 16),
        ArrayValueV::Str(s) => spec_encode_string(s),
        ArrayValueV::Absent => Seq::<u8>::empty(),
    }
}

/// The wire form of a tagged value (the tag byte itself lives in the
/// record's tag list, not here).
pub open spec fn spec_encode_value(v: ValueV) -> Seq<u8> {
    match v {
        ValueV::U32(x) => le_bytes(x as nat, 4),
        ValueV::U128(x) => le_bytes(x as nat, 16),
        ValueV::Text(s) => spec_encode_string(s),
        ValueV::VariableName(s) => spec_encode_string(s),
        ValueV::SwitchName(s) => spec_encode_string(s),
        ValueV::Position { value, data, data2, x, y, z } => le_bytes(value as nat, 16) + le_bytes(
            data as nat,
            4,
        ) + seq![data2] + le_bytes(x as nat, 4) + le_bytes(y as nat, 4) + le_bytes(z as nat, 4),
        ValueV::Array { array_name, array_type, value } => spec_encode_string(array_name)
            + le_bytes(array_type as nat, 4) + spec_encode_array_value(value),
        ValueV::Float(x) => le_bytes(x as nat, 4),
    }
}

/// What reading an array payload keyed by `array_type` at `pos` yields.
pub open spec fn spec_read_array_value(b: Seq<u8>, pos: int, array_type: u32) -> Result<
    (ArrayValueV, int),
    DecodeError,
> {
    if array_type == 1 || array_type == 0xFF {
        if pos + 4 <= b.len() {
            Ok((ArrayValueV::U32(le_u32_at(b, pos)), pos + 4))
        } else {
            Err(DecodeError::UnexpectedEof)
        }
    } else if array_type == 2 {
        if pos + 16 <= b.len() {
            Ok((ArrayValueV::U128(le_u128_at(b, pos)), pos + 16))
        } else {
            Err(DecodeError::UnexpectedEof)
        }
    } else if array_type == 3 || array_type == 4 || array_type == 5 {
        match spec_read_string(b, pos) {
            Err(e) => Err(e),
            Ok((s, p)) => Ok((ArrayValueV::Str(s), p)),
        }
    } else {
        Ok((ArrayValueV::Absent, pos))
    }
}

/// What reading one tagged value at `pos` under `tag` yields: the decoded
/// value and the position just past it, or the first error met. Any tag
/// outside 0x01..=0x08 is `UnknownTagCode`.
pub open spec fn spec_read_value(b: Seq<u8>, pos: int, tag: u8) -> Result<
    (ValueV, int),
    DecodeError,
> {
    if tag == 0x01 {
        if pos + 4 <= b.len() {
            Ok((ValueV::U32(le_u32_at(b, pos)), pos + 4))
        } else {
            Err(DecodeError::UnexpectedEof)
        }
    } else if tag == 0x02 {
        if pos + 16 <= b.len() {
            Ok((ValueV::U128(le_u128_at(b, pos)), pos + 16))
        } else {
            Err(DecodeError::UnexpectedEof)
        }
    } else if tag == 0x03 {
        match spec_read_string(b, pos) {
            Err(e) => Err(e),
            Ok((s, p)) => Ok((ValueV::Text(s), p)),
        }
    } else if tag == 0x04 {
        match spec_read_string(b, pos) {
            Err(e) => Err(e),
            Ok((s, p)) => Ok((ValueV::VariableName(s), p)),
        }
    } else if tag == 0x05 {
        match spec_read_string(b, pos) {
            Err(e) => Err(e),
            Ok((s, p)) => Ok((ValueV::SwitchName(s), p)),
        }
    } else if tag == 0x06 {
        if pos + 33 <= b.len() {
            Ok((
                ValueV::Position {
                    value: le_u128_at(b, pos),
                    data: le_u32_at(b, pos + 16),
                    data2: b[pos + 20],
                    x: le_u32_at(b, pos + 21),
                    y: le_u32_at(b, pos + 25),
                    z: le_u32_at(b, pos + 29),
                },
                pos + 33,
            ))
        } else {
            Err(DecodeError::UnexpectedEof)
        }
    } else if tag == 0x07 {
        match spec_read_string(b, pos) {
            Err(e) => Err(e),
            Ok((name, p)) => if p + 4 <= b.len() {
                match spec_read_array_value(b, p + 4, le_u32_at(b, p)) {
                    Err(e) => Err(e),
                    Ok((av, end)) => Ok((
                        ValueV::Array {
                            array_name: name,
                            array_type: le_u32_at(b, p),
                            value: av,
                        },
                        end,
                    )),
                }
            } else {
                Err(DecodeError::UnexpectedEof)
            },
        }
    } else if tag == 0x08 {
        if pos + 4 <= b.len() {
            Ok((ValueV::Float(le_u32_at(b, pos)), pos + 4))
        } else {
            Err(DecodeError::UnexpectedEof)
        }
    } else {
        Err(DecodeError::UnknownTagCode)
    }
}

/// A successful value read lands on a well-formed value whose shape matches
/// the tag, without moving backwards or past the end.
pub proof fn lemma_read_value_wf(b: Seq<u8>, pos: int, tag: u8, v: ValueV, end: int)
    requires
        0 <= pos <= b.len(),
        spec_read_value(b, pos, tag) == Ok::<(ValueV, int), DecodeError>((v, end)),
    ensures
        wf_value(v),
        tag_of_value(v) == tag,
        pos <= end <= b.len(),
{
    if tag == 0x03 || tag == 0x04 || tag == 0x05 {
        lemma_read_string_ok(b, pos);
    }
    if tag == 0x07 {
        lemma_read_string_ok(b, pos);
        match spec_read_string(b, pos) {
            Ok((name, p)) => {
                if p + 4 <= b.len() {
                    lemma_read_string_ok(b, p + 4);
                }
            },
            Err(_) => {},
        }
    }
}

/// Law: a tag outside 0x01..=0x08 always produces `UnknownTagCode`,
/// whatever bytes follow — value dispatch has no silent-skip fallback.
pub proof fn lemma_unknown_tag_always_errors(b: Seq<u8>, pos: int, tag: u8)
    requires
        !(0x01 <= tag <= 0x08),
    ensures
        spec_read_value(b, pos, tag) == Err::<(ValueV, int), DecodeError>(
            DecodeError::UnknownTagCode,
        ),
{
}

/// A successful value read consumes at least as many bytes as the canonical
/// re-encoding of the value it yields.
pub proof fn lemma_read_value_consumed(b: Seq<u8>, pos: int, tag: u8)
    requires
        0 <= pos <= b.len(),
    ensures
        (match spec_read_value(b, pos, tag) {
            Ok(p) => spec_encode_value(p.0).len() <= p.1 - pos,
            Err(_) => true,
        }),
{
    if tag == 0x01 {
        lemma_le_bytes_len(le_u32_at(b, pos) as nat, 4);
    } else if tag == 0x02 {
        lemma_le_bytes_len(le_u128_at(b, pos) as nat, 16);
    } else if tag == 0x03 || tag == 0x04 || tag == 0x05 {
        lemma_read_string_consumed(b, pos);
    } else if tag == 0x06 {
        lemma_le_bytes_len(le_u128_at(b, pos) as nat, 16);
        lemma_le_bytes_len(le_u32_at(b, pos + 16) as nat, 4);
        lemma_le_bytes_len(le_u32_at(b, pos + 21) as nat, 4);
        lemma_le_bytes_len(le_u32_at(b, pos + 25) as nat, 4);
        lemma_le_bytes_len(le_u32_at(b, pos + 29) as nat, 4);
    } else if tag == 0x07 {
        lemma_read_string_consumed(b, pos);
        lemma_read_string_ok(b, pos);
        match spec_read_string(b, pos) {
            Ok((name, p)) => {
                if p + 4 <= b.len() {
                    let at = le_u32_at(b, p);
                    lemma_le_bytes_len(at as nat, 4);
                    if at == 1 || at == 0xFF {
                        lemma_le_bytes_len(le_u32_at(b, p + 4) as nat, 4);
                    } else if at == 2 {
                        lemma_le_bytes_len(le_u128_at(b, p + 4) as nat, 16);
                    } else if at == 3 || at == 4 || at == 5 {
                        lemma_read_string_consumed(b, p + 4);
                    }
                }
            },
            Err(_) => {},
        }
    } else if tag == 0x08 {
        lemma_le_bytes_len(le_u32_at(b, pos) as nat, 4);
    }
}

/// Reading at a position where the wire form of a well-formed value lies,
/// under that value's own tag, yields exactly that value back.
pub proof fn lemma_read_value_at(b: Seq<u8>, pos: int, v: ValueV)
    requires
        0 <= pos,
        wf_value(v),
        pos + spec_encode_value(v).len() <= b.len(),
        b.subrange(pos, pos + spec_encode_value(v).len()) == spec_encode_value(v),
    ensures
        spec_read_value(b, pos, tag_of_value(v)) == Ok::<(ValueV, int), DecodeError>((
            v,
            pos + spec_encode_value(v).len(),
        )),
{
    lemma_pow256_values();
    match v {
        ValueV::U32(x) => {
            lemma_le_bytes_len(x as nat, 4);
            lemma_le_round_trip(x as nat, 4);
        },
        ValueV::U128(x) => {
            lemma_le_bytes_len(x as nat, 16);
            lemma_le_round_trip(x as nat, 16);
        },
        ValueV::Text(s) => {
            lemma_read_string_at(b, pos, s);
        },
        ValueV::VariableName(s) => {
            lemma_read_string_at(b, pos, s);
        },
        ValueV::SwitchName(s) => {
            lemma_read_string_at(b, pos, s);
        },
        ValueV::Position { value, data, data2, x, y, z } => {
            let pa = le_bytes(value as nat, 16);
            let pb = le_bytes(data as nat, 4);
            let pc = seq![data2];
            let pd = le_bytes(x as nat, 4);
            let pe = le_bytes(y as nat, 4);
            let pf = le_bytes(z as nat, 4);
            lemma_le_bytes_len(value as nat, 16);
            lemma_le_bytes_len(data as nat, 4);
            lemma_le_bytes_len(x as nat, 4);
            lemma_le_bytes_len(y as nat, 4);
            lemma_le_bytes_len(z as nat, 4);
            assert(spec_encode_value(v) =~= pa + (pb + (pc + (pd + (pe + pf)))));
            crate::bytes::lemma_split_at(b, pos, pa, pb + (pc + (pd + (pe + pf))));
            crate::bytes::lemma_split_at(b, pos + 16, pb, pc + (pd + (pe + pf)));
            crate::bytes::lemma_split_at(b, pos + 20, pc, pd + (pe + pf));
            crate::bytes::lemma_split_at(b, pos + 21, pd, pe + pf);
            crate::bytes::lemma_split_at(b, pos + 25, pe, pf);
            lemma_le_round_trip(value as nat, 16);
            lemma_le_round_trip(data as nat, 4);
            lemma_le_round_trip(x as nat, 4);
            lemma_le_round_trip(y as nat, 4);
            lemma_le_round_trip(z as nat, 4);
            assert(b.subrange(pos + 20, pos + 21)[0] == b[pos + 20]);
        },
        ValueV::Array { array_name, array_type, value } => {
            let pn = spec_encode_string(array_name);
            let pt = le_bytes(array_type as nat, 4);
            let pp = spec_encode_array_value(value);
            lemma_le_bytes_len(array_type as nat, 4);
            assert(spec_encode_value(v) =~= pn + (pt + pp));
            crate::bytes::lemma_split_at(b, pos, pn, pt + pp);
            crate::bytes::lemma_split_at(b, pos + pn.len() as int, pt, pp);
            lemma_read_string_at(b, pos, array_name);
            let p = pos + pn.len() as int;
            lemma_le_round_trip(array_type as nat, 4);
            match value {
                ArrayValueV::U32(xx) => {
                    lemma_le_bytes_len(xx as nat, 4);
                    lemma_le_round_trip(xx as nat, 4);
                },
                ArrayValueV::U128(xx) => {
                    lemma_le_bytes_len(xx as nat, 16);
                    lemma_le_round_trip(xx as nat, 16);
                },
                ArrayValueV::Str(s) => {
                    lemma_read_string_at(b, p + 4, s);
                },
                ArrayValueV::Absent => {},
            }
        },
        ValueV::Float(x) => {
            lemma_le_bytes_len(x as nat, 4);
            lemma_le_round_trip(x as nat, 4);
        },
    }
}

/// Read one tagged value from `b` at `pos` under `tag`.
pub fn read_value(b: &Vec<u8>, pos: usize, tag: u8) -> (r: Result<
    (EventDataType, usize),
    DecodeError,
>)
    requires
        pos <= b@.len(),
    ensures
        (match r {
            Ok(p) => spec_read_value(b@, pos as int, tag) == Ok::<(ValueV, int), DecodeError>((
                p.0@,
                p.1 as int,
            )) && wf_value(p.0@) && pos <= p.1 <= b@.len(),
            Err(e) => spec_read_value(b@, pos as int, tag) == Err::<(ValueV, int), DecodeError>(e),
        }),
{
    let n = b.len();
    if tag == 0x01 {
        if n - pos < 4 {
            return Err(DecodeError::UnexpectedEof);
        }
        Ok((EventDataType::U32(read_u32_le(b, pos)), pos + 4))
    } else if tag == 0x02 {
        if n - pos < 16 {
            return Err(DecodeError::UnexpectedEof);
        }
        Ok((EventDataType::U128(read_u128_le(b, pos)), pos + 16))
    } else if tag == 0x03 {
        match read_sized_string(b, pos) {
            Err(e) => Err(e),
            Ok((s, p)) => {
                proof {
                    lemma_read_string_ok(b@, pos as int);
                }
                Ok((EventDataType::Text(s), p))
            },
        }
    } else if tag == 0x04 {
        match read_sized_string(b, pos) {
            Err(e) => Err(e),
            Ok((s, p)) => {
                proof {
                    lemma_read_string_ok(b@, pos as int);
                }
                Ok((EventDataType::VariableName(s), p))
            },
        }
    } else if tag == 0x05 {
        match read_sized_string(b, pos) {
            Err(e) => Err(e),
            Ok((s, p)) => {
                proof {
                    lemma_read_string_ok(b@, pos as int);
                }
                Ok((EventDataType::SwitchName(s), p))
            },
        }
    } else if tag == 0x06 {
        if n - pos < 33 {
            return Err(DecodeError::UnexpectedEof);
        }
        let value = read_u128_le(b, pos);
        let data = read_u32_le(b, pos + 16);
        let data2 = read_u8(b, pos + 20);
        let x = read_u32_le(b, pos + 21);
        let y = read_u32_le(b, pos + 25);
        let z = read_u32_le(b, pos + 29);
        Ok((EventDataType::Position { value, data, data2, x, y, z }, pos + 33))
    } else if tag == 0x07 {
        let (name, p) = match read_sized_string(b, pos) {
            Err(e) => {
                return Err(e);
            },
            Ok(x) => x,
        };
        proof {
            lemma_read_string_ok(b@, pos as int);
        }
        if n - p < 4 {
            return Err(DecodeError::UnexpectedEof);
        }
        let array_type = read_u32_le(b, p);
        let q = p + 4;
        let (av, end): (ArrayValue, usize) = if array_type == 1 || array_type == 0xFF {
            if n - q < 4 {
                return Err(DecodeError::UnexpectedEof);
            }
            (ArrayValue::U32(read_u32_le(b, q)), q + 4)
        } else if array_type == 2 {
            if n - q < 16 {
                return Err(DecodeError::UnexpectedEof);
            }
            (ArrayValue::U128(read_u128_le(b, q)), q + 16)
        } else if array_type == 3 || array_type == 4 || array_type == 5 {
            match read_sized_string(b, q) {
                Err(e) => {
                    return Err(e);
                },
                Ok((s, p2)) => {
                    proof {
                        lemma_read_string_ok(b@, q as int);
                    }
                    (ArrayValue::Str(s), p2)
                },
            }
        } else {
            (ArrayValue::Absent, q)
        };
        Ok((EventDataType::Array { array_name: name, array_type, value: av }, end))
    } else if tag == 0x08 {
        if n - pos < 4 {
            return Err(DecodeError::UnexpectedEof);
        }
        Ok((EventDataType::Float(read_u32_le(b, pos)), pos + 4))
    } else {
        Err(DecodeError::UnknownTagCode)
    }
}

/// Append the wire form of `v` to `out`.
pub fn write_value(out: &mut Vec<u8>, v: &EventDataType)
    ensures
        final(out)@ == old(out)@ + spec_encode_value(v@),
{
    match v {
        EventDataType::U32(x) => write_u32_le(out, *x),
        EventDataType::U128(x) => write_u128_le(out, *x),
        EventDataType::Text(s) => write_sized_string(out, s),
        EventDataType::VariableName(s) => write_sized_string(out, s),
        EventDataType::SwitchName(s) => write_sized_string(out, s),
        EventDataType::Position { value, data, data2, x, y, z } => {
            let ghost o0 = out@;
            write_u128_le(out, *value);
            write_u32_le(out, *data);
            write_u8(out, *data2);
            write_u32_le(out, *x);
            write_u32_le(out, *y);
            write_u32_le(out, *z);
            proof {
                assert(out@ =~= o0 + spec_encode_value(v@));
            }
        },
        EventDataType::Array { array_name, array_type, value } => {
            let ghost o0 = out@;
            write_sized_string(out, array_name);
            write_u32_le(out, *array_type);
            match value {
                ArrayValue::U32(x) => write_u32_le(out, *x),
                ArrayValue::U128(x) => write_u128_le(out, *x),
                ArrayValue::Str(s) => write_sized_string(out, s),
                ArrayValue::Absent => {},
            }
            proof {
                assert(out@ =~= o0 + spec_encode_value(v@));
            }
        },
        EventDataType::Float(x) => write_u32_le(out, *x),
    }
}

} // verus!
