//! Length-prefixed strings: a varint byte length followed by that many
//! bytes of UTF-8. Never null-terminated.

use vstd::prelude::*;
use crate::bytes::{append_bytes, copy_range};
use crate::err::DecodeError;
use crate::utf8::{is_utf8, validate_utf8};
use crate::varint::{read_varint, spec_encode_varint, spec_read_varint, write_varint};

verus! {

/// An owned string whose wire form is its varint byte length followed by
/// its raw UTF-8 bytes.
///
/// The view is the byte sequence; well-formedness says those bytes are
/// valid UTF-8.
#[derive(Debug, Clone)]
pub struct SizedString {
    bytes: Vec<u8>,
}

impl View for SizedString {
    type V = Seq<u8>;

    closed spec fn view(&self) -> Seq<u8> {
        self.bytes@
    }
}

impl SizedString {
    /// The bytes are well-formed UTF-8.
    pub open spec fn wf(&self) -> bool {
        is_utf8(self@)
    }

    /// Wrap `bytes` as a string, rejecting anything that is not UTF-8.
    pub fn new(bytes: Vec<u8>) -> (r: Result<SizedString, DecodeError>)
        ensures
            (match r {
                Ok(s) => s@ == bytes@ && s.wf(),
                Err(e) => e == DecodeError::InvalidUtf8 && !is_utf8(bytes@),
            }),
    {
        if validate_utf8(&bytes) {
            Ok(SizedString { bytes })
        } else {
            Err(DecodeError::InvalidUtf8)
        }
    }

    /// The owned bytes.
    pub fn as_bytes(&self) -> (r: &Vec<u8>)
        ensures
            r@ == self@,
    {
        &self.bytes
    }

    /// The byte length.
    pub fn byte_len(&self) -> (r: usize)
        ensures
            r == self@.len(),
    {
        self.bytes.len()
    }
}

/// The wire form of string bytes `s`: varint length, then the bytes.
pub open spec fn spec_encode_string(s: Seq<u8>) -> Seq<u8> {
    spec_encode_varint(s.len()) + s
}

/// What reading a length-prefixed string at `pos` yields: the string bytes
/// and the position just past them, or the first error met — a malformed
/// length, too few bytes, or bytes that are not UTF-8.
pub open spec fn spec_read_string(b: Seq<u8>, pos: int) -> Result<(Seq<u8>, int), DecodeError> {
    match spec_read_varint(b, pos) {
        Err(e) => Err(e),
        Ok((l, p)) => if p + l > b.len() {
            Err(DecodeError::UnexpectedEof)
        } else if !is_utf8(b.subrange(p, p + l)) {
            Err(DecodeError::InvalidUtf8)
        } else {
            Ok((b.subrange(p, p + l), p + l))
        },
    }
}

/// A successful string read stays within bounds and lands on UTF-8 bytes
/// short enough to re-encode.
pub proof fn lemma_read_string_ok(b: Seq<u8>, pos: int)
    requires
        0 <= pos <= b.len(),
    ensures
        (match spec_read_string(b, pos) {
            Ok(p) => pos < p.1 <= b.len() && is_utf8(p.0) && p.0.len() <= u64::MAX && p.0
                == b.subrange(p.1 - p.0.len(), p.1),
            Err(_) => true,
        }),
{
    crate::varint::lemma_varint_end_bounds(b, pos);
}

/// A successful string read consumes at least as many bytes as the
/// canonical re-encoding of the string it yields (the length prefix the
/// reader accepted may have been longer than minimal).
pub proof fn lemma_read_string_consumed(b: Seq<u8>, pos: int)
    requires
        0 <= pos,
    ensures
        (match spec_read_string(b, pos) {
            Ok(p) => spec_encode_string(p.0).len() <= p.1 - pos,
            Err(_) => true,
        }),
{
    crate::varint::lemma_read_varint_consumed(b, pos);
    crate::varint::lemma_varint_end_bounds(b, pos);
}

/// Read one length-prefixed string from `b` starting at `pos`.
pub fn read_sized_string(b: &Vec<u8>, pos: usize) -> (r: Result<(SizedString, usize), DecodeError>)
    requires
        pos <= b@.len(),
    ensures
        (match r {
            Ok(p) => spec_read_string(b@, pos as int) == Ok::<(Seq<u8>, int), DecodeError>((
                p.0@,
                p.1 as int,
            )) && p.0.wf() && pos <= p.1 <= b@.len(),
            Err(e) => spec_read_string(b@, pos as int) == Err::<(Seq<u8>, int), DecodeError>(e),
        }),
{
    let (l, p) = match read_varint(b, pos) {
        Ok(x) => x,
        Err(e) => {
            return Err(e);
        },
    };
    if l > (b.len() - p) as u64 {
        return Err(DecodeError::UnexpectedEof);
    }
    let end = p + l as usize;
    let raw = copy_range(b, p, end);
    if !validate_utf8(&raw) {
        return Err(DecodeError::InvalidUtf8);
    }
    Ok((SizedString { bytes: raw }, end))
}

/// Append the wire form of `s` to `out`.
pub fn write_sized_string(out: &mut Vec<u8>, s: &SizedString)
    ensures
        final(out)@ == old(out)@ + spec_encode_string(s@),
{
    write_varint(out, s.bytes.len() as u64);
    append_bytes(out, &s.bytes);
    proof {
        assert((old(out)@ + spec_encode_varint(s@.len())) + s@
            =~= old(out)@ + spec_encode_string(s@));
    }
}

/// Reading at a position where the wire form of string bytes `s` lies
/// yields `s` and stops just past it, whatever follows.
pub proof fn lemma_read_string_at(b: Seq<u8>, pos: int, s: Seq<u8>)
    requires
        0 <= pos,
        is_utf8(s),
        s.len() <= u64::MAX,
        pos + spec_encode_string(s).len() <= b.len(),
        b.subrange(pos, pos + spec_encode_string(s).len()) == spec_encode_string(s),
    ensures
        spec_read_string(b, pos) == Ok::<(Seq<u8>, int), DecodeError>((
            s,
            pos + spec_encode_string(s).len(),
        )),
{
    let ev = spec_encode_varint(s.len());
    let enc = spec_encode_string(s);
    assert(b.subrange(pos, pos + ev.len() as int) =~= ev) by {
        assert(forall|k: int|
            0 <= k < ev.len() ==> b.subrange(pos, pos + enc.len() as int)[k] == enc[k]);
    }
    crate::varint::lemma_read_varint_at(b, pos, s.len() as u64);
    let p = pos + ev.len() as int;
    assert(b.subrange(p, p + s.len() as int) =~= s) by {
        assert(forall|k: int|
            0 <= k < enc.len() ==> b.subrange(pos, pos + enc.len() as int)[k] == enc[k]);
        assert(forall|k: int| 0 <= k < s.len() ==> enc[ev.len() + k] == s[k]);
    }
}

/// Round trip: reading the wire form of UTF-8 bytes `s` from its start
/// yields `s` exactly.
pub proof fn lemma_string_round_trip(s: Seq<u8>)
    requires
        is_utf8(s),
        s.len() <= u64::MAX,
    ensures
        spec_read_string(spec_encode_string(s), 0) == Ok::<(Seq<u8>, int), DecodeError>((
            s,
            spec_encode_string(s).len() as int,
        )),
{
    let enc = spec_encode_string(s);
    assert(enc.subrange(0, enc.len() as int) =~= enc);
    lemma_read_string_at(enc, 0, s);
}

} // verus!
