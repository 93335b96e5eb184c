//! Variable-length unsigned integers: 7 payload bits per byte, low bits
//! first, with the high bit of each byte flagging a continuation.
//!
//! Reading accepts any properly terminated encoding whose value fits in 64
//! bits (extra leading zero groups included); writing always emits the
//! canonical minimal form.

use vstd::prelude::*;
use crate::err::DecodeError;

verus! {

/// The value carried by a varint byte sequence: each byte contributes its
/// low 7 bits, least-significant group first.
pub open spec fn varint_value(s: Seq<u8>) -> nat
    decreases s.len(),
{
    if s.len() == 0 {
        0
    } else {
        (s[0] as nat) % 128 + 128 * varint_value(s.skip(1))
    }
}

/// A complete varint: every byte but the last has its continuation bit set,
/// and the last does not.
pub open spec fn is_varint(s: Seq<u8>) -> bool {
    &&& s.len() > 0
    &&& forall|i: int| 0 <= i < s.len() - 1 ==> s[i] >= 128
    &&& s[s.len() - 1] < 128
}

/// Position just past the varint that starts at `pos`, if its terminator
/// byte lies within `b`.
pub open spec fn varint_end(b: Seq<u8>, pos: int) -> Option<int>
    decreases b.len() - pos,
{
    if pos < 0 || pos >= b.len() {
        None
    } else if b[pos] < 128 {
        Some(pos + 1)
    } else {
        varint_end(b, pos + 1)
    }
}

/// What reading a varint at `pos` yields: the value and the position just
/// past it, or `MalformedVarint` if the sequence ends before its terminator
/// or the value does not fit in 64 bits.
pub open spec fn spec_read_varint(b: Seq<u8>, pos: int) -> Result<(u64, int), DecodeError> {
    match varint_end(b, pos) {
        None => Err(DecodeError::MalformedVarint),
        Some(end) => {
            let v = varint_value(b.subrange(pos, end));
            if v > u64::MAX as nat {
                Err(DecodeError::MalformedVarint)
            } else {
                Ok((v as u64, end))
            }
        },
    }
}

/// The canonical minimal encoding of `n`.
pub open spec fn spec_encode_varint(n: nat) -> Seq<u8>
    decreases n,
{
    if n < 128 {
        seq![n as u8]
    } else {
        seq![(n % 128 + 128) as u8] + spec_encode_varint(n / 128)
    }
}

/// The canonical encoding is a complete varint, carries exactly `n`, and is
/// never empty.
pub proof fn lemma_encode_varint_props(n: nat)
    ensures
        is_varint(spec_encode_varint(n)),
        varint_value(spec_encode_varint(n)) == n,
        spec_encode_varint(n).len() >= 1,
    decreases n,
{
    if n < 128 {
        let s = spec_encode_varint(n);
        assert(s =~= seq![n as u8]);
        assert(s.skip(1) =~= Seq::<u8>::empty());
        assert(varint_value(Seq::<u8>::empty()) == 0);
        assert(varint_value(s) == (s[0] as nat) % 128);
    } else {
        lemma_encode_varint_props(n / 128);
        let rest = spec_encode_varint(n / 128);
        let s = spec_encode_varint(n);
        assert(s =~= seq![(n % 128 + 128) as u8] + rest);
        assert(s.skip(1) =~= rest);
        assert(s[0] as nat % 128 == n % 128);
        assert(forall|i: int| 0 <= i < s.len() - 1 ==> s[i] >= 128) by {
            assert(forall|i: int| 1 <= i < s.len() - 1 ==> s[i] == rest[i - 1]);
        }
    }
}

/// No complete varint carrying `n` is shorter than the canonical encoding.
pub proof fn lemma_varint_minimal(n: nat, s: Seq<u8>)
    requires
        is_varint(s),
        varint_value(s) == n,
    ensures
        spec_encode_varint(n).len() <= s.len(),
    decreases s.len(),
{
    if n >= 128 {
        // A one-byte varint carries a value below 128, so s has at least two
        // bytes and its tail is a complete varint carrying n / 128.
        assert(s.len() >= 2) by {
            if s.len() == 1 {
                assert(s.skip(1) =~= Seq::<u8>::empty());
                assert(varint_value(Seq::<u8>::empty()) == 0);
                assert(varint_value(s) == (s[0] as nat) % 128);
            }
        }
        let t = s.skip(1);
        assert(is_varint(t)) by {
            assert(forall|i: int| 0 <= i < t.len() - 1 ==> t[i] == s[i + 1]);
            assert(t[t.len() - 1] == s[s.len() - 1]);
        }
        assert(n == (s[0] as nat) % 128 + 128 * varint_value(t));
        assert(varint_value(t) == n / 128) by {
            assert(n % 128 == (s[0] as nat) % 128);
        }
        lemma_varint_minimal(n / 128, t);
    }
}

/// Prepending continuation bytes never lowers the carried value.
proof fn lemma_varint_value_suffix(b: Seq<u8>, pos: int, j: int, end: int)
    requires
        0 <= pos <= j <= end <= b.len(),
    ensures
        varint_value(b.subrange(pos, end)) >= varint_value(b.subrange(j, end)),
    decreases j - pos,
{
    if pos < j {
        assert(b.subrange(pos, end).skip(1) =~= b.subrange(pos + 1, end));
        lemma_varint_value_suffix(b, pos + 1, j, end);
        assert(varint_value(b.subrange(pos, end))
            == (b[pos] as nat) % 128 + 128 * varint_value(b.subrange(pos + 1, end)));
    }
}

/// If the bytes from `pos` to `end` form a complete varint, the scan for a
/// terminator stops exactly at `end`.
proof fn lemma_varint_end_of(b: Seq<u8>, pos: int, end: int)
    requires
        0 <= pos < end <= b.len(),
        is_varint(b.subrange(pos, end)),
    ensures
        varint_end(b, pos) == Some(end),
    decreases end - pos,
{
    let s = b.subrange(pos, end);
    if end == pos + 1 {
        assert(b[pos] == s[0]);
    } else {
        assert(b[pos] == s[0] && s[0] >= 128);
        assert(is_varint(b.subrange(pos + 1, end))) by {
            let t = b.subrange(pos + 1, end);
            assert(forall|i: int| 0 <= i < t.len() ==> t[i] == s[i + 1]);
        }
        lemma_varint_end_of(b, pos + 1, end);
    }
}

/// A found terminator lies strictly past `pos` and within `b`.
pub proof fn lemma_varint_end_bounds(b: Seq<u8>, pos: int)
    ensures
        (match varint_end(b, pos) {
            Some(e) => pos < e <= b.len(),
            None => true,
        }),
    decreases b.len() - pos,
{
    if 0 <= pos < b.len() && b[pos] >= 128 {
        lemma_varint_end_bounds(b, pos + 1);
    }
}

/// The bytes from `pos` to a found terminator form a complete varint.
pub proof fn lemma_varint_end_is_varint(b: Seq<u8>, pos: int)
    ensures
        (match varint_end(b, pos) {
            Some(e) => is_varint(b.subrange(pos, e)) && varint_value(b.subrange(pos, e))
                == varint_value(b.subrange(pos, e)),
            None => true,
        }),
    decreases b.len() - pos,
{
    if 0 <= pos < b.len() {
        lemma_varint_end_bounds(b, pos);
        if b[pos] < 128 {
            assert(b.subrange(pos, pos + 1) =~= seq![b[pos]]);
        } else {
            lemma_varint_end_is_varint(b, pos + 1);
            lemma_varint_end_bounds(b, pos + 1);
            match varint_end(b, pos + 1) {
                Some(e) => {
                    let s = b.subrange(pos, e);
                    let t = b.subrange(pos + 1, e);
                    assert(forall|i: int| 1 <= i < s.len() ==> s[i] == t[i - 1]);
                    assert(s[0] == b[pos]);
                    assert(s[s.len() - 1] == t[t.len() - 1]);
                },
                None => {},
            }
        }
    }
}

/// A successful varint read consumes at least as many bytes as the
/// canonical re-encoding of the value it yields.
pub proof fn lemma_read_varint_consumed(b: Seq<u8>, pos: int)
    requires
        0 <= pos,
    ensures
        (match spec_read_varint(b, pos) {
            Ok((v, end)) => spec_encode_varint(v as nat).len() <= end - pos,
            Err(_) => true,
        }),
{
    match varint_end(b, pos) {
        Some(e) => {
            lemma_varint_end_bounds(b, pos);
            lemma_varint_end_is_varint(b, pos);
            let s = b.subrange(pos, e);
            if varint_value(s) <= u64::MAX as nat {
                lemma_varint_minimal(varint_value(s), s);
            }
        },
        None => {},
    }
}

/// Reading at a position where the canonical encoding of `n` lies yields
/// `n` and stops just past it, whatever follows.
pub proof fn lemma_read_varint_at(b: Seq<u8>, pos: int, n: u64)
    requires
        0 <= pos,
        pos + spec_encode_varint(n as nat).len() <= b.len(),
        b.subrange(pos, pos + spec_encode_varint(n as nat).len()) == spec_encode_varint(n as nat),
    ensures
        spec_read_varint(b, pos) == Ok::<(u64, int), DecodeError>((
            n,
            pos + spec_encode_varint(n as nat).len(),
        )),
{
    lemma_encode_varint_props(n as nat);
    let len = spec_encode_varint(n as nat).len() as int;
    lemma_varint_end_of(b, pos, pos + len);
}

/// Round trip at the spec level: reading the canonical encoding of `n` from
/// its start yields `n` exactly, and the encoding is complete and minimal.
pub proof fn lemma_varint_round_trip(n: u64)
    ensures
        is_varint(spec_encode_varint(n as nat)),
        varint_value(spec_encode_varint(n as nat)) == n as nat,
        spec_read_varint(spec_encode_varint(n as nat), 0) == Ok::<(u64, int), DecodeError>((
            n,
            spec_encode_varint(n as nat).len() as int,
        )),
        forall|s: Seq<u8>|
            is_varint(s) && varint_value(s) == n as nat
                ==> #[trigger] s.len() >= spec_encode_varint(n as nat).len(),
{
    lemma_encode_varint_props(n as nat);
    let e = spec_encode_varint(n as nat);
    assert(e.subrange(0, e.len() as int) =~= e);
    lemma_read_varint_at(e, 0, n);
    assert forall|s: Seq<u8>|
        is_varint(s) && varint_value(s) == n as nat implies #[trigger] s.len() >= e.len() by {
        lemma_varint_minimal(n as nat, s);
    }
}

/// Read one varint from `b` starting at `pos`.
pub fn read_varint(b: &Vec<u8>, pos: usize) -> (r: Result<(u64, usize), DecodeError>)
    requires
        pos <= b@.len(),
    ensures
        (match r {
            Ok(p) => spec_read_varint(b@, pos as int) == Ok::<(u64, int), DecodeError>((
                p.0,
                p.1 as int,
            )) && pos < p.1 <= b@.len(),
            Err(e) => spec_read_varint(b@, pos as int) == Err::<(u64, int), DecodeError>(e),
        }),
{
    let mut i: usize = pos;
    while i < b.len() && b[i] >= 128
        invariant
            pos <= i <= b@.len(),
            varint_end(b@, pos as int) == varint_end(b@, i as int),
        decreases b@.len() - i,
    {
        i = i + 1;
    }
    if i == b.len() {
        return Err(DecodeError::MalformedVarint);
    }
    let end = i + 1;
    assert(varint_end(b@, pos as int) == Some(end as int));

    let mut v: u64 = 0;
    let mut j: usize = end;
    while j > pos
        invariant
            pos <= j <= end <= b@.len(),
            varint_end(b@, pos as int) == Some(end as int),
            v as nat == varint_value(b@.subrange(j as int, end as int)),
        decreases j - pos,
    {
        let byte = b[j - 1];
        let p = byte % 128;
        proof {
            assert(b@.subrange(j as int - 1, end as int).skip(1)
                =~= b@.subrange(j as int, end as int));
            assert(varint_value(b@.subrange(j as int - 1, end as int))
                == (p as nat) + 128 * (v as nat));
        }
        if v > (u64::MAX - p as u64) / 128 {
            proof {
                lemma_varint_value_suffix(b@, pos as int, j as int - 1, end as int);
            }
            return Err(DecodeError::MalformedVarint);
        }
        v = p as u64 + 128 * v;
        j = j - 1;
    }
    assert(b@.subrange(pos as int, end as int) == b@.subrange(j as int, end as int));
    Ok((v, end))
}

/// Append the canonical encoding of `n` to `out`.
pub fn write_varint(out: &mut Vec<u8>, n: u64)
    ensures
        final(out)@ == old(out)@ + spec_encode_varint(n as nat),
{
    let ghost orig = out@;
    let mut m = n;
    while m >= 128
        invariant
            out@ + spec_encode_varint(m as nat) == orig + spec_encode_varint(n as nat),
        decreases m,
    {
        let b = (m % 128 + 128) as u8;
        proof {
            assert((out@ + seq![b]) + spec_encode_varint(m as nat / 128)
                =~= out@ + (seq![b] + spec_encode_varint(m as nat / 128)));
            assert(out@.push(b) =~= out@ + seq![b]);
        }
        out.push(b);
        m = m / 128;
    }
    proof {
        assert(out@.push(m as u8) =~= out@ + seq![m as u8]);
    }
    out.push(m as u8);
}

} // verus!
