//! Textual hexadecimal for raw byte blobs and 128-bit integers, used only
//! at the structured-text boundary.
//!
//! Emission is always lowercase; parsing accepts either case. A blob
//! renders as two digits per byte; a 128-bit integer renders as exactly 32
//! digits, zero-padded, most significant first.

use vstd::prelude::*;
use crate::bytes::{le_bytes, lemma_le_bytes_len, lemma_le_round_trip, lemma_pow256_values,
    pow256, write_u128_le};
use crate::err::DecodeError;

verus! {

/// An ASCII hexadecimal digit, either case.
pub open spec fn is_hex_digit(c: u8) -> bool {
    (0x30 <= c <= 0x39) || (0x61 <= c <= 0x66) || (0x41 <= c <= 0x46)
}

/// The numeric value of a hexadecimal digit.
pub open spec fn hex_val(c: u8) -> nat
    recommends
        is_hex_digit(c),
{
    if 0x30 <= c <= 0x39 {
        (c - 0x30) as nat
    } else if 0x61 <= c <= 0x66 {
        (c - 87) as nat
    } else if 0x41 <= c <= 0x46 {
        (c - 55) as nat
    } else {
        0
    }
}

/// The lowercase digit for a value below 16.
pub open spec fn hex_digit(n: nat) -> u8
    recommends
        n < 16,
{
    if n < 10 {
        (0x30 + n) as u8
    } else {
        (87 + n) as u8
    }
}

/// The lowercase hex rendering of a byte sequence: two digits per byte,
/// high nibble first.
pub open spec fn hex_of_bytes(s: Seq<u8>) -> Seq<u8>
    decreases s.len(),
{
    if s.len() == 0 {
        Seq::<u8>::empty()
    } else {
        seq![hex_digit((s[0] / 16) as nat), hex_digit((s[0] % 16) as nat)] + hex_of_bytes(
            s.skip(1),
        )
    }
}

/// What parsing a hex string yields: the bytes, or nothing when the length
/// is odd or any character is not a hex digit.
pub open spec fn spec_hex_decode(s: Seq<u8>) -> Option<Seq<u8>>
    decreases s.len(),
{
    if s.len() % 2 != 0 {
        None
    } else if s.len() == 0 {
        Some(Seq::<u8>::empty())
    } else if !(is_hex_digit(s[0]) && is_hex_digit(s[1])) {
        None
    } else {
        match spec_hex_decode(s.skip(2)) {
            None => None,
            Some(r) => Some(seq![(hex_val(s[0]) * 16 + hex_val(s[1])) as u8] + r),
        }
    }
}

/// The value of a big-endian byte sequence, most significant byte first.
pub open spec fn be_value(s: Seq<u8>) -> nat
    decreases s.len(),
{
    if s.len() == 0 {
        0
    } else {
        (s[0] as nat) * pow256((s.len() - 1) as nat) + be_value(s.skip(1))
    }
}

/// The 16 bytes of `v`, most significant first.
pub open spec fn be_bytes_u128(v: u128) -> Seq<u8> {
    Seq::new(16, |i: int| le_bytes(v as nat, 16)[15 - i])
}

/// The 32-digit lowercase hex rendering of a 128-bit integer.
pub open spec fn hex32_of_u128(v: u128) -> Seq<u8> {
    hex_of_bytes(be_bytes_u128(v))
}

/// Appending one byte multiplies the big-endian value by 256 and adds it.
pub proof fn lemma_be_value_snoc(a: Seq<u8>, x: u8)
    ensures
        be_value(a + seq![x]) == be_value(a) * 256 + x,
    decreases a.len(),
{
    if a.len() == 0 {
        assert((a + seq![x]).skip(1) =~= Seq::<u8>::empty());
        assert(be_value(Seq::<u8>::empty()) == 0);
        assert(pow256(0) == 1);
    } else {
        assert((a + seq![x]).skip(1) =~= a.skip(1) + seq![x]);
        lemma_be_value_snoc(a.skip(1), x);
        assert((a + seq![x])[0] == a[0]);
        assert(pow256((a.len()) as nat) == 256 * pow256((a.len() - 1) as nat));
        assert((a[0] as nat) * (256 * pow256((a.len() - 1) as nat)) == ((a[0] as nat) * pow256(
            (a.len() - 1) as nat,
        )) * 256) by (nonlinear_arith);
    }
}

/// A big-endian value fits in its own width.
pub proof fn lemma_be_value_bound(s: Seq<u8>)
    ensures
        be_value(s) < pow256(s.len()),
    decreases s.len(),
{
    if s.len() == 0 {
    } else {
        lemma_be_value_bound(s.skip(1));
        assert(pow256(s.len() as nat) == 256 * pow256((s.len() - 1) as nat));
        assert((s[0] as nat) * pow256((s.len() - 1) as nat) <= 255 * pow256(
            (s.len() - 1) as nat,
        )) by (nonlinear_arith)
            requires
                s[0] <= 255,
        ;
    }
}

/// Reversing a little-endian sequence gives the same value read big-endian.
pub proof fn lemma_be_of_reversed_le(s: Seq<u8>)
    ensures
        be_value(Seq::new(s.len(), |i: int| s[s.len() - 1 - i])) == crate::bytes::le_value(s),
    decreases s.len(),
{
    let r = Seq::new(s.len(), |i: int| s[s.len() - 1 - i]);
    if s.len() == 0 {
        assert(r =~= Seq::<u8>::empty());
    } else {
        let t = s.skip(1);
        let rt = Seq::new(t.len(), |i: int| t[t.len() - 1 - i]);
        lemma_be_of_reversed_le(t);
        assert(r =~= rt + seq![s[0]]);
        lemma_be_value_snoc(rt, s[0]);
    }
}

/// Render `b` as lowercase hex, two digits per byte.
pub fn bytes_to_hex(b: &Vec<u8>) -> (r: Vec<u8>)
    ensures
        r@ == hex_of_bytes(b@),
{
    let n = b.len();
    let mut r: Vec<u8> = Vec::new();
    let mut i: usize = 0;
    proof {
        assert(b@.take(0) =~= Seq::<u8>::empty());
        assert(hex_of_bytes(Seq::<u8>::empty()) == Seq::<u8>::empty());
        assert(r@ =~= Seq::<u8>::empty());
    }
    while i < n
        invariant
            i <= n,
            n == b@.len(),
            r@ == hex_of_bytes(b@.take(i as int)),
        decreases n - i,
    {
        let byte = b[i];
        let hi = byte / 16;
        let lo = byte % 16;
        let hd: u8 = if hi < 10 {
            0x30 + hi
        } else {
            87 + hi
        };
        let ld: u8 = if lo < 10 {
            0x30 + lo
        } else {
            87 + lo
        };
        proof {
            let a = b@.take(i as int);
            let one = seq![b@[i as int]];
            assert(b@.take(i as int + 1) =~= a + one);
            lemma_hex_of_bytes_concat(a, one);
            assert(one.skip(1) =~= Seq::<u8>::empty());
            assert(hex_of_bytes(Seq::<u8>::empty()) == Seq::<u8>::empty());
            assert(hex_of_bytes(one) =~= seq![hd, ld]);
            assert(r@.push(hd).push(ld) =~= r@ + seq![hd, ld]);
        }
        r.push(hd);
        r.push(ld);
        i = i + 1;
    }
    proof {
        assert(b@.take(n as int) =~= b@);
    }
    r
}

/// Hex rendering distributes over concatenation.
pub proof fn lemma_hex_of_bytes_concat(a: Seq<u8>, c: Seq<u8>)
    ensures
        hex_of_bytes(a + c) == hex_of_bytes(a) + hex_of_bytes(c),
    decreases a.len(),
{
    if a.len() == 0 {
        assert(a + c =~= c);
        assert(hex_of_bytes(a) == Seq::<u8>::empty());
        assert(Seq::<u8>::empty() + hex_of_bytes(c) =~= hex_of_bytes(c));
    } else {
        assert((a + c).skip(1) =~= a.skip(1) + c);
        lemma_hex_of_bytes_concat(a.skip(1), c);
        assert((a + c)[0] == a[0]);
        let pair = seq![hex_digit((a[0] / 16) as nat), hex_digit((a[0] % 16) as nat)];
        assert(pair + (hex_of_bytes(a.skip(1)) + hex_of_bytes(c)) =~= (pair + hex_of_bytes(
            a.skip(1),
        )) + hex_of_bytes(c));
    }
}

/// Parse a hex string into bytes. Succeeds exactly when the length is even
/// and every character is a hex digit of either case.
pub fn hex_to_bytes(s: &Vec<u8>) -> (r: Result<Vec<u8>, DecodeError>)
    ensures
        (match r {
            Ok(v) => spec_hex_decode(s@) == Some(v@),
            Err(e) => e == DecodeError::TextDocumentMismatch && spec_hex_decode(s@) is None,
        }),
{
    let n = s.len();
    if n % 2 != 0 {
        return Err(DecodeError::TextDocumentMismatch);
    }
    let mut out: Vec<u8> = Vec::new();
    let mut i: usize = 0;
    proof {
        assert(s@.skip(0) =~= s@);
        assert(out@ =~= Seq::<u8>::empty());
        match spec_hex_decode(s@) {
            Some(v) => {
                assert(Seq::<u8>::empty() + v =~= v);
            },
            None => {},
        }
    }
    while i < n
        invariant
            i <= n,
            i % 2 == 0,
            n % 2 == 0,
            n == s@.len(),
            spec_hex_decode(s@) == (match spec_hex_decode(s@.skip(i as int)) {
                None => None::<Seq<u8>>,
                Some(rest) => Some(out@ + rest),
            }),
        decreases n - i,
    {
        let c0 = s[i];
        let c1 = s[i + 1];
        proof {
            assert(s@.skip(i as int)[0] == s@[i as int]);
            assert(s@.skip(i as int)[1] == s@[i as int + 1]);
            assert(s@.skip(i as int).len() == n - i);
        }
        let v0 = if 0x30 <= c0 && c0 <= 0x39 {
            c0 - 0x30
        } else if 0x61 <= c0 && c0 <= 0x66 {
            c0 - 87
        } else if 0x41 <= c0 && c0 <= 0x46 {
            c0 - 55
        } else {
            return Err(DecodeError::TextDocumentMismatch);
        };
        let v1 = if 0x30 <= c1 && c1 <= 0x39 {
            c1 - 0x30
        } else if 0x61 <= c1 && c1 <= 0x66 {
            c1 - 87
        } else if 0x41 <= c1 && c1 <= 0x46 {
            c1 - 55
        } else {
            return Err(DecodeError::TextDocumentMismatch);
        };
        let byte = v0 * 16 + v1;
        proof {
            assert(s@.skip(i as int).skip(2) =~= s@.skip(i as int + 2));
            match spec_hex_decode(s@.skip(i as int + 2)) {
                Some(rest) => {
                    assert(out@ + (seq![byte] + rest) =~= (out@ + seq![byte]) + rest);
                    assert(out@.push(byte) =~= out@ + seq![byte]);
                },
                None => {},
            }
        }
        out.push(byte);
        i = i + 2;
    }
    proof {
        assert(s@.skip(n as int) =~= Seq::<u8>::empty());
        assert(spec_hex_decode(Seq::<u8>::empty()) == Some(Seq::<u8>::empty()));
        assert(out@ + Seq::<u8>::empty() =~= out@);
    }
    Ok(out)
}

/// Law: hex rendering round-trips — parsing the rendering of any byte
/// sequence yields the bytes back, and the rendering is twice as long,
/// all lowercase hex digits.
pub proof fn lemma_hex_round_trip(s: Seq<u8>)
    ensures
        spec_hex_decode(hex_of_bytes(s)) == Some(s),
        hex_of_bytes(s).len() == 2 * s.len(),
    decreases s.len(),
{
    if s.len() == 0 {
        assert(hex_of_bytes(s) == Seq::<u8>::empty());
        assert(s =~= Seq::<u8>::empty());
    } else {
        lemma_hex_round_trip(s.skip(1));
        let h = hex_of_bytes(s);
        let pair = seq![hex_digit((s[0] / 16) as nat), hex_digit((s[0] % 16) as nat)];
        assert(h == pair + hex_of_bytes(s.skip(1)));
        assert(h.skip(2) =~= hex_of_bytes(s.skip(1)));
        assert(h[0] == hex_digit((s[0] / 16) as nat) && h[1] == hex_digit((s[0] % 16) as nat));
        assert(hex_val(h[0]) == (s[0] / 16) as nat && hex_val(h[1]) == (s[0] % 16) as nat);
        assert(seq![(hex_val(h[0]) * 16 + hex_val(h[1])) as u8] + s.skip(1) =~= s);
    }
}

/// Render `v` as exactly 32 lowercase hex digits, zero-padded, most
/// significant first.
pub fn u128_to_hex(v: u128) -> (r: Vec<u8>)
    ensures
        r@ == hex32_of_u128(v),
{
    let mut le: Vec<u8> = Vec::new();
    write_u128_le(&mut le, v);
    proof {
        lemma_le_bytes_len(v as nat, 16);
        assert(le@ =~= le_bytes(v as nat, 16));
    }
    let mut be: Vec<u8> = Vec::new();
    let mut i: usize = 0;
    proof {
        assert(be@ =~= be_bytes_u128(v).take(0));
    }
    while i < 16
        invariant
            i <= 16,
            le@ == le_bytes(v as nat, 16),
            le@.len() == 16,
            be@ == be_bytes_u128(v).take(i as int),
        decreases 16 - i,
    {
        proof {
            assert(be_bytes_u128(v)[i as int] == le@[15 - i as int]);
            assert(be_bytes_u128(v).take(i as int + 1) =~= be_bytes_u128(v).take(i as int).push(
                be_bytes_u128(v)[i as int],
            ));
        }
        be.push(le[15 - i]);
        i = i + 1;
    }
    proof {
        assert(be_bytes_u128(v).take(16) =~= be_bytes_u128(v));
    }
    bytes_to_hex(&be)
}

/// Parse exactly 32 hex digits as a 128-bit integer, most significant
/// digit first. Succeeds exactly when the input is 32 hex digits.
pub fn hex_to_u128(s: &Vec<u8>) -> (r: Result<u128, DecodeError>)
    ensures
        (match r {
            Ok(v) => s@.len() == 32 && (match spec_hex_decode(s@) {
                Some(bb) => v as nat == be_value(bb),
                None => false,
            }),
            Err(e) => e == DecodeError::TextDocumentMismatch && (s@.len() != 32
                || spec_hex_decode(s@) is None),
        }),
{
    if s.len() != 32 {
        return Err(DecodeError::TextDocumentMismatch);
    }
    let bytes = match hex_to_bytes(s) {
        Err(e) => {
            return Err(e);
        },
        Ok(x) => x,
    };
    proof {
        lemma_hex_decode_len(s@);
    }
    let mut v: u128 = 0;
    let mut i: usize = 0;
    proof {
        assert(bytes@.take(0) =~= Seq::<u8>::empty());
        assert(be_value(Seq::<u8>::empty()) == 0);
        assert(pow256(0) == 1);
    }
    while i < 16
        invariant
            i <= 16,
            bytes@.len() == 16,
            v as nat == be_value(bytes@.take(i as int)),
            (v as nat) < pow256(i as nat),
        decreases 16 - i,
    {
        proof {
            lemma_be_value_snoc(bytes@.take(i as int), bytes@[i as int]);
            assert(bytes@.take(i as int + 1) =~= bytes@.take(i as int) + seq![bytes@[i as int]]);
            lemma_be_value_bound(bytes@.take(i as int));
            crate::bytes::lemma_pow256_le((i + 1) as nat, 16);
            lemma_pow256_values();
            assert(pow256((i + 1) as nat) == 256 * pow256(i as nat));
            assert((v as nat) * 256 < pow256(i as nat) * 256) by (nonlinear_arith)
                requires
                    (v as nat) < pow256(i as nat),
            ;
        }
        v = v * 256 + (bytes[i] as u128);
        i = i + 1;
    }
    proof {
        assert(bytes@.take(16) =~= bytes@);
    }
    Ok(v)
}

/// A parsed hex string yields half as many bytes as it has digits.
pub proof fn lemma_hex_decode_len(s: Seq<u8>)
    ensures
        (match spec_hex_decode(s) {
            Some(r) => 2 * r.len() == s.len(),
            None => true,
        }),
    decreases s.len(),
{
    if s.len() % 2 == 0 && s.len() > 0 && is_hex_digit(s[0]) && is_hex_digit(s[1]) {
        lemma_hex_decode_len(s.skip(2));
    }
}

/// Law: the 128-bit hex rendering round-trips — parsing the 32 digits of
/// any value yields its 16 big-endian bytes, whose value is the integer
/// itself.
pub proof fn lemma_u128_hex_round_trip(v: u128)
    ensures
        hex32_of_u128(v).len() == 32,
        spec_hex_decode(hex32_of_u128(v)) == Some(be_bytes_u128(v)),
        be_value(be_bytes_u128(v)) == v as nat,
{
    lemma_le_bytes_len(v as nat, 16);
    lemma_hex_round_trip(be_bytes_u128(v));
    assert(be_bytes_u128(v) =~= Seq::new(
        le_bytes(v as nat, 16).len(),
        |i: int| le_bytes(v as nat, 16)[le_bytes(v as nat, 16).len() - 1 - i],
    ));
    lemma_be_of_reversed_le(le_bytes(v as nat, 16));
    lemma_pow256_values();
    lemma_le_round_trip(v as nat, 16);
}

} // verus!
