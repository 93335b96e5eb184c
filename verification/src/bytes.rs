//! Fixed-width integer fields on the wire: little-endian for every
//! multi-byte integer except a section's 16-bit type code, which is
//! big-endian.

use vstd::prelude::*;

verus! {

/// 256 to the power `n`: the number of values an `n`-byte field can carry.
pub open spec fn pow256(n: nat) -> nat
    decreases n,
{
    if n == 0 {
        1
    } else {
        256 * pow256((n - 1) as nat)
    }
}

/// The value of a little-endian byte sequence, least-significant byte first.
pub open spec fn le_value(s: Seq<u8>) -> nat
    decreases s.len(),
{
    if s.len() == 0 {
        0
    } else {
        s[0] as nat + 256 * le_value(s.skip(1))
    }
}

/// The low `n` bytes of `v`, least-significant first.
pub open spec fn le_bytes(v: nat, n: nat) -> Seq<u8>
    decreases n,
{
    if n == 0 {
        Seq::<u8>::empty()
    } else {
        seq![(v % 256) as u8] + le_bytes(v / 256, (n - 1) as nat)
    }
}

/// The two bytes of a big-endian 16-bit field, most-significant first.
pub open spec fn be16_bytes(v: nat) -> Seq<u8> {
    seq![(v / 256) as u8, (v % 256) as u8]
}

/// The value of a big-endian 16-bit field.
pub open spec fn be16_value(b0: u8, b1: u8) -> nat {
    b0 as nat * 256 + b1 as nat
}

/// The 16-bit little-endian value whose bytes start at `pos`.
pub open spec fn le_u16_at(b: Seq<u8>, pos: int) -> u16 {
    le_value(b.subrange(pos, pos + 2)) as u16
}

/// The 32-bit little-endian value whose bytes start at `pos`.
pub open spec fn le_u32_at(b: Seq<u8>, pos: int) -> u32 {
    le_value(b.subrange(pos, pos + 4)) as u32
}

/// The 128-bit little-endian value whose bytes start at `pos`.
pub open spec fn le_u128_at(b: Seq<u8>, pos: int) -> u128 {
    le_value(b.subrange(pos, pos + 16)) as u128
}

/// The powers of 256 this crate's field widths need, as literals.
pub proof fn lemma_pow256_values()
    ensures
        pow256(0) == 1,
        pow256(1) == 0x100,
        pow256(2) == 0x10000,
        pow256(4) == 0x1_0000_0000,
        pow256(15) == 0x1000000000000000000000000000000,
        pow256(16) == 0x100000000000000000000000000000000,
{
    reveal_with_fuel(pow256, 17);
}

/// Powers of 256 never shrink as the exponent grows.
pub proof fn lemma_pow256_le(a: nat, b: nat)
    requires
        a <= b,
    ensures
        pow256(a) <= pow256(b),
        pow256(a) >= 1,
    decreases b,
{
    if b > 0 {
        if a == b {
            lemma_pow256_le((a - 1) as nat, (b - 1) as nat);
        } else {
            lemma_pow256_le(a, (b - 1) as nat);
        }
    }
}

/// `le_bytes` produces exactly `n` bytes.
pub proof fn lemma_le_bytes_len(v: nat, n: nat)
    ensures
        le_bytes(v, n).len() == n,
    decreases n,
{
    if n > 0 {
        lemma_le_bytes_len(v / 256, (n - 1) as nat);
    }
}

/// Reading back the low `n` bytes of `v` recovers `v` when `v` fits.
pub proof fn lemma_le_round_trip(v: nat, n: nat)
    requires
        v < pow256(n),
    ensures
        le_value(le_bytes(v, n)) == v,
    decreases n,
{
    if n == 0 {
        assert(le_value(Seq::<u8>::empty()) == 0);
    } else {
        assert(v / 256 < pow256((n - 1) as nat));
        lemma_le_round_trip(v / 256, (n - 1) as nat);
        lemma_le_bytes_len(v / 256, (n - 1) as nat);
        let s = le_bytes(v, n);
        assert(s.skip(1) =~= le_bytes(v / 256, (n - 1) as nat));
        assert(s[0] == (v % 256) as u8);
    }
}

/// Read an `n`-byte little-endian field (`n` at most 16).
pub fn read_le(b: &Vec<u8>, pos: usize, n: usize) -> (r: u128)
    requires
        n <= 16,
        pos + n <= b@.len(),
    ensures
        r as nat == le_value(b@.subrange(pos as int, pos as int + n as int)),
        (r as nat) < pow256(n as nat),
{
    proof {
        assert(b@.subrange(pos as int + n as int, pos as int + n as int) =~= Seq::<u8>::empty());
        assert(le_value(Seq::<u8>::empty()) == 0);
        assert(pow256(0) == 1);
    }
    let blen = b.len();
    let mut v: u128 = 0;
    let mut i: usize = n;
    while i > 0
        invariant
            i <= n <= 16,
            blen == b@.len(),
            pos + n <= b@.len(),
            v as nat == le_value(b@.subrange(pos as int + i as int, pos as int + n as int)),
            (v as nat) < pow256((n - i) as nat),
        decreases i,
    {
        i = i - 1;
        assert(pos + i < blen);
        let byte = b[pos + i];
        proof {
            assert(b@.subrange(pos as int + i as int, pos as int + n as int).skip(1)
                =~= b@.subrange(pos as int + i as int + 1, pos as int + n as int));
            lemma_pow256_le((n - i - 1) as nat, 15);
            lemma_pow256_values();
            assert(pow256((n - i) as nat) == 256 * pow256((n - i - 1) as nat));
        }
        v = (byte as u128) + 256 * v;
    }
    v
}

/// Append the low `n` bytes of `v`, least-significant first.
pub fn write_le(out: &mut Vec<u8>, v: u128, n: usize)
    ensures
        final(out)@ == old(out)@ + le_bytes(v as nat, n as nat),
{
    let ghost orig = out@;
    let mut m = v;
    let mut i: usize = 0;
    while i < n
        invariant
            i <= n,
            out@ + le_bytes(m as nat, (n - i) as nat) == orig + le_bytes(v as nat, n as nat),
        decreases n - i,
    {
        let b8 = (m % 256) as u8;
        proof {
            assert(le_bytes(m as nat, (n - i) as nat)
                =~= seq![b8] + le_bytes(m as nat / 256, (n - i - 1) as nat));
            assert((out@ + seq![b8]) + le_bytes(m as nat / 256, (n - i - 1) as nat)
                =~= out@ + (seq![b8] + le_bytes(m as nat / 256, (n - i - 1) as nat)));
            assert(out@.push(b8) =~= out@ + seq![b8]);
        }
        out.push(b8);
        m = m / 256;
        i = i + 1;
    }
    proof {
        assert(out@ + le_bytes(m as nat, 0) =~= out@);
    }
}

/// Read the byte at `pos`.
pub fn read_u8(b: &Vec<u8>, pos: usize) -> (r: u8)
    requires
        pos < b@.len(),
    ensures
        r == b@[pos as int],
{
    b[pos]
}

/// Read a 16-bit little-endian field.
pub fn read_u16_le(b: &Vec<u8>, pos: usize) -> (r: u16)
    requires
        pos + 2 <= b@.len(),
    ensures
        r as nat == le_value(b@.subrange(pos as int, pos as int + 2)),
        r == le_u16_at(b@, pos as int),
{
    let v = read_le(b, pos, 2);
    proof {
        lemma_pow256_values();
    }
    v as u16
}

/// Read a 32-bit little-endian field.
pub fn read_u32_le(b: &Vec<u8>, pos: usize) -> (r: u32)
    requires
        pos + 4 <= b@.len(),
    ensures
        r as nat == le_value(b@.subrange(pos as int, pos as int + 4)),
        r == le_u32_at(b@, pos as int),
{
    let v = read_le(b, pos, 4);
    proof {
        lemma_pow256_values();
    }
    v as u32
}

/// Read a 128-bit little-endian field.
pub fn read_u128_le(b: &Vec<u8>, pos: usize) -> (r: u128)
    requires
        pos + 16 <= b@.len(),
    ensures
        r as nat == le_value(b@.subrange(pos as int, pos as int + 16)),
        r == le_u128_at(b@, pos as int),
{
    let v = read_le(b, pos, 16);
    proof {
        lemma_pow256_values();
    }
    v
}

/// Read a 16-bit big-endian field.
pub fn read_u16_be(b: &Vec<u8>, pos: usize) -> (r: u16)
    requires
        pos + 2 <= b@.len(),
    ensures
        r as nat == be16_value(b@[pos as int], b@[pos as int + 1]),
{
    let blen = b.len();
    assert(pos + 1 < blen);
    let hi = b[pos];
    let lo = b[pos + 1];
    (hi as u16) * 256 + (lo as u16)
}

/// Append one byte.
pub fn write_u8(out: &mut Vec<u8>, v: u8)
    ensures
        final(out)@ == old(out)@ + seq![v],
{
    proof {
        assert(out@.push(v) =~= out@ + seq![v]);
    }
    out.push(v);
}

/// Append a 16-bit little-endian field.
pub fn write_u16_le(out: &mut Vec<u8>, v: u16)
    ensures
        final(out)@ == old(out)@ + le_bytes(v as nat, 2),
{
    write_le(out, v as u128, 2);
}

/// Append a 32-bit little-endian field.
pub fn write_u32_le(out: &mut Vec<u8>, v: u32)
    ensures
        final(out)@ == old(out)@ + le_bytes(v as nat, 4),
{
    write_le(out, v as u128, 4);
}

/// Append a 128-bit little-endian field.
pub fn write_u128_le(out: &mut Vec<u8>, v: u128)
    ensures
        final(out)@ == old(out)@ + le_bytes(v as nat, 16),
{
    write_le(out, v, 16);
}

/// Append a 16-bit big-endian field.
pub fn write_u16_be(out: &mut Vec<u8>, v: u16)
    ensures
        final(out)@ == old(out)@ + be16_bytes(v as nat),
{
    let hi = (v / 256) as u8;
    let lo = (v % 256) as u8;
    proof {
        assert(out@.push(hi).push(lo) =~= out@ + be16_bytes(v as nat));
    }
    out.push(hi);
    out.push(lo);
}

/// Splitting a known concatenation: if the bytes at `pos` are `u + v`,
/// then `u` and `v` each lie at their own offsets.
pub proof fn lemma_split_at(b: Seq<u8>, pos: int, u: Seq<u8>, v: Seq<u8>)
    requires
        0 <= pos,
        pos + u.len() + v.len() <= b.len(),
        b.subrange(pos, pos + u.len() + v.len()) == u + v,
    ensures
        b.subrange(pos, pos + u.len() as int) == u,
        b.subrange(pos + u.len() as int, pos + u.len() + v.len()) == v,
{
    let w = b.subrange(pos, pos + u.len() + v.len());
    assert forall|k: int| 0 <= k < u.len() implies b.subrange(pos, pos + u.len() as int)[k]
        == u[k] by {
        assert(w[k] == (u + v)[k]);
    }
    assert(b.subrange(pos, pos + u.len() as int) =~= u);
    assert forall|k: int| 0 <= k < v.len() implies b.subrange(
        pos + u.len() as int,
        pos + u.len() + v.len(),
    )[k] == v[k] by {
        assert(w[u.len() + k] == (u + v)[u.len() + k]);
    }
    assert(b.subrange(pos + u.len() as int, pos + u.len() + v.len()) =~= v);
}

/// Copy the bytes of `b` from `from` (inclusive) to `to` (exclusive) into a
/// fresh vector.
pub fn copy_range(b: &Vec<u8>, from: usize, to: usize) -> (r: Vec<u8>)
    requires
        from <= to <= b@.len(),
    ensures
        r@ == b@.subrange(from as int, to as int),
{
    let blen = b.len();
    let mut r: Vec<u8> = Vec::new();
    let mut i = from;
    proof {
        assert(r@ =~= b@.subrange(from as int, from as int));
    }
    while i < to
        invariant
            from <= i <= to <= b@.len(),
            blen == b@.len(),
            r@ == b@.subrange(from as int, i as int),
        decreases to - i,
    {
        assert(i < blen);
        proof {
            assert(r@.push(b@[i as int]) =~= b@.subrange(from as int, i as int + 1));
        }
        r.push(b[i]);
        i = i + 1;
    }
    r
}

/// Append every byte of `src` to `out`.
pub fn append_bytes(out: &mut Vec<u8>, src: &Vec<u8>)
    ensures
        final(out)@ == old(out)@ + src@,
{
    let n = src.len();
    let mut i: usize = 0;
    proof {
        assert(out@ =~= out@ + src@.subrange(0, 0));
    }
    while i < n
        invariant
            i <= n,
            n == src@.len(),
            out@ == old(out)@ + src@.subrange(0, i as int),
        decreases n - i,
    {
        proof {
            assert((old(out)@ + src@.subrange(0, i as int)).push(src@[i as int])
                =~= old(out)@ + src@.subrange(0, i as int + 1));
        }
        out.push(src[i]);
        i = i + 1;
    }
    proof {
        assert(src@.subrange(0, n as int) =~= src@);
    }
}

/// A big-endian 16-bit round trip: the two emitted bytes carry `v`.
pub proof fn lemma_be16_round_trip(v: u16)
    ensures
        be16_value(be16_bytes(v as nat)[0], be16_bytes(v as nat)[1]) == v as nat,
        be16_bytes(v as nat).len() == 2,
{
}

} // verus!
