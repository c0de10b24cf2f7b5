//! Little- and big-endian integer encodings over byte sequences, the
//! primitive every MDF4 block reader and writer is built from.

use vstd::prelude::*;

verus! {

/// Unsigned value of a little-endian byte string (no width limit).
pub open spec fn le_value(s: Seq<u8>) -> nat
    decreases s.len(),
{
    if s.len() == 0 {
        0
    } else {
        s[0] as nat + 256 * le_value(s.drop_first())
    }
}

/// Unsigned value of a big-endian byte string (no width limit).
pub open spec fn be_value(s: Seq<u8>) -> nat
    decreases s.len(),
{
    if s.len() == 0 {
        0
    } else {
        be_value(s.drop_last()) * 256 + s.last() as nat
    }
}

/// The 2-byte little-endian value at `off`.
pub open spec fn le_u16_at(s: Seq<u8>, off: int) -> u16 {
    ((s[off] as u16) | ((s[off + 1] as u16) << 8u16)) as u16
}

/// The 4-byte little-endian value at `off`.
pub open spec fn le_u32_at(s: Seq<u8>, off: int) -> u32 {
    ((s[off] as u32) | ((s[off + 1] as u32) << 8u32) | ((s[off + 2] as u32) << 16u32) | ((
    s[off + 3] as u32) << 24u32)) as u32
}

/// The 8-byte little-endian value at `off`.
pub open spec fn le_u64_at(s: Seq<u8>, off: int) -> u64 {
    ((s[off] as u64) | ((s[off + 1] as u64) << 8u64) | ((s[off + 2] as u64) << 16u64) | ((
    s[off + 3] as u64) << 24u64) | ((s[off + 4] as u64) << 32u64) | ((s[off + 5] as u64)
        << 40u64) | ((s[off + 6] as u64) << 48u64) | ((s[off + 7] as u64) << 56u64)) as u64
}

/// The little-endian encoding of a `u16`.
pub open spec fn le_bytes_u16(v: u16) -> Seq<u8> {
    seq![(v & 0xff) as u8, ((v >> 8u16) & 0xff) as u8]
}

/// The little-endian encoding of a `u32`.
pub open spec fn le_bytes_u32(v: u32) -> Seq<u8> {
    seq![
        (v & 0xff) as u8,
        ((v >> 8u32) & 0xff) as u8,
        ((v >> 16u32) & 0xff) as u8,
        ((v >> 24u32) & 0xff) as u8,
    ]
}

/// The little-endian encoding of a `u64`.
pub open spec fn le_bytes_u64(v: u64) -> Seq<u8> {
    seq![
        (v & 0xff) as u8,
        ((v >> 8u64) & 0xff) as u8,
        ((v >> 16u64) & 0xff) as u8,
        ((v >> 24u64) & 0xff) as u8,
        ((v >> 32u64) & 0xff) as u8,
        ((v >> 40u64) & 0xff) as u8,
        ((v >> 48u64) & 0xff) as u8,
        ((v >> 56u64) & 0xff) as u8,
    ]
}

/// Reads the little-endian `u16` at `off`.
pub fn read_u16_le(b: &[u8], off: usize) -> (r: u16)
    requires
        off + 2 <= b@.len(),
    ensures
        r == le_u16_at(b@, off as int),
{
    (b[off] as u16) | ((b[off + 1] as u16) << 8u16)
}

/// Reads the little-endian `u32` at `off`.
pub fn read_u32_le(b: &[u8], off: usize) -> (r: u32)
    requires
        off + 4 <= b@.len(),
    ensures
        r == le_u32_at(b@, off as int),
{
    (b[off] as u32) | ((b[off + 1] as u32) << 8u32) | ((b[off + 2] as u32) << 16u32) | ((b[off
        + 3] as u32) << 24u32)
}

/// Reads the little-endian `u64` at `off`.
pub fn read_u64_le(b: &[u8], off: usize) -> (r: u64)
    requires
        off + 8 <= b@.len(),
    ensures
        r == le_u64_at(b@, off as int),
{
    (b[off] as u64) | ((b[off + 1] as u64) << 8u64) | ((b[off + 2] as u64) << 16u64) | ((b[off
        + 3] as u64) << 24u64) | ((b[off + 4] as u64) << 32u64) | ((b[off + 5] as u64) << 40u64)
        | ((b[off + 6] as u64) << 48u64) | ((b[off + 7] as u64) << 56u64)
}

/// Appends the little-endian encoding of `v`.
pub fn push_u16_le(buf: &mut Vec<u8>, v: u16)
    ensures
        final(buf)@ == old(buf)@ + le_bytes_u16(v),
{
    buf.push((v & 0xff) as u8);
    buf.push(((v >> 8u16) & 0xff) as u8);
    assert(buf@ =~= old(buf)@ + le_bytes_u16(v));
}

/// Appends the little-endian encoding of `v`.
pub fn push_u32_le(buf: &mut Vec<u8>, v: u32)
    ensures
        final(buf)@ == old(buf)@ + le_bytes_u32(v),
{
    buf.push((v & 0xff) as u8);
    buf.push(((v >> 8u32) & 0xff) as u8);
    buf.push(((v >> 16u32) & 0xff) as u8);
    buf.push(((v >> 24u32) & 0xff) as u8);
    assert(buf@ =~= old(buf)@ + le_bytes_u32(v));
}

/// Appends the little-endian encoding of `v`.
pub fn push_u64_le(buf: &mut Vec<u8>, v: u64)
    ensures
        final(buf)@ == old(buf)@ + le_bytes_u64(v),
{
    buf.push((v & 0xff) as u8);
    buf.push(((v >> 8u64) & 0xff) as u8);
    buf.push(((v >> 16u64) & 0xff) as u8);
    buf.push(((v >> 24u64) & 0xff) as u8);
    buf.push(((v >> 32u64) & 0xff) as u8);
    buf.push(((v >> 40u64) & 0xff) as u8);
    buf.push(((v >> 48u64) & 0xff) as u8);
    buf.push(((v >> 56u64) & 0xff) as u8);
    assert(buf@ =~= old(buf)@ + le_bytes_u64(v));
}

/// Reading back the little-endian encoding of a `u16` gives the value.
pub proof fn lemma_le_u16_roundtrip(v: u16)
    ensures
        le_u16_at(le_bytes_u16(v), 0) == v,
{
    let b0 = (v & 0xff) as u8;
    let b1 = ((v >> 8u16) & 0xff) as u8;
    assert(((b0 as u16) | ((b1 as u16) << 8u16)) == v) by (bit_vector)
        requires
            b0 == (v & 0xff) as u8,
            b1 == ((v >> 8u16) & 0xff) as u8,
    ;
}

/// Reading back the little-endian encoding of a `u32` gives the value.
pub proof fn lemma_le_u32_roundtrip(v: u32)
    ensures
        le_u32_at(le_bytes_u32(v), 0) == v,
{
    let s = le_bytes_u32(v);
    let b0 = s[0];
    let b1 = s[1];
    let b2 = s[2];
    let b3 = s[3];
    assert(((b0 as u32) | ((b1 as u32) << 8u32) | ((b2 as u32) << 16u32) | ((b3 as u32)
        << 24u32)) == v) by (bit_vector)
        requires
            b0 == (v & 0xff) as u8,
            b1 == ((v >> 8u32) & 0xff) as u8,
            b2 == ((v >> 16u32) & 0xff) as u8,
            b3 == ((v >> 24u32) & 0xff) as u8,
    ;
}

/// Reading back the little-endian encoding of a `u64` gives the value.
pub proof fn lemma_le_u64_roundtrip(v: u64)
    ensures
        le_u64_at(le_bytes_u64(v), 0) == v,
{
    let s = le_bytes_u64(v);
    let b0 = s[0];
    let b1 = s[1];
    let b2 = s[2];
    let b3 = s[3];
    let b4 = s[4];
    let b5 = s[5];
    let b6 = s[6];
    let b7 = s[7];
    assert(((b0 as u64) | ((b1 as u64) << 8u64) | ((b2 as u64) << 16u64) | ((b3 as u64)
        << 24u64) | ((b4 as u64) << 32u64) | ((b5 as u64) << 40u64) | ((b6 as u64) << 48u64) | ((
    b7 as u64) << 56u64)) == v) by (bit_vector)
        requires
            b0 == (v & 0xff) as u8,
            b1 == ((v >> 8u64) & 0xff) as u8,
            b2 == ((v >> 16u64) & 0xff) as u8,
            b3 == ((v >> 24u64) & 0xff) as u8,
            b4 == ((v >> 32u64) & 0xff) as u8,
            b5 == ((v >> 40u64) & 0xff) as u8,
            b6 == ((v >> 48u64) & 0xff) as u8,
            b7 == ((v >> 56u64) & 0xff) as u8,
    ;
}

} // verus!

verus! {

/// `n` reduced to 64 bits.
pub open spec fn wrap64(n: nat) -> u64 {
    (n % 0x1_0000_0000_0000_0000) as u64
}

/// `n` reduced to 128 bits.
pub open spec fn wrap128(n: nat) -> u128 {
    (n % 0x1_0000_0000_0000_0000_0000_0000_0000_0000nat) as u128
}

proof fn lemma_shift_in_u64(acc: u64, b: u8)
    ensures
        ((acc << 8u64) | (b as u64)) as int == ((acc as int) * 256 + b as int) % 0x1_0000_0000_0000_0000,
{
    assert(((acc << 8u64) | (b as u64)) == (acc << 8u64) + (b as u64)) by (bit_vector);
    assert((acc << 8u64) as int == ((acc as int) * 256) % 0x1_0000_0000_0000_0000) by (bit_vector);
    assert(((acc as int) * 256) % 0x1_0000_0000_0000_0000 + (b as int) == ((acc as int) * 256 + b as int) % 0x1_0000_0000_0000_0000) by (nonlinear_arith)
        requires
            (acc << 8u64) as int == ((acc as int) * 256) % 0x1_0000_0000_0000_0000,
            ((acc << 8u64) + (b as u64)) as int == (acc << 8u64) as int + b as int,
            b < 256,
    {
        assert((acc << 8u64) as int % 256 == 0) by (bit_vector);
    }
}

proof fn lemma_shift_in_u128(acc: u128, b: u8)
    ensures
        ((acc << 8u128) | (b as u128)) as int == ((acc as int) * 256 + b as int) % 0x1_0000_0000_0000_0000_0000_0000_0000_0000int,
{
    assert(((acc << 8u128) | (b as u128)) == (acc << 8u128) + (b as u128)) by (bit_vector);
    assert((acc << 8u128) as int == ((acc as int) * 256) % 0x1_0000_0000_0000_0000_0000_0000_0000_0000int) by (bit_vector);
    assert(((acc as int) * 256) % 0x1_0000_0000_0000_0000_0000_0000_0000_0000int + (b as int) == ((acc as int) * 256 + b as int) % 0x1_0000_0000_0000_0000_0000_0000_0000_0000int) by (nonlinear_arith)
        requires
            (acc << 8u128) as int == ((acc as int) * 256) % 0x1_0000_0000_0000_0000_0000_0000_0000_0000int,
            ((acc << 8u128) + (b as u128)) as int == (acc << 8u128) as int + b as int,
            b < 256,
    {
        assert((acc << 8u128) as int % 256 == 0) by (bit_vector);
    }
}

proof fn lemma_mod_shift(x: int, b: int, m: int)
    requires
        m > 0,
    ensures
        ((x % m) * 256 + b) % m == (x * 256 + b) % m,
{
    vstd::arithmetic::div_mod::lemma_mul_mod_noop_left(x, 256, m);
    vstd::arithmetic::div_mod::lemma_add_mod_noop((x % m) * 256, b, m);
    vstd::arithmetic::div_mod::lemma_add_mod_noop(x * 256, b, m);
}

/// The little-endian value of `s`, kept to its low 64 bits.
pub fn fold_le_u64(s: &[u8]) -> (r: u64)
    ensures
        r == wrap64(le_value(s@)),
{
    let mut acc: u64 = 0;
    let mut i: usize = s.len();
    assert(s@.skip(s@.len() as int) =~= seq![]);
    while i > 0
        invariant
            i <= s@.len(),
            acc == wrap64(le_value(s@.skip(i as int))),
        decreases i,
    {
        i -= 1;
        let ghost prev = acc;
        acc = (acc << 8u64) | (s[i] as u64);
        proof {
            let t = s@.skip(i as int);
            assert(t.drop_first() =~= s@.skip(i + 1));
            assert(le_value(t) == s@[i as int] as nat + 256 * le_value(s@.skip(i + 1)));
            lemma_shift_in_u64(prev, s@[i as int]);
            lemma_mod_shift(le_value(s@.skip(i + 1)) as int, s@[i as int] as int, 0x1_0000_0000_0000_0000);
        }
    }
    assert(s@.skip(0) =~= s@);
    acc
}

/// The big-endian value of `s`, kept to its low 64 bits.
pub fn fold_be_u64(s: &[u8]) -> (r: u64)
    ensures
        r == wrap64(be_value(s@)),
{
    let mut acc: u64 = 0;
    let mut i: usize = 0;
    assert(s@.take(0) =~= seq![]);
    while i < s.len()
        invariant
            i <= s@.len(),
            acc == wrap64(be_value(s@.take(i as int))),
        decreases s@.len() - i,
    {
        let ghost prev = acc;
        acc = (acc << 8u64) | (s[i] as u64);
        proof {
            let t = s@.take(i + 1);
            assert(t.drop_last() =~= s@.take(i as int));
            assert(be_value(t) == be_value(s@.take(i as int)) * 256 + s@[i as int] as nat);
            lemma_shift_in_u64(prev, s@[i as int]);
            lemma_mod_shift(be_value(s@.take(i as int)) as int, s@[i as int] as int, 0x1_0000_0000_0000_0000);
        }
        i += 1;
    }
    assert(s@.take(s@.len() as int) =~= s@);
    acc
}

/// The little-endian value of `s`, kept to its low 128 bits.
pub fn fold_le_u128(s: &[u8]) -> (r: u128)
    ensures
        r == wrap128(le_value(s@)),
{
    let mut acc: u128 = 0;
    let mut i: usize = s.len();
    assert(s@.skip(s@.len() as int) =~= seq![]);
    while i > 0
        invariant
            i <= s@.len(),
            acc == wrap128(le_value(s@.skip(i as int))),
        decreases i,
    {
        i -= 1;
        let ghost prev = acc;
        acc = (acc << 8u128) | (s[i] as u128);
        proof {
            let t = s@.skip(i as int);
            assert(t.drop_first() =~= s@.skip(i + 1));
            assert(le_value(t) == s@[i as int] as nat + 256 * le_value(s@.skip(i + 1)));
            lemma_shift_in_u128(prev, s@[i as int]);
            lemma_mod_shift(le_value(s@.skip(i + 1)) as int, s@[i as int] as int, 0x1_0000_0000_0000_0000_0000_0000_0000_0000int);
        }
    }
    assert(s@.skip(0) =~= s@);
    acc
}

/// The big-endian value of `s`, kept to its low 128 bits.
pub fn fold_be_u128(s: &[u8]) -> (r: u128)
    ensures
        r == wrap128(be_value(s@)),
{
    let mut acc: u128 = 0;
    let mut i: usize = 0;
    assert(s@.take(0) =~= seq![]);
    while i < s.len()
        invariant
            i <= s@.len(),
            acc == wrap128(be_value(s@.take(i as int))),
        decreases s@.len() - i,
    {
        let ghost prev = acc;
        acc = (acc << 8u128) | (s[i] as u128);
        proof {
            let t = s@.take(i + 1);
            assert(t.drop_last() =~= s@.take(i as int));
            assert(be_value(t) == be_value(s@.take(i as int)) * 256 + s@[i as int] as nat);
            lemma_shift_in_u128(prev, s@[i as int]);
            lemma_mod_shift(be_value(s@.take(i as int)) as int, s@[i as int] as int, 0x1_0000_0000_0000_0000_0000_0000_0000_0000int);
        }
        i += 1;
    }
    assert(s@.take(s@.len() as int) =~= s@);
    acc
}

} // verus!
