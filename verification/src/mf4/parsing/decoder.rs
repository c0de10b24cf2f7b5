//! Decoding one channel's sample out of a record, and the record's
//! invalidation bit for it.

use vstd::prelude::*;
use vstd::arithmetic::power2::{pow2, lemma2_to64, lemma_pow2_pos, lemma_pow2_adds};
use vstd::bits::{
    low_bits_mask, lemma_u64_shr_is_div, lemma_u128_shr_is_div, lemma_u64_shl_is_mul,
    lemma_u64_low_bits_mask_is_mod, lemma_u64_pow2_no_overflow,
};
use vstd::slice::{slice_subrange, slice_to_vec};
use vstd::utf8::{valid_utf8, decode_utf8};
use crate::bytes::{
    le_value, be_value, fold_le_u64, fold_be_u64, fold_le_u128, fold_be_u128,
    le_u16_at, read_u16_le};
use crate::codec::{until_nul, nul_position, decode_utf8_strict, utf16_decoded, decode_utf16, push_char};
use crate::mf4::blocks::channel_block::{ChannelBlock, DataType};

verus! {

/// `width` bits of `v`, starting `off` bits from its least significant end.
pub open spec fn bit_field(v: nat, off: nat, width: nat) -> nat {
    (v / pow2(off)) % pow2(width)
}

/// The two's-complement reading of the `width`-bit pattern `u`.
pub open spec fn twos_complement(u: nat, width: nat) -> int {
    if u >= pow2((width - 1) as nat) {
        u - pow2(width)
    } else {
        u as int
    }
}

/// `bit_count` bits of `raw` from `bit_offset` on; a field of 64 bits or
/// more keeps all that lies above the offset.
fn unsigned_bits(raw: u64, bit_offset: u64, bit_count: u32) -> (u: u64)
    requires
        bit_offset <= 7,
    ensures
        u == bit_field(raw as nat, bit_offset as nat, if bit_count >= 64 { 64 } else { bit_count as nat }),
{
    let shifted = raw >> bit_offset;
    proof {
        lemma_u64_shr_is_div(raw, bit_offset);
        lemma2_to64();
        lemma_pow2_pos(bit_offset as nat);
    }
    if bit_count >= 64 {
        assert(shifted & 0xffff_ffff_ffff_ffffu64 == shifted) by (bit_vector);
        proof { vstd::arithmetic::div_mod::lemma_small_mod(shifted as nat, pow2(64)); }
        shifted & 0xffff_ffff_ffff_ffffu64
    } else {
        let top = 1u64 << bit_count;
        proof {
            lemma_u64_pow2_no_overflow(bit_count as nat);
            lemma_u64_shl_is_mul(1, bit_count as u64);
        }
        let mask = top - 1;
        proof {
            assert(mask == low_bits_mask(bit_count as nat) as u64);
            lemma_u64_low_bits_mask_is_mod(shifted, bit_count as nat);
        }
        shifted & mask
    }
}

/// Sign-extends the `bit_count`-bit pattern `u` to 64 bits.
fn sign_extend(u: u64, bit_count: u32) -> (r: i64)
    requires
        1 <= bit_count <= 64,
        u < pow2(bit_count as nat),
    ensures
        r as int == twos_complement(u as nat, bit_count as nat),
{
    let n = bit_count as u64;
    let k = n - 1;
    proof {
        lemma2_to64();
        lemma_u64_pow2_no_overflow(k as nat);
        lemma_u64_shl_is_mul(1, k);
        if bit_count < 64 {
            lemma_u64_pow2_no_overflow(n as nat);
            lemma_u64_shl_is_mul(1, n);
        }
        lemma_pow2_adds(k as nat, 1);
    }
    let mask: u64 = if bit_count >= 64 { 0xffff_ffff_ffff_ffffu64 } else { (1u64 << bit_count) - 1 };
    let sign_bit = 1u64 << k;
    proof {
        assert(mask as int + 1 == pow2(n as nat));
        assert(sign_bit == pow2(k as nat));
        assert(u <= mask);
        assert((u & sign_bit != 0) == (u >= sign_bit)) by (bit_vector)
            requires
                k < 64,
                sign_bit == 1u64 << k,
                mask as int == 2 * (sign_bit as int) - 1,
                u <= mask,
        ;
    }
    if u & sign_bit != 0 {
        let r = (#[verifier::truncate] (u as i64)) | !(#[verifier::truncate] (mask as i64));
        assert(r as int == u as int - (mask as int + 1)) by (bit_vector)
            requires
                k < 64,
                sign_bit == 1u64 << k,
                mask as int == 2 * (sign_bit as int) - 1,
                u <= mask,
                u >= sign_bit,
                r == (u as i64) | !(mask as i64),
        ;
        r
    } else {
        #[verifier::truncate] (u as i64)
    }
}

/// `n` capped at 64.
pub open spec fn at_most_64(n: nat) -> nat {
    if n >= 64 {
        64
    } else {
        n
    }
}

/// No value is wider than 9 bytes: its little-endian value is below 2^72.
proof fn lemma_value_bound(s: Seq<u8>)
    ensures
        le_value(s) < pow2(8 * s.len()),
        be_value(s) < pow2(8 * s.len()),
    decreases s.len(),
{
    lemma2_to64();
    if s.len() > 0 {
        let n = s.len();
        lemma_value_bound(s.drop_first());
        lemma_value_bound(s.drop_last());
        lemma_pow2_adds(8, (8 * (n - 1)) as nat);
        assert(8 + 8 * (n - 1) == 8 * n);
        let p = pow2((8 * (n - 1)) as nat);
        let a = le_value(s.drop_first());
        let b = be_value(s.drop_last());
        assert(s[0] as nat + 256 * a < 256 * p) by (nonlinear_arith)
            requires
                a < p,
                s[0] < 256,
        ;
        assert(b * 256 + (s.last() as nat) < 256 * p) by (nonlinear_arith)
            requires
                b < p,
                s.last() < 256,
        ;
    }
}

/// The raw value of a numeric sample's bytes in the channel's byte order.
pub open spec fn raw_value(s: Seq<u8>, little_endian: bool) -> nat {
    if little_endian {
        le_value(s)
    } else {
        be_value(s)
    }
}

/// What a decoded sample holds, with its text and bytes as sequences.
pub enum SampleView {
    UnsignedInteger(u64),
    SignedInteger(i64),
    Float32(u32),
    Float64(u64),
    Text(Seq<char>),
    ByteArray(Seq<u8>),
    MimeSample(Seq<u8>),
    MimeStream(Seq<u8>),
    Unknown,
}

/// One channel sample. Floating-point samples are kept as the bit pattern
/// of their IEEE 754 single or double value.
#[derive(Debug, Clone, PartialEq)]
pub enum DecodedValue {
    UnsignedInteger(u64),
    SignedInteger(i64),
    Float32(u32),
    Float64(u64),
    String(String),
    ByteArray(Vec<u8>),
    MimeSample(Vec<u8>),
    MimeStream(Vec<u8>),
    Unknown,
}

impl View for DecodedValue {
    type V = SampleView;

    open spec fn view(&self) -> SampleView {
        match self {
            DecodedValue::UnsignedInteger(u) => SampleView::UnsignedInteger(*u),
            DecodedValue::SignedInteger(i) => SampleView::SignedInteger(*i),
            DecodedValue::Float32(b) => SampleView::Float32(*b),
            DecodedValue::Float64(b) => SampleView::Float64(*b),
            DecodedValue::String(s) => SampleView::Text(s@),
            DecodedValue::ByteArray(b) => SampleView::ByteArray(b@),
            DecodedValue::MimeSample(b) => SampleView::MimeSample(b@),
            DecodedValue::MimeStream(b) => SampleView::MimeStream(b@),
            DecodedValue::Unknown => SampleView::Unknown,
        }
    }
}

/// An optional sample by its view.
pub open spec fn view_sample(r: Option<DecodedValue>) -> Option<SampleView> {
    match r {
        Some(v) => Some(v@),
        None => None,
    }
}

/// A floating-point sample of `bit_count` bits read from `v`; only single
/// (32-bit) and double (64-bit) values are decoded.
pub open spec fn float_sample(v: nat, bit_offset: nat, bit_count: nat) -> Option<SampleView> {
    if bit_count == 32 {
        Some(SampleView::Float32(bit_field(v, bit_offset, 32) as u32))
    } else if bit_count == 64 {
        Some(SampleView::Float64(bit_field(v, bit_offset, 64) as u64))
    } else {
        None
    }
}

/// Reads a floating-point sample out of at most 9 bytes.
fn float_from_bytes(s: &[u8], little_endian: bool, bit_offset: u64, bit_count: u32) -> (r: Option<DecodedValue>)
    requires
        bit_count == 32 || bit_count == 64 ==> s@.len() <= 9,
        bit_offset <= 7,
    ensures
        view_sample(r) == float_sample(raw_value(s@, little_endian), bit_offset as nat, bit_count as nat),
{
    if bit_count != 32 && bit_count != 64 {
        return None;
    }
    let raw = if little_endian { fold_le_u128(s) } else { fold_be_u128(s) };
    let ghost v = raw_value(s@, little_endian);
    proof {
        lemma_value_bound(s@);
        lemma2_to64();
        lemma_pow2_adds(64, 8);
        vstd::arithmetic::power2::lemma_pow2_strictly_increases((8 * s@.len()) as nat, 73);
        lemma_pow2_adds(64, 9);
        vstd::arithmetic::div_mod::lemma_small_mod(v, 0x1_0000_0000_0000_0000_0000_0000_0000_0000nat);
        assert(raw == v);
        lemma_u128_shr_is_div(raw, bit_offset as u128);
    }
    let shifted = raw >> (bit_offset as u128);
    if bit_count == 32 {
        Some(DecodedValue::Float32((shifted % 0x1_0000_0000u128) as u32))
    } else {
        Some(DecodedValue::Float64((shifted % 0x1_0000_0000_0000_0000u128) as u64))
    }
}

/// Latin-1 text: each byte is the character with that code.
pub open spec fn latin1_chars(b: Seq<u8>) -> Seq<char> {
    b.map_values(|x: u8| x as char)
}

/// UTF-8 text, or a marker where the bytes are not valid UTF-8.
pub open spec fn utf8_text_or_marker(b: Seq<u8>) -> Seq<char> {
    if valid_utf8(b) {
        decode_utf8(b)
    } else {
        "<Invalid UTF8>"@
    }
}

/// The big-endian 16-bit value at `off`.
pub open spec fn be_u16_at(s: Seq<u8>, off: int) -> u16 {
    (s[off] as int * 256 + s[off + 1] as int) as u16
}

/// The 16-bit code units of `s` in the given byte order; a trailing odd
/// byte is dropped.
pub open spec fn code_units(s: Seq<u8>, little_endian: bool) -> Seq<u16> {
    Seq::new(
        s.len() / 2,
        |i: int|
            if little_endian {
                le_u16_at(s, 2 * i)
            } else {
                be_u16_at(s, 2 * i)
            },
    )
}

/// The code units of `u` before its first zero unit.
pub open spec fn until_zero_unit(u: Seq<u16>) -> Seq<u16>
    decreases u.len(),
{
    if u.len() == 0 {
        u
    } else if u[0] == 0 {
        seq![]
    } else {
        seq![u[0]] + until_zero_unit(u.drop_first())
    }
}

/// UTF-16 text, or a marker naming the byte order where the units are not
/// valid UTF-16.
pub open spec fn utf16_text_or_marker(u: Seq<u16>, little_endian: bool) -> Seq<char> {
    match utf16_decoded(u) {
        Some(t) => t,
        None => if little_endian {
            "<Invalid UTF16LE>"@
        } else {
            "<Invalid UTF16BE>"@
        },
    }
}

/// Decodes bytes up to the first NUL as Latin-1.
fn latin1_text(s: &[u8]) -> (t: String)
    ensures
        t@ == latin1_chars(until_nul(s@)),
{
    let end = nul_position(s);
    let mut out = String::new();
    let mut i: usize = 0;
    while i < end
        invariant
            end <= s@.len(),
            i <= end,
            out@ == latin1_chars(s@.subrange(0, i as int)),
        decreases end - i,
    {
        let c = s[i] as char;
        push_char(&mut out, c);
        i += 1;
        assert(out@ =~= latin1_chars(s@.subrange(0, i as int)));
    }
    out
}

/// Decodes bytes up to the first NUL as UTF-8.
fn utf8_text(s: &[u8]) -> (t: String)
    ensures
        t@ == utf8_text_or_marker(until_nul(s@)),
{
    let end = nul_position(s);
    match decode_utf8_strict(slice_subrange(s, 0, end)) {
        Some(t) => t,
        None => String::from_str("<Invalid UTF8>"),
    }
}

/// How many code units of `u` come before its first zero unit.
fn zero_unit_position(u: &[u16]) -> (n: usize)
    ensures
        n <= u@.len(),
        u@.subrange(0, n as int) == until_zero_unit(u@),
{
    let mut i: usize = 0;
    assert(u@.skip(0) =~= u@);
    assert(u@.subrange(0, 0) + until_zero_unit(u@) =~= until_zero_unit(u@));
    while i < u.len() && u[i] != 0
        invariant
            i <= u@.len(),
            until_zero_unit(u@) == u@.subrange(0, i as int) + until_zero_unit(u@.skip(i as int)),
        decreases u@.len() - i,
    {
        proof {
            let t = u@.skip(i as int);
            assert(t.drop_first() =~= u@.skip(i + 1));
            assert(u@.subrange(0, i as int) + seq![u@[i as int]] =~= u@.subrange(0, i + 1));
            assert(until_zero_unit(t) == seq![t[0]] + until_zero_unit(t.drop_first()));
            assert(u@.subrange(0, i as int) + (seq![t[0]] + until_zero_unit(t.drop_first())) =~= u@.subrange(0, i + 1) + until_zero_unit(u@.skip(i + 1)));
        }
        i += 1;
    }
    proof {
        let t = u@.skip(i as int);
        if i < u@.len() {
            assert(t[0] == 0);
        }
        assert(until_zero_unit(t) =~= seq![]);
        assert(u@.subrange(0, i as int) + seq![] =~= u@.subrange(0, i as int));
    }
    i
}

/// Decodes bytes as UTF-16 in the given byte order, up to the first zero unit.
fn utf16_text(s: &[u8], little_endian: bool) -> (t: String)
    ensures
        t@ == utf16_text_or_marker(until_zero_unit(code_units(s@, little_endian)), little_endian),
{
    let len = s.len();
    let n = len / 2;
    let mut units: Vec<u16> = Vec::new();
    let mut i: usize = 0;
    while i < n
        invariant
            len == s@.len(),
            n == len / 2,
            i <= n,
            units@ == code_units(s@, little_endian).subrange(0, i as int),
        decreases n - i,
    {
        let unit = if little_endian {
            read_u16_le(s, 2 * i)
        } else {
            (s[2 * i] as u16) * 256 + (s[2 * i + 1] as u16)
        };
        units.push(unit);
        i += 1;
        assert(units@ =~= code_units(s@, little_endian).subrange(0, i as int));
    }
    assert(units@ =~= code_units(s@, little_endian));
    let end = zero_unit_position(units.as_slice());
    match decode_utf16(slice_subrange(units.as_slice(), 0, end)) {
        Some(t) => t,
        None => if little_endian {
            String::from_str("<Invalid UTF16LE>")
        } else {
            String::from_str("<Invalid UTF16BE>")
        },
    }
}

/// Integer and floating-point channels, whose values are bit fields.
pub open spec fn is_numeric(t: DataType) -> bool {
    ||| t is UnsignedIntegerLE
    ||| t is UnsignedIntegerBE
    ||| t is SignedIntegerLE
    ||| t is SignedIntegerBE
    ||| t is FloatLE
    ||| t is FloatBE
}

/// Text, byte-array and MIME channels, whose values fill whole bytes.
pub open spec fn is_byte_string(t: DataType) -> bool {
    ||| t is StringLatin1
    ||| t is StringUtf8
    ||| t is StringUtf16LE
    ||| t is StringUtf16BE
    ||| t is ByteArray
    ||| t is MimeSample
    ||| t is MimeStream
}

/// A signed integer channel.
pub open spec fn is_signed(t: DataType) -> bool {
    t is SignedIntegerLE || t is SignedIntegerBE
}

/// A variable-length signal data channel: its records are its values.
pub open spec fn is_vlsd(c: ChannelBlock) -> bool {
    c.channel_type == 1 && c.data != 0
}

/// The bytes a bit field of the channel spans (at least one).
pub open spec fn numeric_len(c: ChannelBlock) -> int {
    let n = (c.bit_offset + c.bit_count + 7) / 8;
    if n < 1 {
        1
    } else {
        n
    }
}

/// The bytes a channel's value takes within a fixed-length record.
pub open spec fn field_len(c: ChannelBlock) -> int {
    if is_byte_string(c.data_type) {
        (c.bit_count / 8) as int
    } else {
        numeric_len(c)
    }
}

/// The positions a decoder computes for this channel fit in a `usize`.
pub open spec fn offsets_fit(record_id_size: usize, c: ChannelBlock) -> bool {
    record_id_size + c.byte_offset + c.bit_offset + c.bit_count + 7 <= usize::MAX
}

/// The bytes holding a channel's value: a VLSD record is the value itself
/// (a numeric one is cut to its field width); otherwise the field after
/// the record id at the channel's byte offset. `None` where the record is
/// too short.
pub open spec fn sample_bytes(record: Seq<u8>, record_id_size: int, c: ChannelBlock) -> Option<Seq<u8>> {
    if is_vlsd(c) {
        if !is_numeric(c.data_type) {
            Some(record)
        } else if record.len() < numeric_len(c) {
            None
        } else {
            Some(record.take(numeric_len(c)))
        }
    } else {
        let start = record_id_size + c.byte_offset;
        if start + field_len(c) > record.len() {
            None
        } else {
            Some(record.subrange(start, start + field_len(c)))
        }
    }
}

/// What a channel's value bytes decode to, by its data type.
pub open spec fn interpret(s: Seq<u8>, c: ChannelBlock) -> Option<SampleView> {
    let off = c.bit_offset as nat;
    let n = c.bit_count as nat;
    match c.data_type {
        DataType::UnsignedIntegerLE => Some(SampleView::UnsignedInteger(bit_field(le_value(s) % pow2(64), off, at_most_64(n)) as u64)),
        DataType::UnsignedIntegerBE => Some(SampleView::UnsignedInteger(bit_field(be_value(s) % pow2(64), off, at_most_64(n)) as u64)),
        DataType::SignedIntegerLE => Some(SampleView::SignedInteger(twos_complement(bit_field(le_value(s) % pow2(64), off, n), n) as i64)),
        DataType::SignedIntegerBE => Some(SampleView::SignedInteger(twos_complement(bit_field(be_value(s) % pow2(64), off, n), n) as i64)),
        DataType::FloatLE => float_sample(le_value(s), off, n),
        DataType::FloatBE => float_sample(be_value(s), off, n),
        DataType::StringLatin1 => Some(SampleView::Text(latin1_chars(until_nul(s)))),
        DataType::StringUtf8 => Some(SampleView::Text(utf8_text_or_marker(until_nul(s)))),
        DataType::StringUtf16LE => Some(SampleView::Text(utf16_text_or_marker(until_zero_unit(code_units(s, true)), true))),
        DataType::StringUtf16BE => Some(SampleView::Text(utf16_text_or_marker(until_zero_unit(code_units(s, false)), false))),
        DataType::ByteArray => Some(SampleView::ByteArray(s)),
        DataType::MimeSample => Some(SampleView::MimeSample(s)),
        DataType::MimeStream => Some(SampleView::MimeStream(s)),
        _ => Some(SampleView::Unknown),
    }
}

/// A channel's sample in a record: `None` for a numeric channel of zero
/// bits or with a bit offset above 7, or where the record is too short.
pub open spec fn spec_decode_value(record: Seq<u8>, record_id_size: int, c: ChannelBlock) -> Option<SampleView> {
    if is_numeric(c.data_type) && (c.bit_count == 0 || c.bit_offset > 7) {
        None
    } else {
        match sample_bytes(record, record_id_size, c) {
            None => None,
            Some(s) => interpret(s, c),
        }
    }
}

/// A signed integer channel reads the same bit field as the unsigned
/// channel of the same byte order, offsets and width, taken as a two's
/// complement number: values with the top bit of the field set are the
/// unsigned reading less 2 to the power of the width. Both read nothing on
/// the same records.
pub proof fn lemma_signed_is_sign_extended_unsigned(record: Seq<u8>, rid: int, c: ChannelBlock, cu: ChannelBlock)
    requires
        (c.data_type == DataType::SignedIntegerBE && cu.data_type == DataType::UnsignedIntegerBE)
            || (c.data_type == DataType::SignedIntegerLE && cu.data_type == DataType::UnsignedIntegerLE),
        cu == (ChannelBlock { data_type: cu.data_type, ..c }),
        c.bit_count <= 64,
    ensures
        match (spec_decode_value(record, rid, c), spec_decode_value(record, rid, cu)) {
            (Some(SampleView::SignedInteger(x)), Some(SampleView::UnsignedInteger(u))) => x == (if u >= pow2((c.bit_count - 1) as nat) {
                u - pow2(c.bit_count as nat)
            } else {
                u as int
            }),
            (None, None) => true,
            _ => false,
        },
{
    if !(c.bit_count == 0 || c.bit_offset > 7) {
        assert(sample_bytes(record, rid, c) == sample_bytes(record, rid, cu));
        if let Some(sb) = sample_bytes(record, rid, c) {
            let n = c.bit_count as nat;
            let off = c.bit_offset as nat;
            let v = if c.data_type == DataType::SignedIntegerBE { be_value(sb) } else { le_value(sb) } % pow2(64);
            let u = bit_field(v, off, n);
            lemma2_to64();
            lemma_pow2_pos(n);
            lemma_pow2_pos(off);
            vstd::arithmetic::div_mod::lemma_mod_pos_bound((v / pow2(off)) as int, pow2(n) as int);
            if n < 64 {
                vstd::arithmetic::power2::lemma_pow2_strictly_increases(n, 64);
            }
            lemma_pow2_adds(1, (n - 1) as nat);
            assert(pow2(1) == 2) by { vstd::arithmetic::power2::lemma2_to64(); }
            if n - 1 < 63 {
                vstd::arithmetic::power2::lemma_pow2_strictly_increases((n - 1) as nat, 63);
            }
            assert(interpret(sb, cu) == Some(SampleView::UnsignedInteger(u as u64)));
            assert(interpret(sb, c) == Some(SampleView::SignedInteger(twos_complement(u, n) as i64)));
        }
    }
}

/// A 16-bit integer field on a byte boundary: big-endian channels read its
/// first byte as the high one, little-endian channels its second; signed
/// channels take the value as a two's complement number.
pub proof fn lemma_sixteen_bit_fields(record: Seq<u8>, rid: int, c: ChannelBlock)
    requires
        c.bit_offset == 0,
        c.bit_count == 16,
        !is_vlsd(c),
        0 <= rid,
        rid + c.byte_offset + 2 <= record.len(),
    ensures
        ({
            let a = record[rid + c.byte_offset] as int;
            let b = record[rid + c.byte_offset + 1] as int;
            let be = a * 256 + b;
            let le = a + 256 * b;
            &&& c.data_type == DataType::UnsignedIntegerBE ==> (spec_decode_value(record, rid, c) matches Some(SampleView::UnsignedInteger(u)) && u == be)
            &&& c.data_type == DataType::UnsignedIntegerLE ==> (spec_decode_value(record, rid, c) matches Some(SampleView::UnsignedInteger(u)) && u == le)
            &&& c.data_type == DataType::SignedIntegerBE ==> (spec_decode_value(record, rid, c) matches Some(SampleView::SignedInteger(x))
                && x == (if be >= 32768 { be - 65536 } else { be }))
            &&& c.data_type == DataType::SignedIntegerLE ==> (spec_decode_value(record, rid, c) matches Some(SampleView::SignedInteger(x))
                && x == (if le >= 32768 { le - 65536 } else { le }))
        }),
{
    let start = rid + c.byte_offset;
    let sb = record.subrange(start, start + 2);
    lemma2_to64();
    assert(numeric_len(c) == 2);
    if is_numeric(c.data_type) {
        assert(sample_bytes(record, rid, c) == Some(sb));
        let a = sb[0] as nat;
        let b = sb[1] as nat;
        assert(sb.drop_first().drop_first().len() == 0);
        assert(le_value(sb.drop_first().drop_first()) == 0);
        assert(le_value(sb.drop_first()) == b + 256 * 0);
        assert(le_value(sb) == a + 256 * b);
        assert(sb.drop_last().drop_last().len() == 0);
        assert(be_value(sb.drop_last().drop_last()) == 0);
        assert(be_value(sb.drop_last()) == 0 * 256 + a);
        assert(be_value(sb) == a * 256 + b);
        assert(a * 256 + b < 65536);
        assert(a + 256 * b < 65536);
        vstd::arithmetic::div_mod::lemma_small_mod(le_value(sb), pow2(64));
        vstd::arithmetic::div_mod::lemma_small_mod(be_value(sb), pow2(64));
        vstd::arithmetic::div_mod::lemma_small_mod(le_value(sb), pow2(16));
        vstd::arithmetic::div_mod::lemma_small_mod(be_value(sb), pow2(16));
        assert(bit_field(le_value(sb), 0, 16) == le_value(sb));
        assert(bit_field(be_value(sb), 0, 16) == be_value(sb));
    }
}

/// Whether the channel's values are integers or floating-point numbers.
fn numeric_type(t: DataType) -> (b: bool)
    ensures
        b == is_numeric(t),
{
    match t {
        DataType::UnsignedIntegerLE | DataType::UnsignedIntegerBE | DataType::SignedIntegerLE
        | DataType::SignedIntegerBE | DataType::FloatLE | DataType::FloatBE => true,
        _ => false,
    }
}

/// Whether the channel's values are text, byte arrays or MIME content.
fn byte_string_type(t: DataType) -> (b: bool)
    ensures
        b == is_byte_string(t),
{
    match t {
        DataType::StringLatin1 | DataType::StringUtf8 | DataType::StringUtf16LE
        | DataType::StringUtf16BE | DataType::ByteArray | DataType::MimeSample
        | DataType::MimeStream => true,
        _ => false,
    }
}

/// Decodes a channel's value bytes by its data type.
fn interpret_bytes(s: &[u8], c: &ChannelBlock) -> (r: Option<DecodedValue>)
    requires
        is_numeric(c.data_type) ==> 1 <= c.bit_count && c.bit_offset <= 7 && s@.len() == numeric_len(*c),
        is_signed(c.data_type) ==> c.bit_count <= 64,
    ensures
        view_sample(r) == interpret(s@, *c),
{
    let off = c.bit_offset as u64;
    proof {
        lemma2_to64();
    }
    match c.data_type {
        DataType::UnsignedIntegerLE => Some(DecodedValue::UnsignedInteger(unsigned_bits(fold_le_u64(s), off, c.bit_count))),
        DataType::UnsignedIntegerBE => Some(DecodedValue::UnsignedInteger(unsigned_bits(fold_be_u64(s), off, c.bit_count))),
        DataType::SignedIntegerLE => {
            let u = unsigned_bits(fold_le_u64(s), off, c.bit_count);
            proof {
                lemma_pow2_pos(c.bit_count as nat);
            }
            Some(DecodedValue::SignedInteger(sign_extend(u, c.bit_count)))
        },
        DataType::SignedIntegerBE => {
            let u = unsigned_bits(fold_be_u64(s), off, c.bit_count);
            proof {
                lemma_pow2_pos(c.bit_count as nat);
            }
            Some(DecodedValue::SignedInteger(sign_extend(u, c.bit_count)))
        },
        DataType::FloatLE => float_from_bytes(s, true, off, c.bit_count),
        DataType::FloatBE => float_from_bytes(s, false, off, c.bit_count),
        DataType::StringLatin1 => Some(DecodedValue::String(latin1_text(s))),
        DataType::StringUtf8 => Some(DecodedValue::String(utf8_text(s))),
        DataType::StringUtf16LE => Some(DecodedValue::String(utf16_text(s, true))),
        DataType::StringUtf16BE => Some(DecodedValue::String(utf16_text(s, false))),
        DataType::ByteArray => Some(DecodedValue::ByteArray(slice_to_vec(s))),
        DataType::MimeSample => Some(DecodedValue::MimeSample(slice_to_vec(s))),
        DataType::MimeStream => Some(DecodedValue::MimeStream(slice_to_vec(s))),
        _ => Some(DecodedValue::Unknown),
    }
}

/// Decoding reaches the sign extension of a signed field only with a
/// width of at most 64 bits (a wider one overflows its shift).
pub open spec fn sign_width_ok(record: Seq<u8>, record_id_size: int, c: ChannelBlock) -> bool {
    is_signed(c.data_type) && 1 <= c.bit_count && c.bit_offset <= 7
        && sample_bytes(record, record_id_size, c) is Some ==> c.bit_count <= 64
}

fn decode_value_internal(record: &[u8], record_id_size: usize, channel: &ChannelBlock) -> (r: Option<DecodedValue>)
    requires
        offsets_fit(record_id_size, *channel),
        sign_width_ok(record@, record_id_size as int, *channel),
    ensures
        view_sample(r) == spec_decode_value(record@, record_id_size as int, *channel),
{
    let base = record_id_size + channel.byte_offset as usize;
    let bit_offset = channel.bit_offset as usize;
    let bit_count = channel.bit_count as usize;
    let numeric = numeric_type(channel.data_type);
    if numeric && (bit_count == 0 || bit_offset > 7) {
        return None;
    }
    let n = (bit_offset + bit_count + 7) / 8;
    let numeric_len = if n < 1 { 1 } else { n };
    if channel.channel_type == 1 && channel.data != 0 {
        if !numeric {
            return interpret_bytes(record, channel);
        }
        if record.len() < numeric_len {
            return None;
        }
        return interpret_bytes(slice_subrange(record, 0, numeric_len), channel);
    }
    let len = if byte_string_type(channel.data_type) { bit_count / 8 } else { numeric_len };
    if base + len > record.len() {
        return None;
    }
    interpret_bytes(slice_subrange(record, base, base + len), channel)
}

/// Decodes a channel's sample from a record: the record id is skipped, and
/// the channel's byte offset, bit offset, bit count and data type say
/// where the value lies and how it is read. Invalidation bits are not
/// looked at (see `decode_channel_value_with_validity`).
pub fn decode_channel_value(record: &[u8], record_id_size: usize, channel: &ChannelBlock) -> (r: Option<DecodedValue>)
    requires
        offsets_fit(record_id_size, *channel),
        sign_width_ok(record@, record_id_size as int, *channel),
    ensures
        view_sample(r) == spec_decode_value(record@, record_id_size as int, *channel),
{
    decode_value_internal(record, record_id_size, channel)
}

/// A channel's sample as a numeric reader takes it: nothing for a VLSD
/// channel or one whose values are not numbers, otherwise its sample.
pub open spec fn spec_numeric_sample(record: Seq<u8>, record_id_size: int, c: ChannelBlock) -> Option<SampleView> {
    if is_vlsd(c) || !is_numeric(c.data_type) {
        None
    } else {
        spec_decode_value(record, record_id_size, c)
    }
}

/// Decodes a numeric channel's sample from a fixed-length record, for
/// readers that want numbers only: VLSD and non-numeric channels give `None`.
pub fn decode_numeric_value(record: &[u8], record_id_size: usize, channel: &ChannelBlock) -> (r: Option<DecodedValue>)
    requires
        offsets_fit(record_id_size, *channel),
        sign_width_ok(record@, record_id_size as int, *channel),
    ensures
        view_sample(r) == spec_numeric_sample(record@, record_id_size as int, *channel),
{
    if (channel.channel_type == 1 && channel.data != 0) || !numeric_type(channel.data_type) {
        return None;
    }
    decode_value_internal(record, record_id_size, channel)
}

/// Whether a channel's value in a record is valid: never where flag bit 0
/// says all values are invalid, always where flag bits 0 and 1 are both
/// clear, and otherwise unless the record's invalidation bit for the
/// channel (after the record id and the data bytes) is set; a record too
/// short to hold that bit counts as valid.
pub open spec fn spec_value_valid(record: Seq<u8>, record_id_size: int, cg_data_bytes: u32, c: ChannelBlock) -> bool {
    if c.flags & 1 != 0 {
        false
    } else if c.flags & 3 == 0 {
        true
    } else {
        let at = record_id_size + cg_data_bytes + c.pos_invalidation_bit / 8;
        at >= record.len() || (record[at] >> ((c.pos_invalidation_bit % 8) as u8)) & 1 == 0
    }
}

/// Checks a channel's invalidation bit in a record.
pub fn check_value_validity(record: &[u8], record_id_size: usize, cg_data_bytes: u32, channel: &ChannelBlock) -> (valid: bool)
    requires
        record_id_size + cg_data_bytes + channel.pos_invalidation_bit / 8 <= usize::MAX,
    ensures
        valid == spec_value_valid(record@, record_id_size as int, cg_data_bytes, *channel),
{
    if channel.flags & 1 != 0 {
        return false;
    }
    if channel.flags & 3 == 0 {
        return true;
    }
    let at = record_id_size + cg_data_bytes as usize + (channel.pos_invalidation_bit / 8) as usize;
    let bit = (channel.pos_invalidation_bit % 8) as u8;
    if at < record.len() {
        (record[at] >> bit) & 1 == 0
    } else {
        true
    }
}

/// A decoded sample and whether its invalidation bit leaves it valid.
#[derive(Debug, Clone, PartialEq)]
pub struct DecodedChannelValue {
    pub value: DecodedValue,
    pub is_valid: bool,
}

/// Decodes a channel's sample from a record together with its validity.
pub fn decode_channel_value_with_validity(
    record: &[u8],
    record_id_size: usize,
    cg_data_bytes: u32,
    channel: &ChannelBlock,
) -> (r: Option<DecodedChannelValue>)
    requires
        offsets_fit(record_id_size, *channel),
        sign_width_ok(record@, record_id_size as int, *channel),
        record_id_size + cg_data_bytes + channel.pos_invalidation_bit / 8 <= usize::MAX,
    ensures
        match r {
            Some(v) => spec_decode_value(record@, record_id_size as int, *channel) == Some(v.value@)
                && v.is_valid == spec_value_valid(record@, record_id_size as int, cg_data_bytes, *channel),
            None => spec_decode_value(record@, record_id_size as int, *channel) is None,
        },
{
    let value = match decode_value_internal(record, record_id_size, channel) {
        Some(v) => v,
        None => return None,
    };
    let is_valid = check_value_validity(record, record_id_size, cg_data_bytes, channel);
    Some(DecodedChannelValue { value, is_valid })
}

} // verus!
