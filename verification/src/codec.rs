//! Text decodings the readers rely on: UTF-8 (strict and lossy) and
//! Windows-1252.

use vstd::prelude::*;
use vstd::utf8::{valid_utf8, decode_utf8};

verus! {

/// The characters `String::from_utf8_lossy` decodes `bytes` to (each
/// malformed sequence replaced by U+FFFD).
pub uninterp spec fn utf8_lossy(bytes: Seq<u8>) -> Seq<char>;

/// Calls `String::from_utf8_lossy`. Claimed: the result is that function's
/// output for these bytes, and (as std documents) valid UTF-8 decodes to
/// its characters; what replaces malformed sequences is not stated.
#[verifier::external_body]
pub fn decode_utf8_lossy(bytes: &[u8]) -> (s: String)
    ensures
        s@ == utf8_lossy(bytes@),
        valid_utf8(bytes@) ==> s@ == decode_utf8(bytes@),
{
    String::from_utf8_lossy(bytes).into_owned()
}

/// Calls `std::str::from_utf8` and copies the result. Claimed (std's
/// documentation): it succeeds exactly on valid UTF-8, giving its characters.
#[verifier::external_body]
pub fn decode_utf8_strict(bytes: &[u8]) -> (r: Option<String>)
    ensures
        r is Some <==> valid_utf8(bytes@),
        r matches Some(s) ==> s@ == decode_utf8(bytes@),
{
    std::str::from_utf8(bytes).ok().map(|s| s.to_string())
}

/// The characters `encoding_rs::WINDOWS_1252.decode` produces for `bytes`
/// (that call sniffs a byte-order mark first, and decodes by it if found).
pub uninterp spec fn cp1252_decoded(bytes: Seq<u8>) -> Seq<char>;

/// The bytes start with a UTF-8 or UTF-16 byte-order mark.
pub open spec fn has_bom(b: Seq<u8>) -> bool {
    ||| (b.len() >= 3 && b[0] == 0xEF && b[1] == 0xBB && b[2] == 0xBF)
    ||| (b.len() >= 2 && b[0] == 0xFF && b[1] == 0xFE)
    ||| (b.len() >= 2 && b[0] == 0xFE && b[1] == 0xFF)
}

/// The Windows-1252 character of a byte: the byte's own code point except
/// for 0x80..=0x9F, which hold typographic characters (the five undefined
/// ones keep their code points).
pub open spec fn cp1252_char(b: u8) -> char {
    match b {
        0x80 => '\u{20AC}',
        0x81 => '\u{81}',
        0x82 => '\u{201A}',
        0x83 => '\u{192}',
        0x84 => '\u{201E}',
        0x85 => '\u{2026}',
        0x86 => '\u{2020}',
        0x87 => '\u{2021}',
        0x88 => '\u{2C6}',
        0x89 => '\u{2030}',
        0x8A => '\u{160}',
        0x8B => '\u{2039}',
        0x8C => '\u{152}',
        0x8D => '\u{8D}',
        0x8E => '\u{17D}',
        0x8F => '\u{8F}',
        0x90 => '\u{90}',
        0x91 => '\u{2018}',
        0x92 => '\u{2019}',
        0x93 => '\u{201C}',
        0x94 => '\u{201D}',
        0x95 => '\u{2022}',
        0x96 => '\u{2013}',
        0x97 => '\u{2014}',
        0x98 => '\u{2DC}',
        0x99 => '\u{2122}',
        0x9A => '\u{161}',
        0x9B => '\u{203A}',
        0x9C => '\u{153}',
        0x9D => '\u{9D}',
        0x9E => '\u{17E}',
        0x9F => '\u{178}',
        _ => b as char,
    }
}

/// Windows-1252 text: one character per byte.
pub open spec fn cp1252_text(b: Seq<u8>) -> Seq<char> {
    Seq::new(b.len(), |i: int| cp1252_char(b[i]))
}

/// Calls `encoding_rs::WINDOWS_1252.decode`. Claimed: the result is that
/// call's decoded text for these bytes; without a byte-order mark it is
/// the bytes decoded one by one by the Windows-1252 table (encoding_rs's
/// single-byte table maps every byte). What it gives after a byte-order
/// mark (UTF-8 or UTF-16 decoding of the rest) is not stated.
#[verifier::external_body]
pub fn decode_cp1252(bytes: &[u8]) -> (s: String)
    ensures
        s@ == cp1252_decoded(bytes@),
        !has_bom(bytes@) ==> s@ == cp1252_text(bytes@),
{
    let (text, _, _) = encoding_rs::WINDOWS_1252.decode(bytes);
    text.into_owned()
}

/// UTF-16 decoding of code units: a unit outside 0xD800..=0xDFFF is its
/// own character; a lead surrogate (0xD800..=0xDBFF) followed by a trail
/// surrogate (0xDC00..=0xDFFF) is the character 0x10000 + (lead - 0xD800)
/// * 0x400 + (trail - 0xDC00); any other surrogate makes the units invalid.
pub open spec fn utf16_decoded(units: Seq<u16>) -> Option<Seq<char>>
    decreases units.len(),
{
    if units.len() == 0 {
        Some(seq![])
    } else {
        let u = units[0];
        if u < 0xD800 || u > 0xDFFF {
            match utf16_decoded(units.skip(1)) {
                Some(t) => Some(seq![u as char] + t),
                None => None,
            }
        } else if u <= 0xDBFF && units.len() >= 2 && 0xDC00 <= units[1] && units[1] <= 0xDFFF {
            let c: int = 0x10000 + (u - 0xD800) * 0x400 + (units[1] - 0xDC00);
            match utf16_decoded(units.skip(2)) {
                Some(t) => Some(seq![c as char] + t),
                None => None,
            }
        } else {
            None
        }
    }
}

/// Calls `String::from_utf16`. Claimed (std's documentation): it decodes
/// the units as UTF-16, failing (here `None`) exactly where an unpaired
/// surrogate occurs.
#[verifier::external_body]
pub fn decode_utf16(units: &[u16]) -> (r: Option<String>)
    ensures
        match r {
            Some(s) => utf16_decoded(units@) == Some(s@),
            None => utf16_decoded(units@) is None,
        },
{
    String::from_utf16(units).ok()
}

/// Calls `String::push`. Claimed (std's documentation): `c` is appended.
#[verifier::external_body]
pub fn push_char(s: &mut String, c: char)
    ensures
        final(s)@ == old(s)@.push(c),
{
    s.push(c)
}

/// The bytes of `s` up to (not including) its first NUL byte.
pub open spec fn until_nul(s: Seq<u8>) -> Seq<u8>
    decreases s.len(),
{
    if s.len() == 0 {
        s
    } else if s[0] == 0 {
        seq![]
    } else {
        seq![s[0]] + until_nul(s.drop_first())
    }
}

/// `s` without its leading NUL bytes.
pub open spec fn trim_nul_start(s: Seq<u8>) -> Seq<u8>
    decreases s.len(),
{
    if s.len() > 0 && s[0] == 0 {
        trim_nul_start(s.drop_first())
    } else {
        s
    }
}

/// `s` without its trailing NUL bytes.
pub open spec fn trim_nul_end(s: Seq<u8>) -> Seq<u8>
    decreases s.len(),
{
    if s.len() > 0 && s.last() == 0 {
        trim_nul_end(s.drop_last())
    } else {
        s
    }
}

/// How many bytes of `s` come before its first NUL byte.
pub fn nul_position(s: &[u8]) -> (n: usize)
    ensures
        n <= s@.len(),
        s@.subrange(0, n as int) == until_nul(s@),
{
    let mut i: usize = 0;
    assert(s@.skip(0) =~= s@);
    assert(s@.subrange(0, 0) + until_nul(s@) =~= until_nul(s@));
    while i < s.len() && s[i] != 0
        invariant
            i <= s@.len(),
            until_nul(s@) == s@.subrange(0, i as int) + until_nul(s@.skip(i as int)),
        decreases s@.len() - i,
    {
        proof {
            let t = s@.skip(i as int);
            assert(t.drop_first() =~= s@.skip(i + 1));
            assert(s@.subrange(0, i as int) + seq![s@[i as int]] =~= s@.subrange(0, i + 1));
            assert(until_nul(t) == seq![t[0]] + until_nul(t.drop_first()));
            assert(s@.subrange(0, i as int) + (seq![t[0]] + until_nul(t.drop_first())) =~= s@.subrange(0, i + 1) + until_nul(s@.skip(i + 1)));
        }
        i += 1;
    }
    proof {
        let t = s@.skip(i as int);
        if i < s@.len() {
            assert(t[0] == 0);
        }
        assert(until_nul(t) =~= seq![]);
        assert(s@.subrange(0, i as int) + seq![] =~= s@.subrange(0, i as int));
    }
    i
}

/// The range of `s` left once its leading and trailing NUL bytes are dropped.
pub fn trim_nul_range(s: &[u8]) -> (r: (usize, usize))
    ensures
        r.0 <= r.1 <= s@.len(),
        s@.subrange(r.0 as int, r.1 as int) == trim_nul_end(trim_nul_start(s@)),
{
    let mut lo: usize = 0;
    assert(s@.skip(0) =~= s@);
    while lo < s.len() && s[lo] == 0
        invariant
            lo <= s@.len(),
            trim_nul_start(s@) == trim_nul_start(s@.skip(lo as int)),
        decreases s@.len() - lo,
    {
        assert(s@.skip(lo as int).drop_first() =~= s@.skip(lo + 1));
        lo += 1;
    }
    assert(trim_nul_start(s@.skip(lo as int)) == s@.skip(lo as int));
    let mut hi: usize = s.len();
    assert(s@.skip(lo as int) =~= s@.subrange(lo as int, hi as int));
    while hi > lo && s[hi - 1] == 0
        invariant
            lo <= hi <= s@.len(),
            trim_nul_end(trim_nul_start(s@)) == trim_nul_end(s@.subrange(lo as int, hi as int)),
        decreases hi,
    {
        assert(s@.subrange(lo as int, hi as int).drop_last() =~= s@.subrange(lo as int, hi - 1));
        hi -= 1;
    }
    (lo, hi)
}

} // verus!
