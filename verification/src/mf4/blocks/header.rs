//! The 24-byte header every MDF4 block starts with, and block ids.

use vstd::prelude::*;
use crate::bytes::{
    le_u32_at, le_u64_at, le_bytes_u32, le_bytes_u64, read_u32_le, read_u64_le, push_u32_le,
    push_u64_le, lemma_le_u32_roundtrip, lemma_le_u64_roundtrip,
};
use crate::mf4::error::{MdfError, ExpectedBlock};

verus! {

/// `##CG`: channel group.
pub const ID_CG: [u8; 4] = [35, 35, 67, 71];
/// `##CN`: channel.
pub const ID_CN: [u8; 4] = [35, 35, 67, 78];
/// `##DG`: data group.
pub const ID_DG: [u8; 4] = [35, 35, 68, 71];
/// `##HD`: file header.
pub const ID_HD: [u8; 4] = [35, 35, 72, 68];
/// `##DT`: record data.
pub const ID_DT: [u8; 4] = [35, 35, 68, 84];
/// `##DV`: column-oriented sample data.
pub const ID_DV: [u8; 4] = [35, 35, 68, 86];
/// `##DZ`: zipped data fragment.
pub const ID_DZ: [u8; 4] = [35, 35, 68, 90];
/// `##DL`: data list.
pub const ID_DL: [u8; 4] = [35, 35, 68, 76];
/// `##HL`: history (header) list.
pub const ID_HL: [u8; 4] = [35, 35, 72, 76];
/// `##SD`: signal data.
pub const ID_SD: [u8; 4] = [35, 35, 83, 68];
/// `##SI`: source information.
pub const ID_SI: [u8; 4] = [35, 35, 83, 73];
/// `##MD`: XML metadata.
pub const ID_MD: [u8; 4] = [35, 35, 77, 68];
/// `##TX`: plain text.
pub const ID_TX: [u8; 4] = [35, 35, 84, 88];
/// `##CC`: channel conversion.
pub const ID_CC: [u8; 4] = [35, 35, 67, 67];

/// The common block header: 4-byte id, 4 reserved bytes, the block's total
/// length and its number of links.
#[derive(Debug, Clone, Copy, PartialEq, Eq)]
pub struct BlockHeader {
    pub id: [u8; 4],
    pub reserved0: u32,
    pub block_len: u64,
    pub links_nr: u64,
}

/// The id stored in a block's first four bytes.
pub open spec fn spec_id(s: Seq<u8>) -> Seq<u8> {
    s.subrange(0, 4)
}

/// The header stored at the start of `s` (meaningful when `s` holds 24 bytes).
pub open spec fn spec_header(s: Seq<u8>) -> BlockHeader {
    BlockHeader {
        id: [s[0], s[1], s[2], s[3]],
        reserved0: le_u32_at(s, 4),
        block_len: le_u64_at(s, 8),
        links_nr: le_u64_at(s, 16),
    }
}

/// The error a buffer of length `len` gives where `expected` bytes are needed.
pub open spec fn too_short(len: int, expected: int) -> MdfError {
    MdfError::TooShortBuffer { actual: len as usize, expected: expected as usize }
}

/// Reading a header: it needs 24 bytes.
pub open spec fn spec_read_header(s: Seq<u8>) -> Result<BlockHeader, MdfError> {
    if s.len() < 24 {
        Err(too_short(s.len() as int, 24))
    } else {
        Ok(spec_header(s))
    }
}

/// Reading a header that must carry the id `id`.
pub open spec fn spec_read_header_expecting(s: Seq<u8>, id: [u8; 4]) -> Result<
    BlockHeader,
    MdfError,
> {
    if s.len() < 24 {
        Err(too_short(s.len() as int, 24))
    } else if spec_id(s) != id@ {
        Err(MdfError::BlockIDError { actual: spec_header(s).id, expected: ExpectedBlock::One(id) })
    } else {
        Ok(spec_header(s))
    }
}

/// The 24 bytes a header is written as.
pub open spec fn header_bytes(h: BlockHeader) -> Seq<u8> {
    h.id@ + le_bytes_u32(h.reserved0) + le_bytes_u64(h.block_len) + le_bytes_u64(h.links_nr)
}

impl BlockHeader {
    /// Reads the header at the start of `bytes`.
    pub fn from_bytes(bytes: &[u8]) -> (res: Result<BlockHeader, MdfError>)
        ensures
            res == spec_read_header(bytes@),
    {
        if bytes.len() < 24 {
            return Err(MdfError::TooShortBuffer { actual: bytes.len(), expected: 24 });
        }
        let id = [bytes[0], bytes[1], bytes[2], bytes[3]];
        assert(id =~= spec_header(bytes@).id);
        Ok(
            BlockHeader {
                id,
                reserved0: read_u32_le(bytes, 4),
                block_len: read_u64_le(bytes, 8),
                links_nr: read_u64_le(bytes, 16),
            },
        )
    }

    /// Reads the header at the start of `bytes` and checks its id.
    pub fn parse_expecting(bytes: &[u8], id: [u8; 4]) -> (res: Result<BlockHeader, MdfError>)
        ensures
            res == spec_read_header_expecting(bytes@, id),
    {
        let h = BlockHeader::from_bytes(bytes)?;
        assert(h.id@ =~= spec_id(bytes@));
        if !same_id(&h.id, &id) {
            return Err(MdfError::BlockIDError { actual: h.id, expected: ExpectedBlock::One(id) });
        }
        Ok(h)
    }

    /// The 24 bytes this header is written as.
    pub fn to_bytes(&self) -> (out: Vec<u8>)
        ensures
            out@ == header_bytes(*self),
    {
        let mut out: Vec<u8> = Vec::with_capacity(24);
        out.push(self.id[0]);
        out.push(self.id[1]);
        out.push(self.id[2]);
        out.push(self.id[3]);
        assert(out@ =~= self.id@);
        push_u32_le(&mut out, self.reserved0);
        push_u64_le(&mut out, self.block_len);
        push_u64_le(&mut out, self.links_nr);
        out
    }
}

/// Two ids are equal.
pub fn same_id(a: &[u8; 4], b: &[u8; 4]) -> (r: bool)
    ensures
        r == (a@ == b@),
{
    let r = a[0] == b[0] && a[1] == b[1] && a[2] == b[2] && a[3] == b[3];
    if r {
        assert(a@ =~= b@);
    }
    r
}

/// The id at the start of `bytes` (which holds at least 4 bytes) equals `id`.
pub fn starts_with_id(bytes: &[u8], id: &[u8; 4]) -> (r: bool)
    requires
        bytes@.len() >= 4,
    ensures
        r == (spec_id(bytes@) == id@),
{
    let r = bytes[0] == id[0] && bytes[1] == id[1] && bytes[2] == id[2] && bytes[3] == id[3];
    if r {
        assert(spec_id(bytes@) =~= id@);
    } else {
        assert(spec_id(bytes@)[0] != id@[0] || spec_id(bytes@)[1] != id@[1] || spec_id(bytes@)[2]
            != id@[2] || spec_id(bytes@)[3] != id@[3]);
    }
    r
}

/// The 8 bytes at `off` of `s` are the little-endian encoding of `v`.
pub proof fn lemma_u64_field(s: Seq<u8>, off: int, v: u64)
    requires
        0 <= off,
        off + 8 <= s.len(),
        s.subrange(off, off + 8) == le_bytes_u64(v),
    ensures
        le_u64_at(s, off) == v,
{
    lemma_le_u64_roundtrip(v);
    let t = s.subrange(off, off + 8);
    assert(t[0] == s[off] && t[1] == s[off + 1] && t[2] == s[off + 2] && t[3] == s[off + 3]);
    assert(t[4] == s[off + 4] && t[5] == s[off + 5] && t[6] == s[off + 6] && t[7] == s[off + 7]);
}

/// The 4 bytes at `off` of `s` are the little-endian encoding of `v`.
pub proof fn lemma_u32_field(s: Seq<u8>, off: int, v: u32)
    requires
        0 <= off,
        off + 4 <= s.len(),
        s.subrange(off, off + 4) == le_bytes_u32(v),
    ensures
        le_u32_at(s, off) == v,
{
    lemma_le_u32_roundtrip(v);
    let t = s.subrange(off, off + 4);
    assert(t[0] == s[off] && t[1] == s[off + 1] && t[2] == s[off + 2] && t[3] == s[off + 3]);
}

/// Writing a header and reading it back gives the same header.
pub proof fn lemma_header_roundtrip(h: BlockHeader)
    ensures
        header_bytes(h).len() == 24,
        spec_read_header(header_bytes(h)) == Ok::<BlockHeader, MdfError>(h),
{
    let s = header_bytes(h);
    assert(s.subrange(4, 8) =~= le_bytes_u32(h.reserved0));
    assert(s.subrange(8, 16) =~= le_bytes_u64(h.block_len));
    assert(s.subrange(16, 24) =~= le_bytes_u64(h.links_nr));
    lemma_u32_field(s, 4, h.reserved0);
    lemma_u64_field(s, 8, h.block_len);
    lemma_u64_field(s, 16, h.links_nr);
    assert(spec_header(s).id =~= h.id);
}

} // verus!

verus! {

/// The 2 bytes at `off` of `s` are the little-endian encoding of `v`.
pub proof fn lemma_u16_field(s: Seq<u8>, off: int, v: u16)
    requires
        0 <= off,
        off + 2 <= s.len(),
        s.subrange(off, off + 2) == crate::bytes::le_bytes_u16(v),
    ensures
        crate::bytes::le_u16_at(s, off) == v,
{
    crate::bytes::lemma_le_u16_roundtrip(v);
    let t = s.subrange(off, off + 2);
    assert(t[0] == s[off] && t[1] == s[off + 1]);
}

} // verus!
