//! HLBLOCK: the wrapper in front of a `##DL` chain whose fragments are zipped.

use vstd::prelude::*;
use crate::bytes::{le_u16_at, le_u64_at, read_u16_le, read_u64_le};
use crate::mf4::blocks::header::{BlockHeader, ID_HL, spec_read_header_expecting, too_short};
use crate::mf4::error::MdfError;

verus! {

/// A history list block: the first data list, flags and the zip type.
#[derive(Debug, Clone, Copy)]
pub struct HistoryListBlock {
    pub header: BlockHeader,
    pub dl_first: u64,
    pub flags: u16,
    pub zip_type: u8,
}

/// Reading a history list block: a `##HL` header, then 35 bytes in all.
pub open spec fn spec_read_hl(s: Seq<u8>) -> Result<HistoryListBlock, MdfError> {
    match spec_read_header_expecting(s, ID_HL) {
        Err(e) => Err(e),
        Ok(h) => if s.len() < 35 {
            Err(too_short(s.len() as int, 35))
        } else {
            Ok(HistoryListBlock { header: h, dl_first: le_u64_at(s, 24), flags: le_u16_at(s, 32), zip_type: s[34] })
        },
    }
}

impl HistoryListBlock {
    /// Reads a history list block from the start of `bytes`.
    pub fn from_bytes(bytes: &[u8]) -> (res: Result<HistoryListBlock, MdfError>)
        ensures
            res == spec_read_hl(bytes@),
    {
        let header = BlockHeader::parse_expecting(bytes, ID_HL)?;
        if bytes.len() < 35 {
            return Err(MdfError::TooShortBuffer { actual: bytes.len(), expected: 35 });
        }
        Ok(HistoryListBlock {
            header,
            dl_first: read_u64_le(bytes, 24),
            flags: read_u16_le(bytes, 32),
            zip_type: bytes[34],
        })
    }
}

} // verus!
