//! DGBLOCK: a data group, whose records hold the samples of its channel groups.

use vstd::prelude::*;
use crate::bytes::{le_u64_at, read_u64_le};
use crate::mf4::blocks::header::{BlockHeader, ID_DG, spec_read_header_expecting, too_short};
use crate::mf4::error::MdfError;

verus! {

/// A data group block: links to the next group, its first channel group,
/// its data and its comment, then the size of each record's id.
#[derive(Debug, Clone, Copy)]
pub struct DataGroupBlock {
    pub header: BlockHeader,
    pub next_dg_addr: u64,
    pub first_cg_addr: u64,
    pub data_block_addr: u64,
    pub comment_addr: u64,
    pub record_id_len: u8,
}

/// Reading a data group block: a `##DG` header, then 64 bytes in all.
pub open spec fn spec_read_dg(s: Seq<u8>) -> Result<DataGroupBlock, MdfError> {
    match spec_read_header_expecting(s, ID_DG) {
        Err(e) => Err(e),
        Ok(h) => if s.len() < 64 {
            Err(too_short(s.len() as int, 64))
        } else {
            Ok(DataGroupBlock {
                header: h,
                next_dg_addr: le_u64_at(s, 24),
                first_cg_addr: le_u64_at(s, 32),
                data_block_addr: le_u64_at(s, 40),
                comment_addr: le_u64_at(s, 48),
                record_id_len: s[56],
            })
        },
    }
}

impl DataGroupBlock {
    /// Reads a data group block from the start of `bytes`.
    pub fn from_bytes(bytes: &[u8]) -> (res: Result<DataGroupBlock, MdfError>)
        ensures
            res == spec_read_dg(bytes@),
    {
        let header = BlockHeader::parse_expecting(bytes, ID_DG)?;
        if bytes.len() < 64 {
            return Err(MdfError::TooShortBuffer { actual: bytes.len(), expected: 64 });
        }
        Ok(DataGroupBlock {
            header,
            next_dg_addr: read_u64_le(bytes, 24),
            first_cg_addr: read_u64_le(bytes, 32),
            data_block_addr: read_u64_le(bytes, 40),
            comment_addr: read_u64_le(bytes, 48),
            record_id_len: bytes[56],
        })
    }
}

} // verus!
