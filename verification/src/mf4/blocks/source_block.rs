//! SIBLOCK: where a channel group's or channel's data was acquired.

use vstd::prelude::*;
use vstd::slice::slice_subrange;
use crate::bytes::{le_u64_at, read_u64_le};
use crate::mf4::blocks::header::{BlockHeader, ID_SI, spec_read_header_expecting, spec_read_header, too_short};
use crate::mf4::blocks::channel_block::clamp_usize;
use crate::mf4::error::MdfError;

verus! {

/// A source information block: links to its name, path and comment, then
/// its type (0 other, 1 ECU, 2 bus, 3 I/O, 4 tool, 5 user), bus type and flags.
#[derive(Debug, Clone, Copy)]
pub struct SourceBlock {
    pub header: BlockHeader,
    pub name_addr: u64,
    pub path_addr: u64,
    pub comment_addr: u64,
    pub source_type: u8,
    pub bus_type: u8,
    pub flags: u8,
}

/// Link `i` of a block at `s` if it has more than `i` links, else 0.
pub open spec fn link_or_zero(s: Seq<u8>, links_nr: u64, i: int) -> u64 {
    if i < links_nr {
        le_u64_at(s, 24 + 8 * i)
    } else {
        0
    }
}

/// Reading a source block: a `##SI` header, its links, then three data bytes.
pub open spec fn spec_read_si(s: Seq<u8>) -> Result<SourceBlock, MdfError> {
    match spec_read_header_expecting(s, ID_SI) {
        Err(e) => Err(e),
        Ok(h) => {
            let d = 24 + 8 * h.links_nr;
            if s.len() < d + 3 {
                Err(MdfError::TooShortBuffer { actual: s.len() as usize, expected: clamp_usize(d + 3) })
            } else {
                Ok(SourceBlock {
                    header: h,
                    name_addr: link_or_zero(s, h.links_nr, 0),
                    path_addr: link_or_zero(s, h.links_nr, 1),
                    comment_addr: link_or_zero(s, h.links_nr, 2),
                    source_type: s[d],
                    bus_type: s[d + 1],
                    flags: s[d + 2],
                })
            }
        },
    }
}

impl SourceBlock {
    /// Reads a source block from the start of `bytes`.
    pub fn from_bytes(bytes: &[u8]) -> (res: Result<SourceBlock, MdfError>)
        ensures
            res == spec_read_si(bytes@),
    {
        let header = BlockHeader::parse_expecting(bytes, ID_SI)?;
        let required: u128 = 27 + 8 * (header.links_nr as u128);
        if (bytes.len() as u128) < required {
            let expected = if required > usize::MAX as u128 {
                usize::MAX
            } else {
                required as usize
            };
            return Err(MdfError::TooShortBuffer { actual: bytes.len(), expected });
        }
        let link_count = header.links_nr as usize;
        let name_addr = if link_count > 0 { read_u64_le(bytes, 24) } else { 0 };
        let path_addr = if link_count > 1 { read_u64_le(bytes, 32) } else { 0 };
        let comment_addr = if link_count > 2 { read_u64_le(bytes, 40) } else { 0 };
        let data_start = 24 + link_count * 8;
        Ok(SourceBlock {
            header,
            name_addr,
            path_addr,
            comment_addr,
            source_type: bytes[data_start],
            bus_type: bytes[data_start + 1],
            flags: bytes[data_start + 2],
        })
    }
}

/// Reading the source block at `address` of the file: its header must lie
/// within the file, and so must the whole length it declares.
pub open spec fn spec_read_source_block(mmap: Seq<u8>, address: u64) -> Result<SourceBlock, MdfError> {
    let start = address as usize as int;
    if start + 24 > usize::MAX || start + 24 > mmap.len() {
        Err(too_short(mmap.len() as int, clamp_usize(start + 24) as int))
    } else {
        match spec_read_header(mmap.subrange(start, start + 24)) {
            Err(e) => Err(e),
            Ok(h) => {
                let end = start + (h.block_len as usize);
                if end > usize::MAX {
                    Err(too_short(mmap.len() as int, usize::MAX as int))
                } else if end > mmap.len() {
                    Err(too_short(mmap.len() as int, end))
                } else {
                    spec_read_si(mmap.subrange(start, end))
                }
            },
        }
    }
}

/// Reads the source block stored at `address` of the file `mmap`.
pub fn read_source_block(mmap: &[u8], address: u64) -> (res: Result<SourceBlock, MdfError>)
    ensures
        res == spec_read_source_block(mmap@, address),
{
    let start = address as usize;
    if start > mmap.len() || mmap.len() - start < 24 {
        return Err(MdfError::TooShortBuffer { actual: mmap.len(), expected: start.saturating_add(24) });
    }
    let header = BlockHeader::from_bytes(slice_subrange(mmap, start, start + 24))?;
    let total_len = header.block_len as usize;
    if total_len > usize::MAX - start {
        return Err(MdfError::TooShortBuffer { actual: mmap.len(), expected: usize::MAX });
    }
    let end = start + total_len;
    if end > mmap.len() {
        return Err(MdfError::TooShortBuffer { actual: mmap.len(), expected: end });
    }
    SourceBlock::from_bytes(slice_subrange(mmap, start, end))
}

} // verus!
