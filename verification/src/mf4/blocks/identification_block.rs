//! The identification block (the file's first 64 bytes) and the file
//! header block that follows it.

use vstd::prelude::*;
use crate::bytes::{le_u16_at, le_u64_at, read_u16_le, read_u64_le};
use crate::mf4::blocks::header::{BlockHeader, ID_HD, spec_read_header_expecting, too_short};
use crate::mf4::error::MdfError;

verus! {

/// `"MDF     "`: what every MDF file starts with.
pub const FILE_ID: [u8; 8] = [77, 68, 70, 32, 32, 32, 32, 32];

/// The oldest version this reader accepts (4.10).
pub const MIN_VERSION: u16 = 410;

/// The identification block: file id, version text, program id and the
/// version number.
#[derive(Debug, Clone, Copy)]
pub struct IdentificationBlock {
    pub file_id: [u8; 8],
    pub version_str: [u8; 8],
    pub program_id: [u8; 8],
    pub version_number: u16,
    pub unfinalized_flags: u16,
    pub custom_unfinalized_flags: u16,
}

/// The 8 bytes at `off` of `s`.
pub open spec fn bytes8(s: Seq<u8>, off: int) -> [u8; 8] {
    [s[off], s[off + 1], s[off + 2], s[off + 3], s[off + 4], s[off + 5], s[off + 6], s[off + 7]]
}

/// Reading the identification block: 64 bytes, the `"MDF     "` id and a
/// version number of at least 410.
pub open spec fn spec_read_id_block(s: Seq<u8>) -> Result<IdentificationBlock, MdfError> {
    if s.len() < 64 {
        Err(too_short(s.len() as int, 64))
    } else if s.subrange(0, 8) != FILE_ID@ {
        Err(MdfError::FileIdentifierError(bytes8(s, 0)))
    } else if le_u16_at(s, 28) < MIN_VERSION {
        Err(MdfError::FileVersioningError(le_u16_at(s, 28)))
    } else {
        Ok(IdentificationBlock {
            file_id: bytes8(s, 0),
            version_str: bytes8(s, 8),
            program_id: bytes8(s, 16),
            version_number: le_u16_at(s, 28),
            unfinalized_flags: le_u16_at(s, 60),
            custom_unfinalized_flags: le_u16_at(s, 62),
        })
    }
}

fn read_bytes8(b: &[u8], off: usize) -> (r: [u8; 8])
    requires
        off + 8 <= b@.len(),
    ensures
        r == bytes8(b@, off as int),
{
    let r = [b[off], b[off + 1], b[off + 2], b[off + 3], b[off + 4], b[off + 5], b[off + 6], b[off + 7]];
    assert(r =~= bytes8(b@, off as int));
    r
}

impl IdentificationBlock {
    /// Reads the identification block at the start of the file.
    pub fn from_bytes(bytes: &[u8]) -> (res: Result<IdentificationBlock, MdfError>)
        ensures
            res == spec_read_id_block(bytes@),
    {
        if bytes.len() < 64 {
            return Err(MdfError::TooShortBuffer { actual: bytes.len(), expected: 64 });
        }
        let file_id = read_bytes8(bytes, 0);
        let mut same = true;
        let mut i: usize = 0;
        while i < 8
            invariant
                i <= 8,
                bytes@.len() >= 64,
                file_id == bytes8(bytes@, 0),
                same == (forall|j: int| 0 <= j < i ==> bytes@[j] == FILE_ID@[j]),
            decreases 8 - i,
        {
            if bytes[i] != FILE_ID[i] {
                same = false;
            }
            i += 1;
        }
        if !same {
            assert(bytes@.subrange(0, 8) != FILE_ID@ ) by {
                let j = choose|j: int| 0 <= j < 8 && bytes@[j] != FILE_ID@[j];
                assert(bytes@.subrange(0, 8)[j] != FILE_ID@[j]);
            }
            return Err(MdfError::FileIdentifierError(file_id));
        }
        assert(bytes@.subrange(0, 8) =~= FILE_ID@);
        let version_number = read_u16_le(bytes, 28);
        if version_number < MIN_VERSION {
            return Err(MdfError::FileVersioningError(version_number));
        }
        Ok(IdentificationBlock {
            file_id,
            version_str: read_bytes8(bytes, 8),
            program_id: read_bytes8(bytes, 16),
            version_number,
            unfinalized_flags: read_u16_le(bytes, 60),
            custom_unfinalized_flags: read_u16_le(bytes, 62),
        })
    }
}

/// The file header block: links to the first data group, file history,
/// channel hierarchy, attachment, event and comment, then the start time
/// (nanoseconds since the epoch) and its time-zone data.
#[derive(Debug, Clone, Copy)]
pub struct HeaderBlock {
    pub header: BlockHeader,
    pub first_dg_addr: u64,
    pub file_history_addr: u64,
    pub channel_tree_addr: u64,
    pub first_attachment_addr: u64,
    pub first_event_addr: u64,
    pub comment_addr: u64,
    pub abs_time: u64,
    pub tz_offset: u16,
    pub daylight_save_time: u16,
    pub time_flags: u8,
    pub time_quality: u8,
    pub flags: u8,
}

/// Reading the file header block: a `##HD` header, then 104 bytes in all.
pub open spec fn spec_read_hd(s: Seq<u8>) -> Result<HeaderBlock, MdfError> {
    match spec_read_header_expecting(s, ID_HD) {
        Err(e) => Err(e),
        Ok(h) => if s.len() < 104 {
            Err(too_short(s.len() as int, 104))
        } else {
            Ok(HeaderBlock {
                header: h,
                first_dg_addr: le_u64_at(s, 24),
                file_history_addr: le_u64_at(s, 32),
                channel_tree_addr: le_u64_at(s, 40),
                first_attachment_addr: le_u64_at(s, 48),
                first_event_addr: le_u64_at(s, 56),
                comment_addr: le_u64_at(s, 64),
                abs_time: le_u64_at(s, 72),
                tz_offset: le_u16_at(s, 80),
                daylight_save_time: le_u16_at(s, 82),
                time_flags: s[84],
                time_quality: s[85],
                flags: s[86],
            })
        },
    }
}

impl HeaderBlock {
    /// Reads the file header block from the start of `bytes`.
    pub fn from_bytes(bytes: &[u8]) -> (res: Result<HeaderBlock, MdfError>)
        ensures
            res == spec_read_hd(bytes@),
    {
        let header = BlockHeader::parse_expecting(bytes, ID_HD)?;
        if bytes.len() < 104 {
            return Err(MdfError::TooShortBuffer { actual: bytes.len(), expected: 104 });
        }
        Ok(HeaderBlock {
            header,
            first_dg_addr: read_u64_le(bytes, 24),
            file_history_addr: read_u64_le(bytes, 32),
            channel_tree_addr: read_u64_le(bytes, 40),
            first_attachment_addr: read_u64_le(bytes, 48),
            first_event_addr: read_u64_le(bytes, 56),
            comment_addr: read_u64_le(bytes, 64),
            abs_time: read_u64_le(bytes, 72),
            tz_offset: read_u16_le(bytes, 80),
            daylight_save_time: read_u16_le(bytes, 82),
            time_flags: bytes[84],
            time_quality: bytes[85],
            flags: bytes[86],
        })
    }
}

} // verus!
