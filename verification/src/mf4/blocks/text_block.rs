//! TXBLOCK / MDBLOCK text referenced by links (names, units, comments).

use vstd::prelude::*;
use vstd::slice::slice_subrange;
use crate::codec::{decode_utf8_lossy, utf8_lossy, until_nul, nul_position};
use crate::mf4::blocks::header::{BlockHeader, ID_TX, ID_MD, spec_id, spec_read_header, too_short, same_id};
use crate::mf4::blocks::data_block::payload_len;
use crate::mf4::blocks::channel_block::clamp_usize;
use crate::mf4::error::{MdfError, ExpectedBlock};

verus! {

/// Reading the text a link points at: none for a NIL link; otherwise a
/// `##TX` or `##MD` block within the file, whose payload up to its first NUL
/// byte is decoded as UTF-8 with malformed sequences replaced.
pub open spec fn spec_read_text(mmap: Seq<u8>, addr: u64) -> Result<Option<Seq<char>>, MdfError> {
    if addr == 0 {
        Ok(None)
    } else if addr as int + 24 > mmap.len() {
        Err(too_short(mmap.len() as int, clamp_usize(addr as int + 24) as int))
    } else {
        let s = mmap.skip(addr as int);
        match spec_read_header(s) {
            Err(e) => Err(e),
            Ok(h) => if spec_id(s) != ID_TX@ && spec_id(s) != ID_MD@ {
                Err(MdfError::BlockIDError { actual: h.id, expected: ExpectedBlock::Text })
            } else if s.len() < 24 + payload_len(h) {
                Err(too_short(s.len() as int, 24 + payload_len(h)))
            } else {
                Ok(Some(utf8_lossy(until_nul(s.subrange(24, 24 + payload_len(h))))))
            },
        }
    }
}

/// The text option a read produced, taken by its characters.
pub open spec fn text_view(r: Result<Option<String>, MdfError>) -> Result<Option<Seq<char>>, MdfError> {
    match r {
        Ok(Some(s)) => Ok(Some(s@)),
        Ok(None) => Ok(None),
        Err(e) => Err(e),
    }
}

/// Reads the text of the `##TX`/`##MD` block at `addr` (`None` for address 0).
pub fn read_string_block(mmap: &[u8], addr: u64) -> (res: Result<Option<String>, MdfError>)
    ensures
        text_view(res) == spec_read_text(mmap@, addr),
{
    if addr == 0 {
        return Ok(None);
    }
    if addr > mmap.len() as u64 || mmap.len() - (addr as usize) < 24 {
        let expected = if addr > (usize::MAX - 24) as u64 {
            usize::MAX
        } else {
            addr as usize + 24
        };
        return Err(MdfError::TooShortBuffer { actual: mmap.len(), expected });
    }
    let start = addr as usize;
    let bytes = slice_subrange(mmap, start, mmap.len());
    assert(bytes@ =~= mmap@.skip(addr as int));
    let header = BlockHeader::from_bytes(bytes)?;
    assert(header.id@ =~= spec_id(bytes@));
    if !same_id(&header.id, &ID_TX) && !same_id(&header.id, &ID_MD) {
        return Err(MdfError::BlockIDError { actual: header.id, expected: ExpectedBlock::Text });
    }
    let data_len = (header.block_len as usize).saturating_sub(24);
    if bytes.len() - 24 < data_len {
        return Err(MdfError::TooShortBuffer { actual: bytes.len(), expected: 24 + data_len });
    }
    let data = slice_subrange(bytes, 24, 24 + data_len);
    let end = nul_position(data);
    Ok(Some(decode_utf8_lossy(slice_subrange(data, 0, end))))
}

} // verus!
