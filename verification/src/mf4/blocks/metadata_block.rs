//! MDBLOCK: XML metadata.

use vstd::prelude::*;
use vstd::slice::slice_subrange;
use crate::codec::{decode_utf8_lossy, utf8_lossy, trim_nul_end, trim_nul_start, trim_nul_range};
use crate::mf4::blocks::header::{BlockHeader, ID_MD, spec_read_header_expecting, too_short};
use crate::mf4::blocks::data_block::payload_len;
use crate::mf4::error::MdfError;

verus! {

/// A metadata block: its XML text, NUL padding removed from both ends.
#[derive(Debug, Clone)]
pub struct MetadataBlock {
    pub header: BlockHeader,
    pub xml: String,
}

/// Reading a metadata block: a `##MD` header and its whole payload; the
/// text is the payload without leading and trailing NUL bytes, decoded as
/// UTF-8 with malformed sequences replaced.
pub open spec fn spec_read_md(s: Seq<u8>) -> Result<(BlockHeader, Seq<char>), MdfError> {
    match spec_read_header_expecting(s, ID_MD) {
        Err(e) => Err(e),
        Ok(h) => if s.len() < 24 + payload_len(h) {
            Err(too_short(s.len() as int, 24 + payload_len(h)))
        } else {
            Ok((h, utf8_lossy(trim_nul_end(trim_nul_start(s.subrange(24, 24 + payload_len(h)))))))
        },
    }
}

impl MetadataBlock {
    /// Reads a metadata block from the start of `bytes`.
    pub fn from_bytes(bytes: &[u8]) -> (res: Result<MetadataBlock, MdfError>)
        ensures
            match (res, spec_read_md(bytes@)) {
                (Ok(b), Ok((h, x))) => b.header == h && b.xml@ == x,
                (Err(e1), Err(e2)) => e1 == e2,
                _ => false,
            },
    {
        let header = BlockHeader::parse_expecting(bytes, ID_MD)?;
        let data_len = (header.block_len as usize).saturating_sub(24);
        if bytes.len() - 24 < data_len {
            return Err(MdfError::TooShortBuffer { actual: bytes.len(), expected: 24 + data_len });
        }
        let data = slice_subrange(bytes, 24, 24 + data_len);
        let (lo, hi) = trim_nul_range(data);
        let xml = decode_utf8_lossy(slice_subrange(data, lo, hi));
        Ok(MetadataBlock { header, xml })
    }
}

} // verus!
