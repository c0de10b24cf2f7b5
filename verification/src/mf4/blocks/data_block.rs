//! DTBLOCK / DVBLOCK / SDBLOCK: a block whose payload is raw bytes.

use vstd::prelude::*;
use vstd::slice::{slice_subrange, slice_to_vec};
use crate::mf4::blocks::header::{
    BlockHeader, ID_DT, ID_DV, ID_SD, spec_id, spec_read_header, too_short, same_id,
    spec_read_header_expecting};
use crate::mf4::error::{MdfError, ExpectedBlock};

verus! {

/// A decoded `##DT`/`##DV` (or inflated `##DZ`) data fragment; it owns its bytes.
#[derive(Debug, Clone)]
pub struct DataBlock {
    pub header: BlockHeader,
    pub data: Vec<u8>,
}

impl View for DataBlock {
    type V = (BlockHeader, Seq<u8>);

    open spec fn view(&self) -> (BlockHeader, Seq<u8>) {
        (self.header, self.data@)
    }
}

/// The payload length a header declares: its block length less the 24
/// header bytes, as a `usize`.
pub open spec fn payload_len(h: BlockHeader) -> int {
    if (h.block_len as usize) < 24 {
        0
    } else {
        (h.block_len as usize) - 24
    }
}

/// The payload of a block that starts at `s` with header `h`, if `s` holds it all.
pub open spec fn spec_payload(s: Seq<u8>, h: BlockHeader) -> Result<(BlockHeader, Seq<u8>), MdfError> {
    if s.len() < 24 + payload_len(h) {
        Err(too_short(s.len() as int, 24 + payload_len(h)))
    } else {
        Ok((h, s.subrange(24, 24 + payload_len(h))))
    }
}

/// Reading a `##DT` or `##DV` block and its payload.
pub open spec fn spec_read_dt(s: Seq<u8>) -> Result<(BlockHeader, Seq<u8>), MdfError> {
    match spec_read_header(s) {
        Err(e) => Err(e),
        Ok(h) => if spec_id(s) != ID_DT@ && spec_id(s) != ID_DV@ {
            Err(MdfError::BlockIDError { actual: h.id, expected: ExpectedBlock::PlainData })
        } else {
            spec_payload(s, h)
        },
    }
}

/// Reading a `##SD` block and its payload.
pub open spec fn spec_read_sd(s: Seq<u8>) -> Result<(BlockHeader, Seq<u8>), MdfError> {
    match spec_read_header_expecting(s, ID_SD) {
        Err(e) => Err(e),
        Ok(h) => spec_payload(s, h),
    }
}

/// Copies out the payload of a block whose header `header` starts `bytes`.
fn read_payload(bytes: &[u8], header: BlockHeader) -> (res: Result<DataBlock, MdfError>)
    requires
        bytes@.len() >= 24,
    ensures
        crate::mf4::error::view_result(res) == spec_payload(bytes@, header),
{
    let data_len = (header.block_len as usize).saturating_sub(24);
    if bytes.len() - 24 < data_len {
        return Err(MdfError::TooShortBuffer { actual: bytes.len(), expected: 24 + data_len });
    }
    let data = slice_to_vec(slice_subrange(bytes, 24, 24 + data_len));
    Ok(DataBlock { header, data })
}

impl DataBlock {
    /// Reads a `##DT` or `##DV` block: a 24-byte header and its payload.
    /// Zipped `##DZ` fragments are read by `read_dz_block` instead.
    pub fn from_bytes(bytes: &[u8]) -> (res: Result<DataBlock, MdfError>)
        ensures
            crate::mf4::error::view_result(res) == spec_read_dt(bytes@),
    {
        let header = BlockHeader::from_bytes(bytes)?;
        assert(header.id@ =~= spec_id(bytes@));
        if !same_id(&header.id, &ID_DT) && !same_id(&header.id, &ID_DV) {
            return Err(MdfError::BlockIDError { actual: header.id, expected: ExpectedBlock::PlainData });
        }
        read_payload(bytes, header)
    }
}

/// A `##SD` block: the variable-length values of a VLSD channel.
#[derive(Debug, Clone)]
pub struct SignalDataBlock {
    pub header: BlockHeader,
    pub data: Vec<u8>,
}

impl SignalDataBlock {
    /// Reads a `##SD` block: a 24-byte header and its payload.
    pub fn from_bytes(bytes: &[u8]) -> (res: Result<SignalDataBlock, MdfError>)
        ensures
            match (res, spec_read_sd(bytes@)) {
                (Ok(b), Ok((h, d))) => b.header == h && b.data@ == d,
                (Err(e1), Err(e2)) => e1 == e2,
                _ => false,
            },
    {
        let header = BlockHeader::parse_expecting(bytes, ID_SD)?;
        let block = read_payload(bytes, header)?;
        Ok(SignalDataBlock { header: block.header, data: block.data })
    }
}

} // verus!
