//! CNBLOCK: one channel (signal) of a channel group.

use vstd::prelude::*;
use crate::bytes::{le_u16_at, le_u32_at, le_u64_at, read_u16_le, read_u32_le, read_u64_le};
use crate::mf4::blocks::header::{BlockHeader, ID_CN, spec_read_header_expecting, spec_header};
use crate::mf4::error::{MdfError, LayoutProblem};

verus! {

/// How a channel's raw bits are encoded (`cn_data_type`).
#[derive(Debug, Clone, Copy, PartialEq, Eq, Structural)]
pub enum DataType {
    UnsignedIntegerLE,
    UnsignedIntegerBE,
    SignedIntegerLE,
    SignedIntegerBE,
    FloatLE,
    FloatBE,
    StringLatin1,
    StringUtf8,
    StringUtf16LE,
    StringUtf16BE,
    ByteArray,
    MimeSample,
    MimeStream,
    CanOpenDate,
    CanOpenTime,
    ComplexLE,
    ComplexBE,
    Unknown(u8),
}

/// The data type a `cn_data_type` code stands for.
pub open spec fn spec_data_type(code: u8) -> DataType {
    if code == 0 {
        DataType::UnsignedIntegerLE
    } else if code == 1 {
        DataType::UnsignedIntegerBE
    } else if code == 2 {
        DataType::SignedIntegerLE
    } else if code == 3 {
        DataType::SignedIntegerBE
    } else if code == 4 {
        DataType::FloatLE
    } else if code == 5 {
        DataType::FloatBE
    } else if code == 6 {
        DataType::StringLatin1
    } else if code == 7 {
        DataType::StringUtf8
    } else if code == 8 {
        DataType::StringUtf16LE
    } else if code == 9 {
        DataType::StringUtf16BE
    } else if code == 10 {
        DataType::ByteArray
    } else if code == 11 {
        DataType::MimeSample
    } else if code == 12 {
        DataType::MimeStream
    } else if code == 13 {
        DataType::CanOpenDate
    } else if code == 14 {
        DataType::CanOpenTime
    } else if code == 15 {
        DataType::ComplexLE
    } else if code == 16 {
        DataType::ComplexBE
    } else {
        DataType::Unknown(code)
    }
}

impl DataType {
    /// The data type a `cn_data_type` code stands for.
    pub fn from_code(code: u8) -> (t: DataType)
        ensures
            t == spec_data_type(code),
    {
        match code {
            0 => DataType::UnsignedIntegerLE,
            1 => DataType::UnsignedIntegerBE,
            2 => DataType::SignedIntegerLE,
            3 => DataType::SignedIntegerBE,
            4 => DataType::FloatLE,
            5 => DataType::FloatBE,
            6 => DataType::StringLatin1,
            7 => DataType::StringUtf8,
            8 => DataType::StringUtf16LE,
            9 => DataType::StringUtf16BE,
            10 => DataType::ByteArray,
            11 => DataType::MimeSample,
            12 => DataType::MimeStream,
            13 => DataType::CanOpenDate,
            14 => DataType::CanOpenTime,
            15 => DataType::ComplexLE,
            16 => DataType::ComplexBE,
            other => DataType::Unknown(other),
        }
    }
}

/// A channel block: eight fixed links (next channel, composition, name,
/// source, conversion, signal data, unit, comment), then the record layout
/// of the channel's value. The value-range limits that follow are not read.
#[derive(Debug, Clone, Copy)]
pub struct ChannelBlock {
    pub header: BlockHeader,
    pub next_ch_addr: u64,
    pub component_addr: u64,
    pub name_addr: u64,
    pub source_addr: u64,
    pub conversion_addr: u64,
    pub data: u64,
    pub unit_addr: u64,
    pub comment_addr: u64,
    pub channel_type: u8,
    pub sync_type: u8,
    pub data_type: DataType,
    pub bit_offset: u8,
    pub byte_offset: u32,
    pub bit_count: u32,
    pub flags: u32,
    pub pos_invalidation_bit: u32,
    pub precision: u8,
    pub attachment_nr: u16,
}

/// Where a channel block's data section starts: after all its links.
pub open spec fn cn_data_start(links_nr: u64) -> int {
    24 + 8 * links_nr
}

/// `n` clamped to what a `usize` holds.
pub open spec fn clamp_usize(n: int) -> usize {
    if n > usize::MAX {
        usize::MAX
    } else {
        n as usize
    }
}

/// The channel block stored at the start of `s`, whose data section starts at `d`.
pub open spec fn spec_cn(s: Seq<u8>, d: int) -> ChannelBlock {
    ChannelBlock {
        header: spec_header(s),
        next_ch_addr: le_u64_at(s, 24),
        component_addr: le_u64_at(s, 32),
        name_addr: le_u64_at(s, 40),
        source_addr: le_u64_at(s, 48),
        conversion_addr: le_u64_at(s, 56),
        data: le_u64_at(s, 64),
        unit_addr: le_u64_at(s, 72),
        comment_addr: le_u64_at(s, 80),
        channel_type: s[d],
        sync_type: s[d + 1],
        data_type: spec_data_type(s[d + 2]),
        bit_offset: s[d + 3],
        byte_offset: le_u32_at(s, d + 4),
        bit_count: le_u32_at(s, d + 8),
        flags: le_u32_at(s, d + 12),
        pos_invalidation_bit: le_u32_at(s, d + 16),
        precision: s[d + 20],
        attachment_nr: le_u16_at(s, d + 22),
    }
}

/// Reading a channel block: a `##CN` header with at least eight links, and
/// the 72-byte data section after all the links.
pub open spec fn spec_read_cn(s: Seq<u8>) -> Result<ChannelBlock, MdfError> {
    match spec_read_header_expecting(s, ID_CN) {
        Err(e) => Err(e),
        Ok(h) => if h.links_nr < 8 {
            Err(MdfError::BlockSerializationError(LayoutProblem::TooFewChannelLinks(h.links_nr)))
        } else if s.len() < cn_data_start(h.links_nr) + 72 {
            Err(
                MdfError::TooShortBuffer {
                    actual: s.len() as usize,
                    expected: clamp_usize(cn_data_start(h.links_nr) + 72),
                },
            )
        } else {
            Ok(spec_cn(s, cn_data_start(h.links_nr)))
        },
    }
}

impl ChannelBlock {
    /// Reads a channel block from the start of `bytes`.
    pub fn from_bytes(bytes: &[u8]) -> (res: Result<ChannelBlock, MdfError>)
        ensures
            res == spec_read_cn(bytes@),
    {
        let header = BlockHeader::parse_expecting(bytes, ID_CN)?;
        if header.links_nr < 8 {
            return Err(
                MdfError::BlockSerializationError(
                    LayoutProblem::TooFewChannelLinks(header.links_nr),
                ),
            );
        }
        let required: u128 = 96 + 8 * (header.links_nr as u128);
        if (bytes.len() as u128) < required {
            let expected = if required > usize::MAX as u128 {
                usize::MAX
            } else {
                required as usize
            };
            return Err(MdfError::TooShortBuffer { actual: bytes.len(), expected });
        }
        let d = 24 + 8 * (header.links_nr as usize);
        Ok(
            ChannelBlock {
                header,
                next_ch_addr: read_u64_le(bytes, 24),
                component_addr: read_u64_le(bytes, 32),
                name_addr: read_u64_le(bytes, 40),
                source_addr: read_u64_le(bytes, 48),
                conversion_addr: read_u64_le(bytes, 56),
                data: read_u64_le(bytes, 64),
                unit_addr: read_u64_le(bytes, 72),
                comment_addr: read_u64_le(bytes, 80),
                channel_type: bytes[d],
                sync_type: bytes[d + 1],
                data_type: DataType::from_code(bytes[d + 2]),
                bit_offset: bytes[d + 3],
                byte_offset: read_u32_le(bytes, d + 4),
                bit_count: read_u32_le(bytes, d + 8),
                flags: read_u32_le(bytes, d + 12),
                pos_invalidation_bit: read_u32_le(bytes, d + 16),
                precision: bytes[d + 20],
                attachment_nr: read_u16_le(bytes, d + 22),
            },
        )
    }
}

} // verus!
