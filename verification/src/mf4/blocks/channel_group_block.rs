//! CGBLOCK: a channel group, the record layout shared by its channels.

use vstd::prelude::*;
use crate::bytes::{
    le_u16_at, le_u32_at, le_u64_at, le_bytes_u16, le_bytes_u32, le_bytes_u64, read_u16_le,
    read_u32_le, read_u64_le, push_u16_le, push_u32_le, push_u64_le,
};
use crate::mf4::blocks::header::{
    BlockHeader, ID_CG, spec_read_header_expecting, too_short, header_bytes, same_id,
    lemma_u16_field, lemma_u32_field, lemma_u64_field,
};
use crate::mf4::error::{MdfError, LayoutProblem, ChainKind};
use crate::mf4::blocks::channel_block::{ChannelBlock, spec_read_cn, clamp_usize};
use crate::mf4::links::{distinct_within, lemma_distinct_within_len, lemma_distinct_push, visited_contains};
use vstd::slice::slice_subrange;

verus! {

/// A channel group block (104 bytes).
#[derive(Debug, Clone, Copy)]
pub struct ChannelGroupBlock {
    pub header: BlockHeader,
    pub next_cg_addr: u64,
    pub first_ch_addr: u64,
    pub acq_name_addr: u64,
    pub acq_source_addr: u64,
    pub first_sample_reduction_addr: u64,
    pub comment_addr: u64,
    pub record_id: u64,
    pub cycles_nr: u64,
    pub flags: u16,
    pub path_separator: u16,
    pub reserved1: u32,
    pub samples_byte_nr: u32,
    pub invalidation_bytes_nr: u32,
}

/// The channel group block stored at the start of `s`.
pub open spec fn spec_cg(s: Seq<u8>) -> ChannelGroupBlock {
    ChannelGroupBlock {
        header: crate::mf4::blocks::header::spec_header(s),
        next_cg_addr: le_u64_at(s, 24),
        first_ch_addr: le_u64_at(s, 32),
        acq_name_addr: le_u64_at(s, 40),
        acq_source_addr: le_u64_at(s, 48),
        first_sample_reduction_addr: le_u64_at(s, 56),
        comment_addr: le_u64_at(s, 64),
        record_id: le_u64_at(s, 72),
        cycles_nr: le_u64_at(s, 80),
        flags: le_u16_at(s, 88),
        path_separator: le_u16_at(s, 90),
        reserved1: le_u32_at(s, 92),
        samples_byte_nr: le_u32_at(s, 96),
        invalidation_bytes_nr: le_u32_at(s, 100),
    }
}

/// Reading a channel group block: a `##CG` header, then 104 bytes in all.
pub open spec fn spec_read_cg(s: Seq<u8>) -> Result<ChannelGroupBlock, MdfError> {
    match spec_read_header_expecting(s, ID_CG) {
        Err(e) => Err(e),
        Ok(_) => if s.len() < 104 {
            Err(too_short(s.len() as int, 104))
        } else {
            Ok(spec_cg(s))
        },
    }
}

/// The 104 bytes a channel group block is written as.
pub open spec fn cg_bytes(cg: ChannelGroupBlock) -> Seq<u8> {
    header_bytes(cg.header) + le_bytes_u64(cg.next_cg_addr) + le_bytes_u64(cg.first_ch_addr)
        + le_bytes_u64(cg.acq_name_addr) + le_bytes_u64(cg.acq_source_addr) + le_bytes_u64(
        cg.first_sample_reduction_addr,
    ) + le_bytes_u64(cg.comment_addr) + le_bytes_u64(cg.record_id) + le_bytes_u64(cg.cycles_nr)
        + le_bytes_u16(cg.flags) + le_bytes_u16(cg.path_separator) + le_bytes_u32(cg.reserved1)
        + le_bytes_u32(cg.samples_byte_nr) + le_bytes_u32(cg.invalidation_bytes_nr)
}

/// Writing a channel group block: its header must say `##CG` and 104 bytes.
pub open spec fn spec_cg_to_bytes(cg: ChannelGroupBlock) -> Result<Seq<u8>, MdfError> {
    if cg.header.id@ != ID_CG@ {
        Err(MdfError::BlockSerializationError(LayoutProblem::WrongId))
    } else if cg.header.block_len != 104 {
        Err(
            MdfError::BlockSerializationError(
                LayoutProblem::BlockLenMismatch { header: cg.header.block_len, actual: 104 },
            ),
        )
    } else {
        Ok(cg_bytes(cg))
    }
}

impl ChannelGroupBlock {
    /// Reads a channel group block from the start of `bytes`.
    pub fn from_bytes(bytes: &[u8]) -> (res: Result<ChannelGroupBlock, MdfError>)
        ensures
            res == spec_read_cg(bytes@),
    {
        let header = BlockHeader::parse_expecting(bytes, ID_CG)?;
        if bytes.len() < 104 {
            return Err(MdfError::TooShortBuffer { actual: bytes.len(), expected: 104 });
        }
        Ok(
            ChannelGroupBlock {
                header,
                next_cg_addr: read_u64_le(bytes, 24),
                first_ch_addr: read_u64_le(bytes, 32),
                acq_name_addr: read_u64_le(bytes, 40),
                acq_source_addr: read_u64_le(bytes, 48),
                first_sample_reduction_addr: read_u64_le(bytes, 56),
                comment_addr: read_u64_le(bytes, 64),
                record_id: read_u64_le(bytes, 72),
                cycles_nr: read_u64_le(bytes, 80),
                flags: read_u16_le(bytes, 88),
                path_separator: read_u16_le(bytes, 90),
                reserved1: read_u32_le(bytes, 92),
                samples_byte_nr: read_u32_le(bytes, 96),
                invalidation_bytes_nr: read_u32_le(bytes, 100),
            },
        )
    }

    /// Serializes this block: the header (24 bytes), six links (48 bytes)
    /// and the data section (32 bytes).
    pub fn to_bytes(&self) -> (res: Result<Vec<u8>, MdfError>)
        ensures
            match (res, spec_cg_to_bytes(*self)) {
                (Ok(v), Ok(s)) => v@ == s,
                (Err(e1), Err(e2)) => e1 == e2,
                _ => false,
            },
    {
        if !same_id(&self.header.id, &ID_CG) {
            return Err(MdfError::BlockSerializationError(LayoutProblem::WrongId));
        }
        if self.header.block_len != 104 {
            return Err(
                MdfError::BlockSerializationError(
                    LayoutProblem::BlockLenMismatch { header: self.header.block_len, actual: 104 },
                ),
            );
        }
        let mut buffer = self.header.to_bytes();
        push_u64_le(&mut buffer, self.next_cg_addr);
        push_u64_le(&mut buffer, self.first_ch_addr);
        push_u64_le(&mut buffer, self.acq_name_addr);
        push_u64_le(&mut buffer, self.acq_source_addr);
        push_u64_le(&mut buffer, self.first_sample_reduction_addr);
        push_u64_le(&mut buffer, self.comment_addr);
        push_u64_le(&mut buffer, self.record_id);
        push_u64_le(&mut buffer, self.cycles_nr);
        push_u16_le(&mut buffer, self.flags);
        push_u16_le(&mut buffer, self.path_separator);
        push_u32_le(&mut buffer, self.reserved1);
        push_u32_le(&mut buffer, self.samples_byte_nr);
        push_u32_le(&mut buffer, self.invalidation_bytes_nr);
        Ok(buffer)
    }
}

/// Following a channel chain from `addr`: each address must be new and lie
/// within `mmap`, and each block there must read as a channel. `fuel` bounds
/// the walk (a walk from a fresh start never runs out of it).
pub open spec fn spec_channel_chain(mmap: Seq<u8>, addr: u64, visited: Seq<u64>, fuel: nat) -> Result<
    Seq<ChannelBlock>,
    MdfError,
>
    decreases fuel,
{
    if addr == 0 {
        Ok(seq![])
    } else if visited.contains(addr) {
        Err(MdfError::BlockLinkError { chain: ChainKind::Channels, address: addr })
    } else if addr as int > mmap.len() {
        Err(
            MdfError::TooShortBuffer {
                actual: mmap.len() as usize,
                expected: clamp_usize(addr as int + 160),
            },
        )
    } else {
        match spec_read_cn(mmap.skip(addr as int)) {
            Err(e) => Err(e),
            Ok(c) => if fuel == 0 {
                Ok(seq![c])
            } else {
                match spec_channel_chain(mmap, c.next_ch_addr, visited.push(addr), (fuel - 1) as nat) {
                    Err(e) => Err(e),
                    Ok(rest) => Ok(seq![c] + rest),
                }
            },
        }
    }
}

/// The channels of a group whose first channel is at `first`.
pub open spec fn spec_channels(mmap: Seq<u8>, first: u64) -> Result<Seq<ChannelBlock>, MdfError> {
    spec_channel_chain(mmap, first, seq![], (mmap.len() + 1) as nat)
}

/// Prepends the channels already read to the rest of a walk.
pub open spec fn prepend_channels(done: Seq<ChannelBlock>, rest: Result<Seq<ChannelBlock>, MdfError>) -> Result<
    Seq<ChannelBlock>,
    MdfError,
> {
    match rest {
        Ok(r) => Ok(done + r),
        Err(e) => Err(e),
    }
}

impl ChannelGroupBlock {
    /// Reads every channel linked from this group, in chain order.
    pub fn read_channels(&mut self, mmap: &[u8]) -> (res: Result<Vec<ChannelBlock>, MdfError>)
        ensures
            *final(self) == *old(self),
            match (res, spec_channels(mmap@, old(self).first_ch_addr)) {
                (Ok(v), Ok(s)) => v@ == s,
                (Err(e1), Err(e2)) => e1 == e2,
                _ => false,
            },
    {
        let mut channels: Vec<ChannelBlock> = Vec::new();
        let mut current_ch_addr = self.first_ch_addr;
        let mut visited: Vec<u64> = Vec::new();
        let ghost len = mmap@.len() as int;
        let ghost mut fuel: nat = (len + 1) as nat;
        assert(channels@ + seq![] =~= channels@);
        while current_ch_addr != 0
            invariant
                distinct_within(visited@, len),
                fuel + visited@.len() == len + 1,
                len == mmap@.len(),
                prepend_channels(channels@, spec_channel_chain(mmap@, current_ch_addr, visited@, fuel))
                    == spec_channels(mmap@, self.first_ch_addr),
            decreases fuel,
        {
            proof {
                lemma_distinct_within_len(visited@, len);
            }
            if visited_contains(&visited, current_ch_addr) {
                return Err(
                    MdfError::BlockLinkError { chain: ChainKind::Channels, address: current_ch_addr },
                );
            }
            if current_ch_addr > mmap.len() as u64 {
                let expected = if current_ch_addr > (usize::MAX - 160) as u64 {
                    usize::MAX
                } else {
                    current_ch_addr as usize + 160
                };
                return Err(MdfError::TooShortBuffer { actual: mmap.len(), expected });
            }
            let ch_offset = current_ch_addr as usize;
            let bytes = slice_subrange(mmap, ch_offset, mmap.len());
            assert(bytes@ =~= mmap@.skip(ch_offset as int));
            let channel = ChannelBlock::from_bytes(bytes)?;
            proof {
                lemma_distinct_push(visited@, current_ch_addr, len);
                lemma_distinct_within_len(visited@.push(current_ch_addr), len);
            }
            let ghost old_channels = channels@;
            let ghost old_visited = visited@;
            let ghost old_addr = current_ch_addr;
            visited.push(current_ch_addr);
            current_ch_addr = channel.next_ch_addr;
            channels.push(channel);
            proof {
                fuel = (fuel - 1) as nat;
                match spec_channel_chain(mmap@, current_ch_addr, visited@, fuel) {
                    Ok(r) => {
                        assert(old_channels + (seq![channel] + r) =~= channels@ + r);
                    },
                    Err(_) => {},
                }
            }
        }
        assert(channels@ + seq![] =~= channels@);
        Ok(channels)
    }
}

impl Default for ChannelGroupBlock {
    /// An empty `##CG` block: 104 bytes, six links, every field zero.
    fn default() -> (cg: Self)
        ensures
            cg.header.id == ID_CG,
            cg.header.reserved0 == 0,
            cg.header.block_len == 104,
            cg.header.links_nr == 6,
            cg.next_cg_addr == 0 && cg.first_ch_addr == 0 && cg.acq_name_addr == 0,
            cg.acq_source_addr == 0 && cg.first_sample_reduction_addr == 0 && cg.comment_addr == 0,
            cg.record_id == 0 && cg.cycles_nr == 0 && cg.flags == 0 && cg.path_separator == 0,
            cg.reserved1 == 0 && cg.samples_byte_nr == 0 && cg.invalidation_bytes_nr == 0,
    {
        ChannelGroupBlock {
            header: BlockHeader { id: ID_CG, reserved0: 0, block_len: 104, links_nr: 6 },
            next_cg_addr: 0,
            first_ch_addr: 0,
            acq_name_addr: 0,
            acq_source_addr: 0,
            first_sample_reduction_addr: 0,
            comment_addr: 0,
            record_id: 0,
            cycles_nr: 0,
            flags: 0,
            path_separator: 0,
            reserved1: 0,
            samples_byte_nr: 0,
            invalidation_bytes_nr: 0,
        }
    }
}

/// A channel group block that serializes reads back as itself.
#[verifier::spinoff_prover]
#[verifier::rlimit(60)]
pub proof fn lemma_cg_roundtrip(cg: ChannelGroupBlock)
    requires
        cg.header.id@ == ID_CG@,
        cg.header.block_len == 104,
    ensures
        spec_cg_to_bytes(cg) == Ok::<Seq<u8>, MdfError>(cg_bytes(cg)),
        cg_bytes(cg).len() == 104,
        spec_read_cg(cg_bytes(cg)) == Ok::<ChannelGroupBlock, MdfError>(cg),
{
    let s = cg_bytes(cg);
    assert(s.subrange(0, 4) =~= cg.header.id@);
    assert(crate::mf4::blocks::header::spec_header(s).id =~= cg.header.id);
    assert(s.subrange(4, 8) =~= le_bytes_u32(cg.header.reserved0));
    assert(s.subrange(8, 16) =~= le_bytes_u64(cg.header.block_len));
    assert(s.subrange(16, 24) =~= le_bytes_u64(cg.header.links_nr));
    lemma_u32_field(s, 4, cg.header.reserved0);
    lemma_u64_field(s, 8, cg.header.block_len);
    lemma_u64_field(s, 16, cg.header.links_nr);
    assert(s.subrange(24, 32) =~= le_bytes_u64(cg.next_cg_addr));
    assert(s.subrange(32, 40) =~= le_bytes_u64(cg.first_ch_addr));
    assert(s.subrange(40, 48) =~= le_bytes_u64(cg.acq_name_addr));
    assert(s.subrange(48, 56) =~= le_bytes_u64(cg.acq_source_addr));
    assert(s.subrange(56, 64) =~= le_bytes_u64(cg.first_sample_reduction_addr));
    assert(s.subrange(64, 72) =~= le_bytes_u64(cg.comment_addr));
    assert(s.subrange(72, 80) =~= le_bytes_u64(cg.record_id));
    assert(s.subrange(80, 88) =~= le_bytes_u64(cg.cycles_nr));
    assert(s.subrange(88, 90) =~= le_bytes_u16(cg.flags));
    assert(s.subrange(90, 92) =~= le_bytes_u16(cg.path_separator));
    assert(s.subrange(92, 96) =~= le_bytes_u32(cg.reserved1));
    assert(s.subrange(96, 100) =~= le_bytes_u32(cg.samples_byte_nr));
    assert(s.subrange(100, 104) =~= le_bytes_u32(cg.invalidation_bytes_nr));
    lemma_u64_field(s, 24, cg.next_cg_addr);
    lemma_u64_field(s, 32, cg.first_ch_addr);
    lemma_u64_field(s, 40, cg.acq_name_addr);
    lemma_u64_field(s, 48, cg.acq_source_addr);
    lemma_u64_field(s, 56, cg.first_sample_reduction_addr);
    lemma_u64_field(s, 64, cg.comment_addr);
    lemma_u64_field(s, 72, cg.record_id);
    lemma_u64_field(s, 80, cg.cycles_nr);
    lemma_u16_field(s, 88, cg.flags);
    lemma_u16_field(s, 90, cg.path_separator);
    lemma_u32_field(s, 92, cg.reserved1);
    lemma_u32_field(s, 96, cg.samples_byte_nr);
    lemma_u32_field(s, 100, cg.invalidation_bytes_nr);
}

} // verus!
