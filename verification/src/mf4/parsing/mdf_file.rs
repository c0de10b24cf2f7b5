//! A whole MDF4 file: identification, header, and every data group with
//! its channel groups and channels.

use vstd::prelude::*;
use vstd::slice::slice_subrange;
use crate::mf4::blocks::channel_block::{ChannelBlock, clamp_usize};
use crate::mf4::blocks::channel_group_block::ChannelGroupBlock;
use crate::mf4::blocks::data_group_block::{DataGroupBlock, spec_read_dg};
use crate::mf4::blocks::identification_block::{IdentificationBlock, HeaderBlock, spec_read_id_block, spec_read_hd};
use crate::mf4::parsing::raw_channel_group::{read_channel_groups, spec_channel_groups};
use crate::mf4::parsing::raw_data_group::{RawDataGroup, dg_view};
use crate::mf4::error::{MdfError, ChainKind, prepend};
use crate::mf4::links::{distinct_within, lemma_distinct_within_len, lemma_distinct_push, visited_contains};

verus! {

/// The view of a data group: its block and its channel groups' views.
pub type DataGroupView = (DataGroupBlock, Seq<(ChannelGroupBlock, Seq<ChannelBlock>)>);

/// Following a data-group chain from `addr`, reading each group's channel groups.
pub open spec fn spec_dg_chain(mmap: Seq<u8>, addr: u64, visited: Seq<u64>, fuel: nat) -> Result<Seq<DataGroupView>, MdfError>
    decreases fuel,
{
    if addr == 0 {
        Ok(seq![])
    } else if visited.contains(addr) {
        Err(MdfError::BlockLinkError { chain: ChainKind::DataGroups, address: addr })
    } else if addr as int > mmap.len() {
        Err(MdfError::TooShortBuffer { actual: mmap.len() as usize, expected: clamp_usize(addr as int + 64) })
    } else {
        match spec_read_dg(mmap.skip(addr as int)) {
            Err(e) => Err(e),
            Ok(dg) => match spec_channel_groups(mmap, dg.first_cg_addr) {
                Err(e) => Err(e),
                Ok(cgs) => if fuel == 0 {
                    Ok(seq![(dg, cgs)])
                } else {
                    prepend(seq![(dg, cgs)], spec_dg_chain(mmap, dg.next_dg_addr, visited.push(addr), (fuel - 1) as nat))
                },
            },
        }
    }
}

/// The data groups of a file whose first data group is at `first`.
pub open spec fn spec_data_groups(mmap: Seq<u8>, first: u64) -> Result<Seq<DataGroupView>, MdfError> {
    spec_dg_chain(mmap, first, seq![], (mmap.len() + 1) as nat)
}

/// The views of a list of data groups.
pub open spec fn dg_views(v: Seq<RawDataGroup>) -> Seq<DataGroupView> {
    v.map_values(|d: RawDataGroup| dg_view(d))
}

/// Reads the chain of data groups starting at `first`.
#[verifier::rlimit(40)]
pub fn read_data_groups(mmap: &[u8], first: u64) -> (res: Result<Vec<RawDataGroup>, MdfError>)
    ensures
        match (res, spec_data_groups(mmap@, first)) {
            (Ok(v), Ok(s)) => dg_views(v@) == s,
            (Err(e1), Err(e2)) => e1 == e2,
            _ => false,
        },
{
    let mut groups: Vec<RawDataGroup> = Vec::new();
    let mut current = first;
    let mut visited: Vec<u64> = Vec::new();
    let ghost len = mmap@.len() as int;
    let ghost mut fuel: nat = (len + 1) as nat;
    assert(dg_views(groups@) + seq![] =~= dg_views(groups@));
    while current != 0
        invariant
            distinct_within(visited@, len),
            fuel + visited@.len() == len + 1,
            len == mmap@.len(),
            prepend(dg_views(groups@), spec_dg_chain(mmap@, current, visited@, fuel)) == spec_data_groups(mmap@, first),
        decreases fuel,
    {
        proof {
            lemma_distinct_within_len(visited@, len);
        }
        if visited_contains(&visited, current) {
            return Err(MdfError::BlockLinkError { chain: ChainKind::DataGroups, address: current });
        }
        if current > mmap.len() as u64 {
            let expected = if current > (usize::MAX - 64) as u64 {
                usize::MAX
            } else {
                current as usize + 64
            };
            return Err(MdfError::TooShortBuffer { actual: mmap.len(), expected });
        }
        let bytes = slice_subrange(mmap, current as usize, mmap.len());
        assert(bytes@ =~= mmap@.skip(current as int));
        let dg = DataGroupBlock::from_bytes(bytes)?;
        let channel_groups = read_channel_groups(mmap, dg.first_cg_addr)?;
        proof {
            lemma_distinct_push(visited@, current, len);
            lemma_distinct_within_len(visited@.push(current), len);
        }
        let ghost old_groups = dg_views(groups@);
        visited.push(current);
        current = dg.next_dg_addr;
        let group = RawDataGroup { block: dg, channel_groups };
        groups.push(group);
        proof {
            fuel = (fuel - 1) as nat;
            assert(dg_views(groups@) =~= old_groups.push(dg_view(group)));
            match spec_dg_chain(mmap@, current, visited@, fuel) {
                Ok(r) => {
                    assert(old_groups + (seq![dg_view(group)] + r) =~= dg_views(groups@) + r);
                },
                Err(_) => {},
            }
        }
    }
    assert(dg_views(groups@) + seq![] =~= dg_views(groups@));
    Ok(groups)
}

/// A parsed MDF4 file, owning its bytes.
#[derive(Debug, Clone)]
pub struct MdfFile {
    pub identification: IdentificationBlock,
    pub header: HeaderBlock,
    pub data_groups: Vec<RawDataGroup>,
    pub mmap: Vec<u8>,
}

/// Parsing a file: its identification block, the header block at byte 64,
/// then the data-group chain the header links to.
pub open spec fn spec_parse_file(data: Seq<u8>) -> Result<(IdentificationBlock, HeaderBlock, Seq<DataGroupView>), MdfError> {
    match spec_read_id_block(data) {
        Err(e) => Err(e),
        Ok(id) => match spec_read_hd(data.skip(64)) {
            Err(e) => Err(e),
            Ok(hd) => match spec_data_groups(data, hd.first_dg_addr) {
                Err(e) => Err(e),
                Ok(dgs) => Ok((id, hd, dgs)),
            },
        },
    }
}

impl MdfFile {
    /// Parses an MDF4 file from an owned byte buffer.
    pub fn parse_from_bytes(data: Vec<u8>) -> (res: Result<MdfFile, MdfError>)
        ensures
            match (res, spec_parse_file(data@)) {
                (Ok(f), Ok((id, hd, dgs))) => f.identification == id && f.header == hd
                    && dg_views(f.data_groups@) == dgs && f.mmap@ == data@,
                (Err(e1), Err(e2)) => e1 == e2,
                _ => false,
            },
    {
        let identification = IdentificationBlock::from_bytes(data.as_slice())?;
        let rest = slice_subrange(data.as_slice(), 64, data.len());
        assert(rest@ =~= data@.skip(64));
        let header = HeaderBlock::from_bytes(rest)?;
        let data_groups = read_data_groups(data.as_slice(), header.first_dg_addr)?;
        Ok(MdfFile { identification, header, data_groups, mmap: data })
    }
}

} // verus!
