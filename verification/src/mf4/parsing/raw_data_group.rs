//! A data group and the chain of data blocks that holds its records.

use vstd::prelude::*;
use vstd::slice::slice_subrange;
use vstd::utf8::valid_utf8;
use crate::codec::decode_utf8_strict;
use crate::mf4::blocks::header::{BlockHeader, ID_DT, ID_DV, ID_DZ, ID_DL, ID_HL, too_short, same_id};
use crate::mf4::blocks::channel_block::{ChannelBlock, clamp_usize};
use crate::mf4::blocks::channel_group_block::ChannelGroupBlock;
use crate::mf4::blocks::data_block::{DataBlock, spec_read_dt};
use crate::mf4::blocks::compressed_data_block::{read_dz_block, spec_read_dz_block};
use crate::mf4::blocks::data_list_block::{DataListBlock, spec_read_dl};
use crate::mf4::blocks::history_list_block::{HistoryListBlock, spec_read_hl};
use crate::mf4::blocks::data_group_block::DataGroupBlock;
use crate::mf4::parsing::raw_channel_group::{RawChannelGroup, cg_views};
use crate::mf4::error::{MdfError, ChainKind, ExpectedBlock, LayoutProblem, prepend};
use crate::mf4::links::{distinct_within, lemma_distinct_within_len, lemma_distinct_push, visited_contains};

verus! {

/// A data group block and its channel groups.
#[derive(Debug, Clone)]
pub struct RawDataGroup {
    pub block: DataGroupBlock,
    pub channel_groups: Vec<RawChannelGroup>,
}

/// A raw data group as its block and the views of its channel groups.
pub open spec fn dg_view(d: RawDataGroup) -> (DataGroupBlock, Seq<(ChannelGroupBlock, Seq<ChannelBlock>)>) {
    (d.block, cg_views(d.channel_groups@))
}

/// The 4-byte id at `off` of `mmap` as an array.
pub open spec fn id_at(mmap: Seq<u8>, off: int) -> [u8; 4] {
    [mmap[off], mmap[off + 1], mmap[off + 2], mmap[off + 3]]
}

/// Peeking at the block id at `off`: it must lie within the file and be valid UTF-8.
pub open spec fn spec_peek_id(mmap: Seq<u8>, off: int) -> Result<Seq<u8>, MdfError> {
    if off + 4 > mmap.len() {
        Err(too_short(mmap.len() as int, clamp_usize(off + 4) as int))
    } else if !valid_utf8(mmap.subrange(off, off + 4)) {
        Err(MdfError::BlockIDError { actual: id_at(mmap, off), expected: ExpectedBlock::AsciiId })
    } else {
        Ok(mmap.subrange(off, off + 4))
    }
}

/// Reads the 4-byte block id at `offset` without committing to a block layout.
pub fn peek_block_id(mmap: &[u8], offset: usize) -> (res: Result<[u8; 4], MdfError>)
    ensures
        match (res, spec_peek_id(mmap@, offset as int)) {
            (Ok(a), Ok(s)) => a@ == s,
            (Err(e1), Err(e2)) => e1 == e2,
            _ => false,
        },
{
    if offset > mmap.len() || mmap.len() - offset < 4 {
        return Err(MdfError::TooShortBuffer { actual: mmap.len(), expected: offset.saturating_add(4) });
    }
    let id = [mmap[offset], mmap[offset + 1], mmap[offset + 2], mmap[offset + 3]];
    assert(id =~= id_at(mmap@, offset as int));
    assert(id@ =~= mmap@.subrange(offset as int, offset + 4));
    if decode_utf8_strict(slice_subrange(mmap, offset, offset + 4)).is_none() {
        return Err(MdfError::BlockIDError { actual: id, expected: ExpectedBlock::AsciiId });
    }
    Ok(id)
}

/// Reading one fragment of a data list: none for a NIL link; a `##DZ`
/// fragment is inflated, any other must be `##DT`/`##DV`.
pub open spec fn spec_fragment(mmap: Seq<u8>, addr: u64) -> Result<Option<(BlockHeader, Seq<u8>)>, MdfError> {
    if addr == 0 {
        Ok(None)
    } else {
        match spec_peek_id(mmap, addr as int) {
            Err(e) => Err(e),
            Ok(id) => {
                let r = if id == ID_DZ@ {
                    spec_read_dz_block(mmap.skip(addr as int))
                } else {
                    spec_read_dt(mmap.skip(addr as int))
                };
                match r {
                    Err(e) => Err(e),
                    Ok(b) => Ok(Some(b)),
                }
            },
        }
    }
}

/// Reading the fragments a data list links to, in order.
pub open spec fn spec_fragments(mmap: Seq<u8>, links: Seq<u64>) -> Result<Seq<(BlockHeader, Seq<u8>)>, MdfError>
    decreases links.len(),
{
    if links.len() == 0 {
        Ok(seq![])
    } else {
        match spec_fragments(mmap, links.drop_last()) {
            Err(e) => Err(e),
            Ok(a) => match spec_fragment(mmap, links.last()) {
                Err(e) => Err(e),
                Ok(None) => Ok(a),
                Ok(Some(b)) => Ok(a.push(b)),
            },
        }
    }
}

/// Once reading a prefix of the links fails, reading all of them fails alike.
proof fn lemma_fragments_err(mmap: Seq<u8>, links: Seq<u64>, i: int)
    requires
        0 <= i <= links.len(),
        spec_fragments(mmap, links.take(i)) is Err,
    ensures
        spec_fragments(mmap, links) == spec_fragments(mmap, links.take(i)),
    decreases links.len() - i,
{
    if i < links.len() {
        assert(links.take(i + 1).drop_last() =~= links.take(i));
        lemma_fragments_err(mmap, links, i + 1);
    } else {
        assert(links.take(i) =~= links);
    }
}

/// Following a data group's data link: plain and zipped fragments end the
/// chain, a history list leads to its data list, a data list contributes
/// its fragments and leads to the next list.
pub open spec fn spec_data_chain(mmap: Seq<u8>, addr: u64, visited: Seq<u64>, fuel: nat) -> Result<
    Seq<(BlockHeader, Seq<u8>)>,
    MdfError,
>
    decreases fuel,
{
    if addr == 0 {
        Ok(seq![])
    } else if visited.contains(addr) {
        Err(MdfError::BlockLinkError { chain: ChainKind::DataBlocks, address: addr })
    } else {
        match spec_peek_id(mmap, addr as int) {
            Err(e) => Err(e),
            Ok(id) => {
                let s = mmap.skip(addr as int);
                if id == ID_DT@ || id == ID_DV@ {
                    match spec_read_dt(s) {
                        Err(e) => Err(e),
                        Ok(b) => Ok(seq![b]),
                    }
                } else if id == ID_DZ@ {
                    match spec_read_dz_block(s) {
                        Err(e) => Err(e),
                        Ok(b) => Ok(seq![b]),
                    }
                } else if id == ID_HL@ {
                    match spec_read_hl(s) {
                        Err(e) => Err(e),
                        Ok(hl) => if fuel == 0 {
                            Ok(seq![])
                        } else {
                            spec_data_chain(mmap, hl.dl_first, visited.push(addr), (fuel - 1) as nat)
                        },
                    }
                } else if id == ID_DL@ {
                    match spec_read_dl(s) {
                        Err(e) => Err(e),
                        Ok(dl) => match spec_fragments(mmap, dl.data_links) {
                            Err(e) => Err(e),
                            Ok(fr) => if fuel == 0 {
                                Ok(fr)
                            } else {
                                prepend(fr, spec_data_chain(mmap, dl.next, visited.push(addr), (fuel - 1) as nat))
                            },
                        },
                    }
                } else {
                    Err(MdfError::BlockIDError { actual: id_at(mmap, addr as int), expected: ExpectedBlock::DataChain })
                }
            },
        }
    }
}

/// The data blocks of a data group: refused for an unsorted group (record
/// ids with several channel groups), else the blocks along its data chain.
pub open spec fn spec_data_blocks(mmap: Seq<u8>, dg: DataGroupBlock, n_groups: int) -> Result<
    Seq<(BlockHeader, Seq<u8>)>,
    MdfError,
> {
    if dg.record_id_len > 0 && n_groups > 1 {
        Err(MdfError::BlockSerializationError(LayoutProblem::UnsortedDataGroup))
    } else {
        spec_data_chain(mmap, dg.data_block_addr, seq![], (mmap.len() + 1) as nat)
    }
}

/// The views of a list of data blocks.
pub open spec fn blocks_view(v: Seq<DataBlock>) -> Seq<(BlockHeader, Seq<u8>)> {
    v.map_values(|b: DataBlock| b@)
}

proof fn lemma_blocks_view_append(v: Seq<DataBlock>, w: Seq<DataBlock>)
    ensures
        blocks_view(v + w) == blocks_view(v) + blocks_view(w),
{
    assert(blocks_view(v + w) =~= blocks_view(v) + blocks_view(w));
}

/// Reads the fragments a data list links to, in order.
fn read_fragments(mmap: &[u8], links: &Vec<u64>) -> (res: Result<Vec<DataBlock>, MdfError>)
    ensures
        match (res, spec_fragments(mmap@, links@)) {
            (Ok(v), Ok(s)) => blocks_view(v@) == s,
            (Err(e1), Err(e2)) => e1 == e2,
            _ => false,
        },
{
    let mut out: Vec<DataBlock> = Vec::new();
    let mut i: usize = 0;
    assert(links@.take(0) =~= seq![]);
    assert(blocks_view(out@) =~= seq![]);
    while i < links.len()
        invariant
            i <= links@.len(),
            spec_fragments(mmap@, links@.take(i as int)) == Ok::<Seq<(BlockHeader, Seq<u8>)>, MdfError>(blocks_view(out@)),
        decreases links@.len() - i,
    {
        assert(links@.take(i + 1).drop_last() =~= links@.take(i as int));
        assert(links@.take(i + 1).last() == links@[i as int]);
        match read_fragment(mmap, links[i]) {
            Err(e) => {
                proof { lemma_fragments_err(mmap@, links@, i + 1); }
                return Err(e);
            },
            Ok(None) => {},
            Ok(Some(block)) => {
                proof { lemma_blocks_view_push(out@, block); }
                out.push(block);
            },
        }
        i += 1;
    }
    assert(links@.take(links@.len() as int) =~= links@);
    Ok(out)
}

proof fn lemma_blocks_view_push(v: Seq<DataBlock>, b: DataBlock)
    ensures
        blocks_view(v.push(b)) == blocks_view(v).push(b@),
{
    assert(blocks_view(v.push(b)) =~= blocks_view(v).push(b@));
}

/// Reads one fragment of a data list.
fn read_fragment(mmap: &[u8], addr: u64) -> (res: Result<Option<DataBlock>, MdfError>)
    ensures
        match (res, spec_fragment(mmap@, addr)) {
            (Ok(Some(b)), Ok(Some(s))) => b@ == s,
            (Ok(None), Ok(None)) => true,
            (Err(e1), Err(e2)) => e1 == e2,
            _ => false,
        },
{
    if addr == 0 {
        return Ok(None);
    }
    if addr > usize::MAX as u64 {
        return Err(MdfError::TooShortBuffer { actual: mmap.len(), expected: usize::MAX });
    }
    let off = addr as usize;
    let id = peek_block_id(mmap, off)?;
    let bytes = slice_subrange(mmap, off, mmap.len());
    assert(bytes@ =~= mmap@.skip(addr as int));
    if same_id(&id, &ID_DZ) {
        Ok(Some(read_dz_block(bytes)?))
    } else {
        Ok(Some(DataBlock::from_bytes(bytes)?))
    }
}

impl RawDataGroup {
    /// Collects every data block of this group in file order, following
    /// data lists and history lists and inflating zipped fragments.
    #[verifier::rlimit(100)]
    pub fn data_blocks(&self, mmap: &[u8]) -> (res: Result<Vec<DataBlock>, MdfError>)
        ensures
            match (res, spec_data_blocks(mmap@, self.block, self.channel_groups@.len() as int)) {
                (Ok(v), Ok(s)) => blocks_view(v@) == s,
                (Err(e1), Err(e2)) => e1 == e2,
                _ => false,
            },
    {
        if self.block.record_id_len > 0 && self.channel_groups.len() > 1 {
            return Err(MdfError::BlockSerializationError(LayoutProblem::UnsortedDataGroup));
        }
        let mut collected: Vec<DataBlock> = Vec::new();
        let mut current = self.block.data_block_addr;
        let mut visited: Vec<u64> = Vec::new();
        let ghost len = mmap@.len() as int;
        let ghost mut fuel: nat = (len + 1) as nat;
        let ghost goal = spec_data_blocks(mmap@, self.block, self.channel_groups@.len() as int);
        assert(blocks_view(collected@) + seq![] =~= blocks_view(collected@));
        while current != 0
            invariant
                distinct_within(visited@, len),
                fuel + visited@.len() == len + 1,
                len == mmap@.len(),
                goal == spec_data_chain(mmap@, self.block.data_block_addr, seq![], (len + 1) as nat),
                goal == spec_data_blocks(mmap@, self.block, self.channel_groups@.len() as int),
                prepend(blocks_view(collected@), spec_data_chain(mmap@, current, visited@, fuel)) == goal,
            decreases fuel,
        {
            proof {
                lemma_distinct_within_len(visited@, len);
            }
            if visited_contains(&visited, current) {
                assert(spec_data_chain(mmap@, current, visited@, fuel) == Err::<Seq<(BlockHeader, Seq<u8>)>, MdfError>(
                    MdfError::BlockLinkError { chain: ChainKind::DataBlocks, address: current }));
                return Err(MdfError::BlockLinkError { chain: ChainKind::DataBlocks, address: current });
            }
            if current > usize::MAX as u64 {
                assert(spec_peek_id(mmap@, current as int) == Err::<Seq<u8>, MdfError>(
                    MdfError::TooShortBuffer { actual: mmap.len(), expected: usize::MAX }));
                assert(spec_data_chain(mmap@, current, visited@, fuel) == Err::<Seq<(BlockHeader, Seq<u8>)>, MdfError>(
                    MdfError::TooShortBuffer { actual: mmap.len(), expected: usize::MAX }));
                return Err(MdfError::TooShortBuffer { actual: mmap.len(), expected: usize::MAX });
            }
            let off = current as usize;
            let id = peek_block_id(mmap, off)?;
            let bytes = slice_subrange(mmap, off, mmap.len());
            assert(bytes@ =~= mmap@.skip(current as int));
            proof {
                lemma_distinct_push(visited@, current, len);
                lemma_distinct_within_len(visited@.push(current), len);
            }
            let ghost before = blocks_view(collected@);
            let ghost at = current;
            let ghost old_visited = visited@;
            if same_id(&id, &ID_DT) || same_id(&id, &ID_DV) {
                let block = DataBlock::from_bytes(bytes)?;
                proof { lemma_blocks_view_push(collected@, block); }
                collected.push(block);
                proof {
                    assert(before + seq![block@] =~= blocks_view(collected@) + seq![]);
                }
                visited.push(current);
                current = 0;
                proof { fuel = (fuel - 1) as nat; }
            } else if same_id(&id, &ID_DZ) {
                let block = read_dz_block(bytes)?;
                proof { lemma_blocks_view_push(collected@, block); }
                collected.push(block);
                proof {
                    assert(before + seq![block@] =~= blocks_view(collected@) + seq![]);
                }
                visited.push(current);
                current = 0;
                proof { fuel = (fuel - 1) as nat; }
            } else if same_id(&id, &ID_HL) {
                let hl = HistoryListBlock::from_bytes(bytes)?;
                visited.push(current);
                current = hl.dl_first;
                proof { fuel = (fuel - 1) as nat; }
            } else if same_id(&id, &ID_DL) {
                let dl = DataListBlock::from_bytes(bytes)?;
                assert(spec_read_dl(mmap@.skip(current as int)) == Ok::<crate::mf4::blocks::data_list_block::DataListView, MdfError>(dl@));
                let mut frags = read_fragments(mmap, &dl.data_links)?;
                let ghost fr = blocks_view(frags@);
                proof { lemma_blocks_view_append(collected@, frags@); }
                collected.append(&mut frags);
                proof {
                    match spec_data_chain(mmap@, dl.next, old_visited.push(at), (fuel - 1) as nat) {
                        Ok(r) => { assert(before + (fr + r) =~= blocks_view(collected@) + r); },
                        Err(_) => {},
                    }
                }
                visited.push(current);
                current = dl.next;
                proof { fuel = (fuel - 1) as nat; }
            } else {
                assert(id =~= id_at(mmap@, at as int)) by {
                    assert(id@ == mmap@.subrange(at as int, at + 4));
                    assert(id@[0] == mmap@[at as int] && id@[1] == mmap@[at + 1]);
                    assert(id@[2] == mmap@[at + 2] && id@[3] == mmap@[at + 3]);
                }
                return Err(MdfError::BlockIDError { actual: id, expected: ExpectedBlock::DataChain });
            }
        }
        assert(blocks_view(collected@) + seq![] =~= blocks_view(collected@));
        Ok(collected)
    }
}

} // verus!
