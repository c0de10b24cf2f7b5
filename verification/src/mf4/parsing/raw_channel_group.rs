//! A channel group together with its channels.

use vstd::prelude::*;
use crate::mf4::blocks::channel_group_block::{ChannelGroupBlock, spec_read_cg, spec_channels};
use crate::mf4::blocks::channel_block::{ChannelBlock, clamp_usize};
use crate::mf4::parsing::raw_channel::RawChannel;
use crate::mf4::error::{MdfError, ChainKind, prepend};
use crate::mf4::links::{distinct_within, lemma_distinct_within_len, lemma_distinct_push, visited_contains};
use vstd::slice::slice_subrange;

verus! {

/// A channel group block and the channels read from its chain.
#[derive(Debug, Clone)]
pub struct RawChannelGroup {
    pub block: ChannelGroupBlock,
    pub raw_channels: Vec<RawChannel>,
}

/// The channel blocks of a list of raw channels.
pub open spec fn channel_blocks(v: Seq<RawChannel>) -> Seq<ChannelBlock> {
    v.map_values(|c: RawChannel| c.block)
}

/// A raw channel group as its block and the blocks of its channels.
pub open spec fn cg_view(g: RawChannelGroup) -> (ChannelGroupBlock, Seq<ChannelBlock>) {
    (g.block, channel_blocks(g.raw_channels@))
}

/// Following a channel-group chain from `addr`, reading each group's channels.
pub open spec fn spec_cg_chain(mmap: Seq<u8>, addr: u64, visited: Seq<u64>, fuel: nat) -> Result<
    Seq<(ChannelGroupBlock, Seq<ChannelBlock>)>,
    MdfError,
>
    decreases fuel,
{
    if addr == 0 {
        Ok(seq![])
    } else if visited.contains(addr) {
        Err(MdfError::BlockLinkError { chain: ChainKind::ChannelGroups, address: addr })
    } else if addr as int > mmap.len() {
        Err(MdfError::TooShortBuffer { actual: mmap.len() as usize, expected: clamp_usize(addr as int + 104) })
    } else {
        match spec_read_cg(mmap.skip(addr as int)) {
            Err(e) => Err(e),
            Ok(cg) => match spec_channels(mmap, cg.first_ch_addr) {
                Err(e) => Err(e),
                Ok(chs) => if fuel == 0 {
                    Ok(seq![(cg, chs)])
                } else {
                    match spec_cg_chain(mmap, cg.next_cg_addr, visited.push(addr), (fuel - 1) as nat) {
                        Err(e) => Err(e),
                        Ok(rest) => Ok(seq![(cg, chs)] + rest),
                    }
                },
            },
        }
    }
}

/// The channel groups of a data group whose first group is at `first`.
pub open spec fn spec_channel_groups(mmap: Seq<u8>, first: u64) -> Result<
    Seq<(ChannelGroupBlock, Seq<ChannelBlock>)>,
    MdfError,
> {
    spec_cg_chain(mmap, first, seq![], (mmap.len() + 1) as nat)
}

/// The views of a list of raw channel groups.
pub open spec fn cg_views(v: Seq<RawChannelGroup>) -> Seq<(ChannelGroupBlock, Seq<ChannelBlock>)> {
    v.map_values(|g: RawChannelGroup| cg_view(g))
}

/// Wraps channel blocks as raw channels.
fn wrap_channels(blocks: Vec<ChannelBlock>) -> (out: Vec<RawChannel>)
    ensures
        channel_blocks(out@) == blocks@,
{
    let mut out: Vec<RawChannel> = Vec::new();
    let mut i: usize = 0;
    while i < blocks.len()
        invariant
            i <= blocks@.len(),
            out@.len() == i,
            channel_blocks(out@) =~= blocks@.subrange(0, i as int),
        decreases blocks@.len() - i,
    {
        let ghost before = out@;
        out.push(RawChannel { block: blocks[i] });
        i += 1;
        assert(out@ == before.push(RawChannel { block: blocks@[i - 1] }));
        assert forall|k: int| 0 <= k < i implies channel_blocks(out@)[k] == blocks@[k] by {
            if k < i - 1 {
                assert(out@[k] == before[k]);
                assert(channel_blocks(before)[k] == blocks@.subrange(0, i - 1)[k]);
            }
        }
        assert(channel_blocks(out@) =~= blocks@.subrange(0, i as int));
    }
    assert(blocks@.subrange(0, blocks@.len() as int) =~= blocks@);
    out
}

/// Reads the chain of channel groups starting at `first`, each with its channels.
#[verifier::rlimit(40)]
pub fn read_channel_groups(mmap: &[u8], first: u64) -> (res: Result<Vec<RawChannelGroup>, MdfError>)
    ensures
        match (res, spec_channel_groups(mmap@, first)) {
            (Ok(v), Ok(s)) => cg_views(v@) == s,
            (Err(e1), Err(e2)) => e1 == e2,
            _ => false,
        },
{
    let mut groups: Vec<RawChannelGroup> = Vec::new();
    let mut current = first;
    let mut visited: Vec<u64> = Vec::new();
    let ghost len = mmap@.len() as int;
    let ghost mut fuel: nat = (len + 1) as nat;
    assert(cg_views(groups@) + seq![] =~= cg_views(groups@));
    while current != 0
        invariant
            distinct_within(visited@, len),
            fuel + visited@.len() == len + 1,
            len == mmap@.len(),
            prepend(cg_views(groups@), spec_cg_chain(mmap@, current, visited@, fuel))
                == spec_channel_groups(mmap@, first),
        decreases fuel,
    {
        proof {
            lemma_distinct_within_len(visited@, len);
        }
        if visited_contains(&visited, current) {
            return Err(MdfError::BlockLinkError { chain: ChainKind::ChannelGroups, address: current });
        }
        if current > mmap.len() as u64 {
            let expected = if current > (usize::MAX - 104) as u64 {
                usize::MAX
            } else {
                current as usize + 104
            };
            return Err(MdfError::TooShortBuffer { actual: mmap.len(), expected });
        }
        let bytes = slice_subrange(mmap, current as usize, mmap.len());
        assert(bytes@ =~= mmap@.skip(current as int));
        let mut cg = ChannelGroupBlock::from_bytes(bytes)?;
        let channels = cg.read_channels(mmap)?;
        proof {
            lemma_distinct_push(visited@, current, len);
            lemma_distinct_within_len(visited@.push(current), len);
        }
        let ghost old_groups = cg_views(groups@);
        visited.push(current);
        current = cg.next_cg_addr;
        let raw_channels = wrap_channels(channels);
        let group = RawChannelGroup { block: cg, raw_channels };
        groups.push(group);
        proof {
            fuel = (fuel - 1) as nat;
            assert(cg_views(groups@) =~= old_groups.push(cg_view(group)));
            match spec_cg_chain(mmap@, current, visited@, fuel) {
                Ok(r) => {
                    assert(old_groups + (seq![cg_view(group)] + r) =~= cg_views(groups@) + r);
                },
                Err(_) => {},
            }
        }
    }
    assert(cg_views(groups@) + seq![] =~= cg_views(groups@));
    Ok(groups)
}

} // verus!
