//! A channel group seen from the file: its name, comment, source and
//! channels.

use vstd::prelude::*;
use crate::mf4::blocks::source_block::{SourceBlock, read_source_block, spec_read_source_block};
use crate::mf4::blocks::text_block::{read_string_block, spec_read_text, text_view};
use crate::mf4::parsing::raw_channel_group::RawChannelGroup;
use crate::mf4::parsing::raw_data_group::RawDataGroup;
use crate::mf4::api::channel::{Channel, ChannelRef};
use crate::mf4::error::MdfError;

verus! {

/// What a channel-group handle refers to: the data group, the channel
/// group and the file's bytes.
pub struct GroupRef {
    pub data_group: RawDataGroup,
    pub channel_group: RawChannelGroup,
    pub mmap: Seq<u8>,
}

/// A channel group of a parsed file, borrowing the blocks it was read from.
pub struct ChannelGroup<'a> {
    raw_data_group: &'a RawDataGroup,
    raw_channel_group: &'a RawChannelGroup,
    mmap: &'a [u8],
}

impl<'a> View for ChannelGroup<'a> {
    type V = GroupRef;

    closed spec fn view(&self) -> GroupRef {
        GroupRef { data_group: *self.raw_data_group, channel_group: *self.raw_channel_group, mmap: self.mmap@ }
    }
}

/// The handles on a group's channels, in chain order.
pub open spec fn group_channels(g: GroupRef) -> Seq<ChannelRef> {
    Seq::new(
        g.channel_group.raw_channels@.len(),
        |i: int|
            ChannelRef {
                block: g.channel_group.raw_channels@[i].block,
                channel: g.channel_group.raw_channels@[i],
                data_group: g.data_group,
                channel_group: g.channel_group,
                mmap: g.mmap,
            },
    )
}

/// The channel's name reads as `name`.
pub open spec fn channel_named(c: ChannelRef, name: Seq<char>) -> bool {
    spec_read_text(c.mmap, c.block.name_addr) == Ok::<Option<Seq<char>>, MdfError>(Some(name))
}

/// `cs[k]` is the first channel named `name` in `cs`.
pub open spec fn first_channel_named(cs: Seq<ChannelRef>, k: int, name: Seq<char>) -> bool {
    &&& 0 <= k < cs.len()
    &&& channel_named(cs[k], name)
    &&& forall|j: int| 0 <= j < k ==> !channel_named(#[trigger] cs[j], name)
}

/// Finding a channel by name is determined: at most one position of the
/// group's channels is the first whose name reads as `name`, and a channel
/// whose name does not read as text (an error, or no name) is never it.
pub proof fn lemma_first_channel_named_unique(g: GroupRef, name: Seq<char>, k1: int, k2: int)
    requires
        first_channel_named(group_channels(g), k1, name),
        first_channel_named(group_channels(g), k2, name),
    ensures
        k1 == k2,
        spec_read_text(g.mmap, group_channels(g)[k1].block.name_addr) == Ok::<Option<Seq<char>>, MdfError>(Some(name)),
{
    let cs = group_channels(g);
    if k1 < k2 {
        assert(!channel_named(cs[k1], name));
    } else if k2 < k1 {
        assert(!channel_named(cs[k2], name));
    }
}

/// The source a group's acquisition-source link points at: none for a NIL
/// link, else the `##SI` block there.
pub open spec fn spec_group_source(mmap: Seq<u8>, addr: u64) -> Result<Option<SourceBlock>, MdfError> {
    if addr == 0 {
        Ok(None)
    } else {
        match spec_read_source_block(mmap, addr) {
            Ok(b) => Ok(Some(b)),
            Err(e) => Err(e),
        }
    }
}

impl<'a> ChannelGroup<'a> {
    /// A handle on `raw_channel_group` of `raw_data_group`; nothing is decoded.
    pub fn new(raw_data_group: &'a RawDataGroup, raw_channel_group: &'a RawChannelGroup, mmap: &'a [u8]) -> (g: ChannelGroup<'a>)
        ensures
            g@ == (GroupRef { data_group: *raw_data_group, channel_group: *raw_channel_group, mmap: mmap@ }),
    {
        ChannelGroup { raw_data_group, raw_channel_group, mmap }
    }

    /// The group's acquisition name.
    pub fn name(&self) -> (res: Result<Option<String>, MdfError>)
        ensures
            text_view(res) == spec_read_text(self@.mmap, self@.channel_group.block.acq_name_addr),
    {
        read_string_block(self.mmap, self.raw_channel_group.block.acq_name_addr)
    }

    /// The group's comment.
    pub fn comment(&self) -> (res: Result<Option<String>, MdfError>)
        ensures
            text_view(res) == spec_read_text(self@.mmap, self@.channel_group.block.comment_addr),
    {
        read_string_block(self.mmap, self.raw_channel_group.block.comment_addr)
    }

    /// The group's acquisition source, if it links one.
    pub fn source(&self) -> (res: Result<Option<SourceBlock>, MdfError>)
        ensures
            res == spec_group_source(self@.mmap, self@.channel_group.block.acq_source_addr),
    {
        let addr = self.raw_channel_group.block.acq_source_addr;
        if addr == 0 {
            return Ok(None);
        }
        let block = read_source_block(self.mmap, addr)?;
        Ok(Some(block))
    }

    /// Handles on all channels of the group, in chain order; nothing is decoded.
    pub fn channels(&self) -> (cs: Vec<Channel<'a>>)
        ensures
            cs@.len() == group_channels(self@).len(),
            forall|k: int| 0 <= k < cs@.len() ==> #[trigger] cs@[k]@ == group_channels(self@)[k],
    {
        let mut out: Vec<Channel<'a>> = Vec::new();
        let mut i: usize = 0;
        while i < self.raw_channel_group.raw_channels.len()
            invariant
                i <= self.raw_channel_group.raw_channels@.len(),
                out@.len() == i,
                forall|k: int| 0 <= k < i ==> #[trigger] out@[k]@ == group_channels(self@)[k],
            decreases self.raw_channel_group.raw_channels@.len() - i,
        {
            let raw = &self.raw_channel_group.raw_channels[i];
            out.push(Channel::new(&raw.block, self.raw_data_group, self.raw_channel_group, raw, self.mmap));
            i += 1;
        }
        out
    }

    /// The first channel of the group whose name reads as `name`.
    pub fn channel(&self, name: &str) -> (r: Option<Channel<'a>>)
        ensures
            match r {
                Some(c) => exists|k: int| first_channel_named(group_channels(self@), k, name@) && c@ == group_channels(self@)[k],
                None => forall|k: int| 0 <= k < group_channels(self@).len() ==> !channel_named(#[trigger] group_channels(self@)[k], name@),
            },
    {
        let target = String::from_str(name);
        let ghost cs = group_channels(self@);
        let mut i: usize = 0;
        while i < self.raw_channel_group.raw_channels.len()
            invariant
                i <= self.raw_channel_group.raw_channels@.len(),
                cs == group_channels(self@),
                target@ == name@,
                forall|j: int| 0 <= j < i ==> !channel_named(#[trigger] cs[j], name@),
            decreases self.raw_channel_group.raw_channels@.len() - i,
        {
            let raw = &self.raw_channel_group.raw_channels[i];
            let c = Channel::new(&raw.block, self.raw_data_group, self.raw_channel_group, raw, self.mmap);
            assert(c@ == cs[i as int]);
            if let Ok(Some(n)) = c.name() {
                if n == target {
                    assert(first_channel_named(cs, i as int, name@));
                    return Some(c);
                }
            }
            i += 1;
        }
        None
    }

    /// The data group the channel group belongs to.
    pub fn raw_data_group(&self) -> (d: &RawDataGroup)
        ensures
            *d == self@.data_group,
    {
        self.raw_data_group
    }

    /// The raw channel group.
    pub fn raw_channel_group(&self) -> (c: &RawChannelGroup)
        ensures
            *c == self@.channel_group,
    {
        self.raw_channel_group
    }

    /// The file's bytes.
    pub fn mmap(&self) -> (m: &[u8])
        ensures
            m@ == self@.mmap,
    {
        self.mmap
    }
}

} // verus!
