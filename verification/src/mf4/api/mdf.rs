//! A parsed MDF4 file as a list of channel groups.

use vstd::prelude::*;
use crate::mf4::blocks::text_block::spec_read_text;
use crate::mf4::parsing::mdf_file::{MdfFile, spec_parse_file, dg_views};
use crate::mf4::parsing::raw_data_group::RawDataGroup;
use crate::mf4::api::channel::{Channel, ChannelRef};
use crate::mf4::api::channel_group::{
    ChannelGroup, GroupRef, group_channels, channel_named, first_channel_named,
};
use crate::mf4::error::MdfError;

verus! {

/// The channel groups of a list of data groups, data group by data group.
pub open spec fn flatten_groups(dgs: Seq<RawDataGroup>, mmap: Seq<u8>) -> Seq<GroupRef>
    decreases dgs.len(),
{
    if dgs.len() == 0 {
        seq![]
    } else {
        flatten_groups(dgs.drop_last(), mmap) + Seq::new(
            dgs.last().channel_groups@.len(),
            |j: int| GroupRef { data_group: dgs.last(), channel_group: dgs.last().channel_groups@[j], mmap },
        )
    }
}

/// The channels of a list of channel groups, group by group.
pub open spec fn all_channels(gs: Seq<GroupRef>) -> Seq<ChannelRef>
    decreases gs.len(),
{
    if gs.len() == 0 {
        seq![]
    } else {
        all_channels(gs.drop_last()) + group_channels(gs.last())
    }
}

/// The group's acquisition name reads as `name`.
pub open spec fn group_named(g: GroupRef, name: Seq<char>) -> bool {
    spec_read_text(g.mmap, g.channel_group.block.acq_name_addr) == Ok::<Option<Seq<char>>, MdfError>(Some(name))
}

/// `gs[k]` is the first group named `name` in `gs`.
pub open spec fn first_group_named(gs: Seq<GroupRef>, k: int, name: Seq<char>) -> bool {
    &&& 0 <= k < gs.len()
    &&& group_named(gs[k], name)
    &&& forall|j: int| 0 <= j < k ==> !group_named(#[trigger] gs[j], name)
}

/// The channels of the first `k` groups come first among all channels.
proof fn lemma_all_channels_prefix(gs: Seq<GroupRef>, k: int)
    requires
        0 <= k <= gs.len(),
    ensures
        all_channels(gs.take(k)).len() <= all_channels(gs).len(),
        forall|i: int| 0 <= i < all_channels(gs.take(k)).len() ==> #[trigger] all_channels(gs)[i] == all_channels(gs.take(k))[i],
    decreases gs.len(),
{
    if k == gs.len() {
        assert(gs.take(k) =~= gs);
    } else {
        let d = gs.drop_last();
        assert(d.take(k) =~= gs.take(k));
        lemma_all_channels_prefix(d, k);
    }
}

/// A parsed MDF4 file, owning its bytes.
#[derive(Debug)]
pub struct MDF {
    raw: MdfFile,
}

impl MDF {
    /// The parsed file.
    pub closed spec fn file(&self) -> MdfFile {
        self.raw
    }

    /// The file's channel groups, data group by data group.
    pub open spec fn groups(&self) -> Seq<GroupRef> {
        flatten_groups(self.file().data_groups@, self.file().mmap@)
    }

    /// Parses an MDF4 file from its bytes.
    pub fn from_bytes(data: Vec<u8>) -> (res: Result<MDF, MdfError>)
        ensures
            match (res, spec_parse_file(data@)) {
                (Ok(m), Ok((id, hd, dgs))) => m.file().identification == id && m.file().header == hd
                    && dg_views(m.file().data_groups@) == dgs && m.file().mmap@ == data@,
                (Err(e1), Err(e2)) => e1 == e2,
                _ => false,
            },
    {
        let raw = MdfFile::parse_from_bytes(data)?;
        Ok(MDF { raw })
    }

    /// Handles on every channel group of the file, data group by data
    /// group; nothing is decoded.
    pub fn channel_groups(&self) -> (gs: Vec<ChannelGroup<'_>>)
        ensures
            gs@.len() == self.groups().len(),
            forall|k: int| 0 <= k < gs@.len() ==> #[trigger] gs@[k]@ == self.groups()[k],
    {
        let dgs = &self.raw.data_groups;
        let mmap = self.raw.mmap.as_slice();
        let mut out: Vec<ChannelGroup<'_>> = Vec::new();
        let mut i: usize = 0;
        assert(dgs@.take(0) =~= seq![]);
        while i < dgs.len()
            invariant
                i <= dgs@.len(),
                dgs@ == self.file().data_groups@,
                mmap@ == self.file().mmap@,
                out@.len() == flatten_groups(dgs@.take(i as int), mmap@).len(),
                forall|k: int| 0 <= k < out@.len() ==> #[trigger] out@[k]@ == flatten_groups(dgs@.take(i as int), mmap@)[k],
            decreases dgs@.len() - i,
        {
            let dg = &dgs[i];
            let ghost before = flatten_groups(dgs@.take(i as int), mmap@);
            assert(dgs@.take(i + 1).drop_last() =~= dgs@.take(i as int));
            let mut j: usize = 0;
            while j < dg.channel_groups.len()
                invariant
                    j <= dg.channel_groups@.len(),
                    *dg == dgs@[i as int],
                    out@.len() == before.len() + j,
                    forall|k: int| 0 <= k < before.len() ==> #[trigger] out@[k]@ == before[k],
                    forall|k: int| 0 <= k < j ==> #[trigger] out@[before.len() + k]@ == (GroupRef {
                        data_group: *dg,
                        channel_group: dg.channel_groups@[k],
                        mmap: mmap@,
                    }),
                decreases dg.channel_groups@.len() - j,
            {
                let ghost prev = out@;
                out.push(ChannelGroup::new(dg, &dg.channel_groups[j], mmap));
                proof {
                    assert forall|k: int| 0 <= k < j + 1 implies #[trigger] out@[before.len() + k]@ == (GroupRef {
                        data_group: *dg,
                        channel_group: dg.channel_groups@[k],
                        mmap: mmap@,
                    }) by {
                        if k < j {
                            assert(out@[before.len() + k] == prev[before.len() + k]);
                        }
                    }
                }
                j += 1;
            }
            proof {
                let after = flatten_groups(dgs@.take(i + 1), mmap@);
                assert forall|k: int| 0 <= k < out@.len() implies #[trigger] out@[k]@ == after[k] by {
                    if k >= before.len() {
                        assert(out@[before.len() + (k - before.len())]@ == after[k]);
                    }
                }
            }
            i += 1;
        }
        assert(dgs@.take(dgs@.len() as int) =~= dgs@);
        out
    }

    /// The first channel group whose acquisition name reads as `name`.
    pub fn group(&self, name: &str) -> (r: Option<ChannelGroup<'_>>)
        ensures
            match r {
                Some(g) => exists|k: int| first_group_named(self.groups(), k, name@) && g@ == self.groups()[k],
                None => forall|k: int| 0 <= k < self.groups().len() ==> !group_named(#[trigger] self.groups()[k], name@),
            },
    {
        let target = String::from_str(name);
        let mut groups = self.channel_groups();
        let ghost gs = self.groups();
        let mut i: usize = 0;
        while i < groups.len()
            invariant
                i <= groups@.len(),
                groups@.len() == gs.len(),
                gs == self.groups(),
                forall|k: int| 0 <= k < groups@.len() ==> #[trigger] groups@[k]@ == gs[k],
                target@ == name@,
                forall|j: int| 0 <= j < i ==> !group_named(#[trigger] gs[j], name@),
            decreases groups@.len() - i,
        {
            let found = match groups[i].name() {
                Ok(Some(n)) => n == target,
                _ => false,
            };
            if found {
                assert(first_group_named(gs, i as int, name@));
                let g = groups.remove(i);
                return Some(g);
            }
            i += 1;
        }
        None
    }

    /// The first channel, over all groups in order, whose name reads as `name`.
    pub fn channel(&self, name: &str) -> (r: Option<Channel<'_>>)
        ensures
            match r {
                Some(c) => exists|k: int| first_channel_named(all_channels(self.groups()), k, name@) && c@ == all_channels(self.groups())[k],
                None => forall|k: int| 0 <= k < all_channels(self.groups()).len() ==> !channel_named(#[trigger] all_channels(self.groups())[k], name@),
            },
    {
        let groups = self.channel_groups();
        let ghost gs = self.groups();
        let mut i: usize = 0;
        assert(gs.take(0) =~= seq![]);
        while i < groups.len()
            invariant
                i <= groups@.len(),
                groups@.len() == gs.len(),
                gs == self.groups(),
                forall|k: int| 0 <= k < groups@.len() ==> #[trigger] groups@[k]@ == gs[k],
                forall|j: int| 0 <= j < all_channels(gs.take(i as int)).len() ==> !channel_named(#[trigger] all_channels(gs.take(i as int))[j], name@),
            decreases groups@.len() - i,
        {
            let ghost before = all_channels(gs.take(i as int));
            assert(gs.take(i + 1).drop_last() =~= gs.take(i as int));
            assert(gs.take(i + 1).last() == gs[i as int]);
            let ghost upto = all_channels(gs.take(i + 1));
            assert(upto == before + group_channels(gs[i as int]));
            match groups[i].channel(name) {
                Some(c) => {
                    proof {
                        let m = choose|m: int| first_channel_named(group_channels(gs[i as int]), m, name@) && c@ == group_channels(gs[i as int])[m];
                        lemma_all_channels_prefix(gs, i + 1);
                        let all = all_channels(gs);
                        let k = before.len() + m;
                        assert(upto[k] == group_channels(gs[i as int])[m]);
                        assert(all[k] == upto[k]);
                        assert forall|j: int| 0 <= j < k implies !channel_named(#[trigger] all[j], name@) by {
                            assert(all[j] == upto[j]);
                            if j < before.len() {
                                assert(upto[j] == before[j]);
                            } else {
                                assert(upto[j] == group_channels(gs[i as int])[j - before.len()]);
                            }
                        }
                        assert(first_channel_named(all, k, name@));
                    }
                    return Some(c);
                },
                None => {
                    proof {
                        assert forall|j: int| 0 <= j < upto.len() implies !channel_named(#[trigger] upto[j], name@) by {
                            if j < before.len() {
                                assert(upto[j] == before[j]);
                            } else {
                                assert(upto[j] == group_channels(gs[i as int])[j - before.len()]);
                            }
                        }
                    }
                },
            }
            i += 1;
        }
        assert(gs.take(groups@.len() as int) =~= gs);
        None
    }

    /// The measurement's start time in nanoseconds since the epoch, as the
    /// header block records it; `None` where it is 0 (not set).
    pub fn start_time_ns(&self) -> (t: Option<u64>)
        ensures
            t == (if self.file().header.abs_time == 0 { None } else { Some(self.file().header.abs_time) }),
    {
        let time = self.raw.header.abs_time;
        if time == 0 {
            None
        } else {
            Some(time)
        }
    }
}

} // verus!
