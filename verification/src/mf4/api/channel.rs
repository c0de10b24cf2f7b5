//! A channel seen from its group: its block, names and units.

use vstd::prelude::*;
use crate::mf4::blocks::channel_block::ChannelBlock;
use crate::mf4::blocks::text_block::{read_string_block, spec_read_text, text_view};
use crate::mf4::parsing::raw_channel::RawChannel;
use crate::mf4::parsing::raw_channel_group::RawChannelGroup;
use crate::mf4::parsing::raw_data_group::RawDataGroup;
use crate::mf4::parsing::raw_channel::{spec_records, rows};
use crate::mf4::parsing::decoder::{
    DecodedValue, SampleView, decode_channel_value, decode_channel_value_with_validity, spec_decode_value,
    spec_value_valid, view_sample, offsets_fit, is_signed, is_vlsd,
};
use crate::mf4::error::MdfError;

verus! {

/// A channel's sample in one of its records: for a VLSD channel the record
/// itself decoded; otherwise the value decoded after the record id, unless
/// the record's invalidation bit marks it invalid.
pub open spec fn record_sample(r: ChannelRef, record: Seq<u8>) -> Option<SampleView> {
    let c = r.channel.block;
    if is_vlsd(c) {
        spec_decode_value(record, 0, c)
    } else {
        let rid = r.data_group.block.record_id_len as int;
        match spec_decode_value(record, rid, c) {
            None => None,
            Some(v) => if spec_value_valid(record, rid, r.channel_group.block.samples_byte_nr, c) {
                Some(v)
            } else {
                None
            },
        }
    }
}

/// The decoding positions of a channel fit in a `usize`, and a signed
/// channel is at most 64 bits wide.
pub open spec fn decodable(r: ChannelRef) -> bool {
    let c = r.channel.block;
    &&& offsets_fit(r.data_group.block.record_id_len as usize, c)
    &&& offsets_fit(0, c)
    &&& r.data_group.block.record_id_len + r.channel_group.block.samples_byte_nr + c.pos_invalidation_bit / 8 <= usize::MAX
    &&& (is_signed(c.data_type) ==> c.bit_count <= 64)
}

/// What a channel handle refers to: the channel's block, the channel, its
/// data group, its channel group and the file's bytes.
pub struct ChannelRef {
    pub block: ChannelBlock,
    pub channel: RawChannel,
    pub data_group: RawDataGroup,
    pub channel_group: RawChannelGroup,
    pub mmap: Seq<u8>,
}

/// A channel of a parsed file, borrowing the blocks it was read from.
pub struct Channel<'a> {
    block: &'a ChannelBlock,
    raw_data_group: &'a RawDataGroup,
    raw_channel_group: &'a RawChannelGroup,
    raw_channel: &'a RawChannel,
    mmap: &'a [u8],
}

impl<'a> View for Channel<'a> {
    type V = ChannelRef;

    closed spec fn view(&self) -> ChannelRef {
        ChannelRef {
            block: *self.block,
            channel: *self.raw_channel,
            data_group: *self.raw_data_group,
            channel_group: *self.raw_channel_group,
            mmap: self.mmap@,
        }
    }
}

impl<'a> Channel<'a> {
    /// A handle on `raw_channel` (whose block `block` is) within its groups.
    pub fn new(
        block: &'a ChannelBlock,
        raw_data_group: &'a RawDataGroup,
        raw_channel_group: &'a RawChannelGroup,
        raw_channel: &'a RawChannel,
        mmap: &'a [u8],
    ) -> (c: Channel<'a>)
        ensures
            c@ == (ChannelRef {
                block: *block,
                channel: *raw_channel,
                data_group: *raw_data_group,
                channel_group: *raw_channel_group,
                mmap: mmap@,
            }),
    {
        Channel { block, raw_data_group, raw_channel_group, raw_channel, mmap }
    }

    /// The channel block.
    pub fn block(&self) -> (b: &ChannelBlock)
        ensures
            *b == self@.block,
    {
        self.block
    }

    /// The channel's name (the text its name link points at).
    pub fn name(&self) -> (res: Result<Option<String>, MdfError>)
        ensures
            text_view(res) == spec_read_text(self@.mmap, self@.block.name_addr),
    {
        read_string_block(self.mmap, self.block.name_addr)
    }

    /// The channel's physical unit, if it names one.
    pub fn unit(&self) -> (res: Result<Option<String>, MdfError>)
        ensures
            text_view(res) == spec_read_text(self@.mmap, self@.block.unit_addr),
    {
        read_string_block(self.mmap, self.block.unit_addr)
    }

    /// The channel's comment, if any.
    pub fn comment(&self) -> (res: Result<Option<String>, MdfError>)
        ensures
            text_view(res) == spec_read_text(self@.mmap, self@.block.comment_addr),
    {
        read_string_block(self.mmap, self.block.comment_addr)
    }

    /// The channel's samples, one per record in file order: `None` where a
    /// record holds no value for it or marks the value invalid. The
    /// channel's conversion is not applied. The first error met while
    /// reading the records is returned.
    pub fn raw_values(&self) -> (res: Result<Vec<Option<DecodedValue>>, MdfError>)
        requires
            decodable(self@),
        ensures
            match (res, spec_records(self@.channel.block, self@.data_group.block, self@.data_group.channel_groups@.len() as int,
                self@.channel_group.block, self@.mmap)) {
                (Ok(v), Ok(recs)) => recs.1 is None && v@.len() == recs.0.len() && forall|i: int| 0 <= i < recs.0.len()
                    ==> view_sample(#[trigger] v@[i]) == record_sample(self@, recs.0[i]),
                (Err(e1), Ok(recs)) => recs.1 == Some(e1),
                (Err(e1), Err(e2)) => e1 == e2,
                _ => false,
            },
    {
        let (records, stop) = self.raw_channel.records(self.raw_data_group, self.raw_channel_group, self.mmap)?;
        if let Some(e) = stop {
            return Err(e);
        }
        let c = &self.raw_channel.block;
        let vlsd = c.channel_type == 1 && c.data != 0;
        let rid = self.raw_data_group.block.record_id_len as usize;
        let bytes = self.raw_channel_group.block.samples_byte_nr;
        let mut out: Vec<Option<DecodedValue>> = Vec::new();
        let mut i: usize = 0;
        while i < records.len()
            invariant
                decodable(self@),
                c == &self@.channel.block,
                vlsd == is_vlsd(*c),
                rid == self@.data_group.block.record_id_len,
                bytes == self@.channel_group.block.samples_byte_nr,
                i <= records@.len(),
                out@.len() == i,
                forall|k: int| 0 <= k < i ==> view_sample(#[trigger] out@[k]) == record_sample(self@, records@[k]@),
            decreases records@.len() - i,
        {
            let record = records[i].as_slice();
            let v = if vlsd {
                decode_channel_value(record, 0, c)
            } else {
                match decode_channel_value_with_validity(record, rid, bytes, c) {
                    None => None,
                    Some(d) => if d.is_valid {
                        Some(d.value)
                    } else {
                        None
                    },
                }
            };
            out.push(v);
            i += 1;
        }
        proof {
            assert(rows(records@).len() == records@.len());
            assert forall|k: int| 0 <= k < records@.len() implies #[trigger] rows(records@)[k] == records@[k]@ by {}
        }
        Ok(out)
    }
}

} // verus!
