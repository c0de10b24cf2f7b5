//! A channel together with access to its raw record bytes: fixed-length
//! records cut out of its data group's blocks, or the length-prefixed
//! values of a VLSD channel's signal data chain.

use vstd::prelude::*;
use vstd::slice::{slice_subrange, slice_to_vec};
use crate::bytes::{le_u32_at, read_u32_le};
use crate::mf4::blocks::header::{ID_DZ, ID_DL, ID_HL, ID_SD, spec_id, starts_with_id, too_short};
use crate::mf4::blocks::channel_block::{ChannelBlock, clamp_usize};
use crate::mf4::blocks::data_block::{SignalDataBlock, spec_read_sd};
use crate::mf4::blocks::compressed_data_block::{read_dz_block, spec_read_dz_block};
use crate::mf4::blocks::data_list_block::{DataListBlock, DataListView, spec_read_dl};
use crate::mf4::blocks::history_list_block::{HistoryListBlock, spec_read_hl};
use crate::mf4::blocks::header::BlockHeader;
use crate::mf4::blocks::data_group_block::DataGroupBlock;
use crate::mf4::blocks::channel_group_block::ChannelGroupBlock;
use crate::mf4::parsing::raw_data_group::{RawDataGroup, id_at, blocks_view, spec_data_blocks};
use crate::mf4::parsing::raw_channel_group::RawChannelGroup;
use crate::mf4::parsing::decoder::is_vlsd;
use crate::mf4::error::{MdfError, ChainKind, ExpectedBlock};
use crate::mf4::links::{distinct_within, lemma_distinct_within_len, lemma_distinct_push, visited_contains};

verus! {

/// A channel as read from the file.
#[derive(Debug, Clone, Copy)]
pub struct RawChannel {
    pub block: ChannelBlock,
}

/// Records by their bytes.
pub open spec fn rows(v: Seq<Vec<u8>>) -> Seq<Seq<u8>> {
    v.map_values(|r: Vec<u8>| r@)
}

proof fn lemma_rows_push(v: Seq<Vec<u8>>, r: Vec<u8>)
    ensures
        rows(v.push(r)) == rows(v).push(r@),
{
    assert(rows(v.push(r)) =~= rows(v).push(r@));
}

/// What a walk over values read: the values, in order, up to the first
/// error, and that error where there was one.
pub type ReadOut = (Seq<Seq<u8>>, Option<MdfError>);

/// The values already read, followed by what the rest of the walk reads.
pub open spec fn then_read(done: Seq<Seq<u8>>, rest: ReadOut) -> ReadOut {
    (done + rest.0, rest.1)
}

/// A walk that fails at once with `e`.
pub open spec fn failed(e: MdfError) -> ReadOut {
    (seq![], Some(e))
}

/// A walk's error as a result.
pub open spec fn stop_result(stop: Option<MdfError>) -> Result<(), MdfError> {
    match stop {
        Some(e) => Err(e),
        None => Ok(()),
    }
}

/// The values of a signal data buffer from `pos` on: each is a 4-byte
/// little-endian length and that many bytes; fewer than 4 bytes left end
/// the buffer, a length running past its end is an error.
pub open spec fn sd_entries(buf: Seq<u8>, pos: int) -> ReadOut
    decreases buf.len() - pos,
{
    if pos < 0 || pos + 4 > buf.len() {
        (seq![], None)
    } else {
        let end = pos + 4 + le_u32_at(buf, pos);
        if end > buf.len() {
            failed(too_short(buf.len() as int, clamp_usize(end) as int))
        } else {
            then_read(seq![buf.subrange(pos + 4, end)], sd_entries(buf, end))
        }
    }
}

/// Appends the values of a signal data buffer, up to the first error.
fn push_entries(buf: &[u8], out: &mut Vec<Vec<u8>>) -> (res: Result<(), MdfError>)
    ensures
        rows(final(out)@) == rows(old(out)@) + sd_entries(buf@, 0).0,
        res == stop_result(sd_entries(buf@, 0).1),
{
    let ghost start = rows(out@);
    let mut pos: usize = 0;
    assert(start + seq![] =~= start);
    while buf.len() - pos >= 4
        invariant
            start == rows(old(out)@),
            pos <= buf@.len(),
            then_read(rows(out@), sd_entries(buf@, pos as int)) == then_read(start, sd_entries(buf@, 0)),
        decreases buf@.len() - pos,
    {
        let n = read_u32_le(buf, pos) as usize;
        let start_at = pos + 4;
        if buf.len() - start_at < n {
            let expected: usize = if n > usize::MAX - start_at { usize::MAX } else { start_at + n };
            assert(sd_entries(buf@, pos as int).0 =~= seq![]);
            assert(rows(out@) + seq![] =~= rows(out@));
            return Err(MdfError::TooShortBuffer { actual: buf.len(), expected });
        }
        let end = start_at + n;
        let entry = slice_to_vec(slice_subrange(buf, start_at, end));
        proof {
            lemma_rows_push(out@, entry);
            let r = sd_entries(buf@, end as int).0;
            assert(rows(out@) + (seq![entry@] + r) =~= rows(out@).push(entry@) + r);
        }
        out.push(entry);
        pos = end;
    }
    assert(rows(out@) + seq![] =~= rows(out@));
    Ok(())
}

/// Reading one fragment a VLSD data list links to: none for a NIL link;
/// a `##DZ` fragment is inflated, any other must be `##SD`.
pub open spec fn spec_sd_fragment(mmap: Seq<u8>, addr: u64) -> Result<Option<Seq<u8>>, MdfError> {
    if addr == 0 {
        Ok(None)
    } else if addr + 4 > mmap.len() {
        Err(too_short(mmap.len() as int, clamp_usize(addr + 4) as int))
    } else {
        let s = mmap.skip(addr as int);
        let r = if spec_id(s) == ID_DZ@ {
            spec_read_dz_block(s)
        } else {
            spec_read_sd(s)
        };
        match r {
            Err(e) => Err(e),
            Ok(b) => Ok(Some(b.1)),
        }
    }
}

/// Reads the payload of one fragment a VLSD data list links to.
fn read_sd_fragment(mmap: &[u8], addr: u64) -> (res: Result<Option<Vec<u8>>, MdfError>)
    ensures
        match (res, spec_sd_fragment(mmap@, addr)) {
            (Ok(Some(b)), Ok(Some(s))) => b@ == s,
            (Ok(None), Ok(None)) => true,
            (Err(e1), Err(e2)) => e1 == e2,
            _ => false,
        },
{
    if addr == 0 {
        return Ok(None);
    }
    if addr > mmap.len() as u64 || mmap.len() - (addr as usize) < 4 {
        let expected: usize = if addr > (usize::MAX - 4) as u64 { usize::MAX } else { addr as usize + 4 };
        return Err(MdfError::TooShortBuffer { actual: mmap.len(), expected });
    }
    let off = addr as usize;
    let bytes = slice_subrange(mmap, off, mmap.len());
    assert(bytes@ =~= mmap@.skip(addr as int));
    if starts_with_id(bytes, &ID_DZ) {
        let block = read_dz_block(bytes)?;
        Ok(Some(block.data))
    } else {
        let block = SignalDataBlock::from_bytes(bytes)?;
        Ok(Some(block.data))
    }
}

/// The values held by the fragments a VLSD data list links to, in order,
/// up to the first error.
pub open spec fn spec_sd_fragments(mmap: Seq<u8>, links: Seq<u64>) -> ReadOut
    decreases links.len(),
{
    if links.len() == 0 {
        (seq![], None)
    } else {
        let p = spec_sd_fragments(mmap, links.drop_last());
        if p.1 is Some {
            p
        } else {
            match spec_sd_fragment(mmap, links.last()) {
                Err(e) => (p.0, Some(e)),
                Ok(None) => p,
                Ok(Some(b)) => then_read(p.0, sd_entries(b, 0)),
            }
        }
    }
}

/// Once the fragments of a prefix of the links meet an error, reading all
/// of them ends there alike.
proof fn lemma_sd_fragments_err(mmap: Seq<u8>, links: Seq<u64>, i: int)
    requires
        0 <= i <= links.len(),
        spec_sd_fragments(mmap, links.take(i)).1 is Some,
    ensures
        spec_sd_fragments(mmap, links) == spec_sd_fragments(mmap, links.take(i)),
    decreases links.len() - i,
{
    if i < links.len() {
        assert(links.take(i + 1).drop_last() =~= links.take(i));
        lemma_sd_fragments_err(mmap, links, i + 1);
    } else {
        assert(links.take(i) =~= links);
    }
}

/// Appends the values held by the fragments a VLSD data list links to, up
/// to the first error.
fn push_fragment_entries(mmap: &[u8], links: &Vec<u64>, out: &mut Vec<Vec<u8>>) -> (res: Result<(), MdfError>)
    ensures
        rows(final(out)@) == rows(old(out)@) + spec_sd_fragments(mmap@, links@).0,
        res == stop_result(spec_sd_fragments(mmap@, links@).1),
{
    let ghost start = rows(out@);
    let mut i: usize = 0;
    assert(links@.take(0) =~= seq![]);
    assert(start + seq![] =~= start);
    while i < links.len()
        invariant
            start == rows(old(out)@),
            i <= links@.len(),
            spec_sd_fragments(mmap@, links@.take(i as int)).1 is None,
            rows(out@) == start + spec_sd_fragments(mmap@, links@.take(i as int)).0,
        decreases links@.len() - i,
    {
        assert(links@.take(i + 1).drop_last() =~= links@.take(i as int));
        assert(links@.take(i + 1).last() == links@[i as int]);
        let ghost a = rows(out@);
        let ghost p = spec_sd_fragments(mmap@, links@.take(i as int)).0;
        match read_sd_fragment(mmap, links[i]) {
            Err(e) => {
                proof {
                    assert(spec_sd_fragments(mmap@, links@.take(i + 1)) == (p, Some(e)));
                    lemma_sd_fragments_err(mmap@, links@, i + 1);
                }
                return Err(e);
            },
            Ok(None) => {},
            Ok(Some(buf)) => {
                let r = push_entries(buf.as_slice(), out);
                proof {
                    let es = sd_entries(buf@, 0).0;
                    assert(start + (p + es) =~= a + es);
                }
                proof {
                    assert(spec_sd_fragments(mmap@, links@.take(i + 1)) == then_read(p, sd_entries(buf@, 0)));
                }
                match r {
                    Err(e) => {
                        proof { lemma_sd_fragments_err(mmap@, links@, i + 1); }
                        return Err(e);
                    },
                    Ok(()) => {},
                }
            },
        }
        i += 1;
    }
    assert(links@.take(links@.len() as int) =~= links@);
    Ok(())
}

/// Following a VLSD channel's data link: a history list leads to its data
/// list, a data list contributes the values of its fragments and leads to
/// the next list, a signal data block (plain or zipped) ends the chain.
/// The values are those read up to the first error.
pub open spec fn spec_vlsd_chain(mmap: Seq<u8>, addr: u64, visited: Seq<u64>, fuel: nat) -> ReadOut
    decreases fuel,
{
    if addr == 0 {
        (seq![], None)
    } else if visited.contains(addr) {
        failed(MdfError::BlockLinkError { chain: ChainKind::SignalData, address: addr })
    } else if addr + 4 > mmap.len() {
        failed(too_short(mmap.len() as int, clamp_usize(addr + 4) as int))
    } else {
        let s = mmap.skip(addr as int);
        let id = spec_id(s);
        if id == ID_HL@ {
            match spec_read_hl(s) {
                Err(e) => failed(e),
                Ok(hl) => if fuel == 0 {
                    (seq![], None)
                } else {
                    spec_vlsd_chain(mmap, hl.dl_first, visited.push(addr), (fuel - 1) as nat)
                },
            }
        } else if id == ID_DL@ {
            match spec_read_dl(s) {
                Err(e) => failed(e),
                Ok(dl) => {
                    let fr = spec_sd_fragments(mmap, dl.data_links);
                    if fr.1 is Some || fuel == 0 {
                        fr
                    } else {
                        then_read(fr.0, spec_vlsd_chain(mmap, dl.next, visited.push(addr), (fuel - 1) as nat))
                    }
                },
            }
        } else if id == ID_SD@ {
            match spec_read_sd(s) {
                Err(e) => failed(e),
                Ok(b) => sd_entries(b.1, 0),
            }
        } else if id == ID_DZ@ {
            match spec_read_dz_block(s) {
                Err(e) => failed(e),
                Ok(b) => sd_entries(b.1, 0),
            }
        } else {
            failed(MdfError::BlockIDError { actual: id_at(mmap, addr as int), expected: ExpectedBlock::SignalChain })
        }
    }
}

/// Reads the block at `at` along a VLSD data chain, appending its values;
/// gives the address the chain goes on at (0 at its end).
#[verifier::rlimit(60)]
fn vlsd_step(mmap: &[u8], at: u64, Ghost(visited): Ghost<Seq<u64>>, Ghost(fuel): Ghost<nat>, out: &mut Vec<Vec<u8>>) -> (res: Result<u64, MdfError>)
    requires
        at != 0,
        !visited.contains(at),
        at + 4 <= mmap@.len(),
        fuel >= 1,
    ensures
        match res {
            Ok(n) => then_read(rows(final(out)@), spec_vlsd_chain(mmap@, n, visited.push(at), (fuel - 1) as nat))
                == then_read(rows(old(out)@), spec_vlsd_chain(mmap@, at, visited, fuel)),
            Err(e) => then_read(rows(old(out)@), spec_vlsd_chain(mmap@, at, visited, fuel)) == (rows(final(out)@), Some(e)),
        },
{
    let off = at as usize;
    let bytes = slice_subrange(mmap, off, mmap.len());
    assert(bytes@ =~= mmap@.skip(at as int));
    let ghost before = rows(out@);
    assert(before + seq![] =~= before);
    if starts_with_id(bytes, &ID_HL) {
        let hl = HistoryListBlock::from_bytes(bytes)?;
        Ok(hl.dl_first)
    } else if starts_with_id(bytes, &ID_DL) {
        let dl = DataListBlock::from_bytes(bytes)?;
        assert(spec_read_dl(mmap@.skip(at as int)) == Ok::<DataListView, MdfError>(dl@));
        push_fragment_entries(mmap, &dl.data_links, out)?;
        proof {
            let fr = spec_sd_fragments(mmap@, dl.data_links@).0;
            let r = spec_vlsd_chain(mmap@, dl.next, visited.push(at), (fuel - 1) as nat).0;
            assert(before + (fr + r) =~= rows(out@) + r);
        }
        Ok(dl.next)
    } else if starts_with_id(bytes, &ID_SD) {
        let block = SignalDataBlock::from_bytes(bytes)?;
        push_entries(block.data.as_slice(), out)?;
        assert(rows(out@) + seq![] =~= rows(out@));
        Ok(0)
    } else if starts_with_id(bytes, &ID_DZ) {
        let block = read_dz_block(bytes)?;
        push_entries(block.data.as_slice(), out)?;
        assert(rows(out@) + seq![] =~= rows(out@));
        Ok(0)
    } else {
        let id = [bytes[0], bytes[1], bytes[2], bytes[3]];
        assert(id =~= id_at(mmap@, at as int));
        Err(MdfError::BlockIDError { actual: id, expected: ExpectedBlock::SignalChain })
    }
}

/// Reads the values along a VLSD channel's data chain, up to the first
/// error, and that error.
fn vlsd_records(mmap: &[u8], first: u64) -> (res: (Vec<Vec<u8>>, Option<MdfError>))
    ensures
        (rows(res.0@), res.1) == spec_vlsd_chain(mmap@, first, seq![], (mmap@.len() + 1) as nat),
{
    let mut out: Vec<Vec<u8>> = Vec::new();
    let mut next = first;
    let mut visited: Vec<u64> = Vec::new();
    let ghost len = mmap@.len() as int;
    let ghost mut fuel: nat = (len + 1) as nat;
    let ghost goal = spec_vlsd_chain(mmap@, first, seq![], (len + 1) as nat);
    assert(rows(out@) + goal.0 =~= goal.0);
    assert(rows(out@) =~= seq![]);
    while next != 0
        invariant
            distinct_within(visited@, len),
            fuel + visited@.len() == len + 1,
            len == mmap@.len(),
            goal == spec_vlsd_chain(mmap@, first, seq![], (len + 1) as nat),
            then_read(rows(out@), spec_vlsd_chain(mmap@, next, visited@, fuel)) == goal,
        decreases fuel,
    {
        proof {
            lemma_distinct_within_len(visited@, len);
        }
        assert(rows(out@) + seq![] =~= rows(out@));
        if visited_contains(&visited, next) {
            return (out, Some(MdfError::BlockLinkError { chain: ChainKind::SignalData, address: next }));
        }
        if next > mmap.len() as u64 || mmap.len() - (next as usize) < 4 {
            let expected: usize = if next > (usize::MAX - 4) as u64 { usize::MAX } else { next as usize + 4 };
            return (out, Some(MdfError::TooShortBuffer { actual: mmap.len(), expected }));
        }
        proof {
            lemma_distinct_push(visited@, next, len);
            lemma_distinct_within_len(visited@.push(next), len);
        }
        match vlsd_step(mmap, next, Ghost(visited@), Ghost(fuel), &mut out) {
            Err(e) => {
                return (out, Some(e));
            },
            Ok(n) => {
                visited.push(next);
                next = n;
            },
        }
        proof { fuel = (fuel - 1) as nat; }
    }
    assert(rows(out@) + seq![] =~= rows(out@));
    (out, None)
}

/// The whole records of `size` bytes that `data` holds, in order; a partial
/// record at its end is dropped.
pub open spec fn chunks(data: Seq<u8>, size: int) -> Seq<Seq<u8>> {
    Seq::new((data.len() as int / size) as nat, |i: int| data.subrange(i * size, (i + 1) * size))
}

/// The fixed-length records of a sequence of data blocks, block by block.
pub open spec fn fixed_records(blocks: Seq<(BlockHeader, Seq<u8>)>, size: int) -> Seq<Seq<u8>>
    decreases blocks.len(),
{
    if blocks.len() == 0 {
        seq![]
    } else {
        fixed_records(blocks.drop_last(), size) + chunks(blocks.last().1, size)
    }
}

/// The length of a record: record id, data bytes and invalidation bytes.
pub open spec fn record_size(dg: DataGroupBlock, cg: ChannelGroupBlock) -> int {
    dg.record_id_len + cg.samples_byte_nr + cg.invalidation_bytes_nr
}

/// The raw records of a channel: the values along its signal data chain
/// for a VLSD channel, up to the first error met along it, and that error;
/// else the fixed-length records of its data group's blocks (none where a
/// record would have no bytes), or the error reading the blocks.
pub open spec fn spec_records(
    c: ChannelBlock,
    dg: DataGroupBlock,
    n_groups: int,
    cg: ChannelGroupBlock,
    mmap: Seq<u8>,
) -> Result<ReadOut, MdfError> {
    if is_vlsd(c) {
        Ok(spec_vlsd_chain(mmap, c.data, seq![], (mmap.len() + 1) as nat))
    } else if record_size(dg, cg) == 0 {
        Ok((seq![], None))
    } else {
        match spec_data_blocks(mmap, dg, n_groups) {
            Err(e) => Err(e),
            Ok(bs) => Ok((fixed_records(bs, record_size(dg, cg)), None)),
        }
    }
}

/// The fixed-length records of blocks are all `size` bytes long.
proof fn lemma_fixed_records_len(blocks: Seq<(BlockHeader, Seq<u8>)>, size: int)
    requires
        size > 0,
    ensures
        forall|i: int| 0 <= i < fixed_records(blocks, size).len() ==> (#[trigger] fixed_records(blocks, size)[i]).len() == size,
    decreases blocks.len(),
{
    if blocks.len() > 0 {
        lemma_fixed_records_len(blocks.drop_last(), size);
        let a = fixed_records(blocks.drop_last(), size);
        let c = chunks(blocks.last().1, size);
        assert forall|i: int| 0 <= i < (a + c).len() implies #[trigger] (a + c)[i].len() == size by {
            if i >= a.len() {
                let j = i - a.len();
                vstd::arithmetic::div_mod::lemma_fundamental_div_mod(blocks.last().1.len() as int, size);
                assert((j + 1) * size <= (blocks.last().1.len() as int / size) * size) by (nonlinear_arith)
                    requires
                        0 <= j < blocks.last().1.len() as int / size,
                        size > 0,
                ;
                assert((j + 1) * size == j * size + size) by (nonlinear_arith);
                assert(0 <= j * size) by (nonlinear_arith)
                    requires
                        0 <= j,
                        size > 0,
                ;
            }
        }
    }
}

/// The record layout of a channel that is not VLSD: where its data group's
/// blocks can be read and a record has bytes, every record is one record
/// id, the channel group's data bytes and its invalidation bytes long
/// (`record_id_len + samples_byte_nr + invalidation_bytes_nr`), and the
/// records of a single block are its consecutive pieces of that length,
/// record `i` starting at byte `i` times that length, as many as fit whole.
pub proof fn lemma_fixed_record_layout(c: ChannelBlock, dg: DataGroupBlock, n_groups: int, cg: ChannelGroupBlock, mmap: Seq<u8>)
    requires
        !is_vlsd(c),
        dg.record_id_len + cg.samples_byte_nr + cg.invalidation_bytes_nr > 0,
    ensures
        ({
            let size = dg.record_id_len + cg.samples_byte_nr + cg.invalidation_bytes_nr;
            match spec_data_blocks(mmap, dg, n_groups) {
                Err(e) => spec_records(c, dg, n_groups, cg, mmap) == Err::<ReadOut, MdfError>(e),
                Ok(bs) => spec_records(c, dg, n_groups, cg, mmap) matches Ok((recs, stop)) && stop is None
                    && (forall|i: int| 0 <= i < recs.len() ==> (#[trigger] recs[i]).len() == size)
                    && (bs.len() == 1 ==> recs.len() == bs[0].1.len() as int / size
                        && forall|i: int| 0 <= i < recs.len() ==> #[trigger] recs[i] == bs[0].1.subrange(i * size, (i + 1) * size)),
            }
        }),
{
    let size = dg.record_id_len + cg.samples_byte_nr + cg.invalidation_bytes_nr;
    if let Ok(bs) = spec_data_blocks(mmap, dg, n_groups) {
        lemma_fixed_records_len(bs, size);
        if bs.len() == 1 {
            assert(bs.drop_last().len() == 0);
            assert(fixed_records(bs.drop_last(), size) == Seq::<Seq<u8>>::empty());
            assert(bs.last() == bs[0]);
            assert(fixed_records(bs, size) == fixed_records(bs.drop_last(), size) + chunks(bs.last().1, size));
            assert(fixed_records(bs, size) =~= chunks(bs[0].1, size));
        }
    }
}

/// Appends the whole records of `size` bytes in `data`.
fn push_chunks(data: &[u8], size: usize, out: &mut Vec<Vec<u8>>)
    requires
        size > 0,
    ensures
        rows(final(out)@) == rows(old(out)@) + chunks(data@, size as int),
{
    let ghost start = rows(out@);
    let mut lo: usize = 0;
    let ghost mut i: int = 0;
    assert(start + Seq::new(0, |j: int| data@.subrange(j * size, (j + 1) * size)) =~= start);
    while data.len() - lo >= size
        invariant
            size > 0,
            lo <= data@.len(),
            lo == i * size,
            0 <= i,
            rows(out@) == start + Seq::new(i as nat, |j: int| data@.subrange(j * size, (j + 1) * size)),
        decreases data@.len() - lo,
    {
        let hi = lo + size;
        let row = slice_to_vec(slice_subrange(data, lo, hi));
        proof {
            lemma_rows_push(out@, row);
            assert((i + 1) * size == i * size + size) by (nonlinear_arith);
            assert(rows(out@).push(row@) =~= start + Seq::new((i + 1) as nat, |j: int| data@.subrange(j * size, (j + 1) * size)));
        }
        out.push(row);
        lo = hi;
        proof { i = i + 1; }
    }
    proof {
        vstd::arithmetic::div_mod::lemma_fundamental_div_mod_converse(data@.len() as int, size as int, i, data@.len() - lo);
        assert(Seq::new(i as nat, |j: int| data@.subrange(j * size, (j + 1) * size)) =~= chunks(data@, size as int));
    }
}

impl RawChannel {
    /// The raw records of this channel, in file order: for a VLSD channel
    /// the values along its signal data chain, read one by one up to the
    /// first error met, which comes with them; else the fixed-length records
    /// (record id, data bytes, invalidation bytes) of its data group's
    /// blocks, or the error reading those blocks.
    pub fn records(&self, data_group: &RawDataGroup, channel_group: &RawChannelGroup, mmap: &[u8]) -> (res: Result<(Vec<Vec<u8>>, Option<MdfError>), MdfError>)
        ensures
            match (res, spec_records(self.block, data_group.block, data_group.channel_groups@.len() as int, channel_group.block, mmap@)) {
                (Ok(v), Ok(s)) => (rows(v.0@), v.1) == s,
                (Err(e1), Err(e2)) => e1 == e2,
                _ => false,
            },
    {
        if self.block.channel_type == 1 && self.block.data != 0 {
            return Ok(vlsd_records(mmap, self.block.data));
        }
        let size: u64 = data_group.block.record_id_len as u64 + channel_group.block.samples_byte_nr as u64
            + channel_group.block.invalidation_bytes_nr as u64;
        if size == 0 {
            let out: Vec<Vec<u8>> = Vec::new();
            assert(rows(out@) =~= seq![]);
            return Ok((out, None));
        }
        let blocks = data_group.data_blocks(mmap)?;
        let ghost bs = blocks_view(blocks@);
        let mut out: Vec<Vec<u8>> = Vec::new();
        let mut k: usize = 0;
        assert(bs.take(0) =~= seq![]);
        assert(rows(out@) =~= seq![]);
        while k < blocks.len()
            invariant
                k <= blocks@.len(),
                bs == blocks_view(blocks@),
                size == record_size(data_group.block, channel_group.block),
                size > 0,
                rows(out@) == fixed_records(bs.take(k as int), size as int),
            decreases blocks@.len() - k,
        {
            assert(bs.take(k + 1).drop_last() =~= bs.take(k as int));
            assert(bs.take(k + 1).last() == blocks@[k as int]@);
            if size <= usize::MAX as u64 {
                push_chunks(blocks[k].data.as_slice(), size as usize, &mut out);
            } else {
                let data_len = blocks[k].data.len();
                proof {
                    let l = blocks@[k as int].data@.len() as int;
                    assert(l == data_len);
                    vstd::arithmetic::div_mod::lemma_basic_div(l, size as int);
                }
                assert(chunks(blocks@[k as int].data@, size as int) =~= seq![]);
                assert(rows(out@) + seq![] =~= rows(out@));
            }
            k += 1;
        }
        assert(bs.take(blocks@.len() as int) =~= bs);
        Ok((out, None))
    }
}

} // verus!
