//! DLBLOCK: an ordered list of data fragments, with a link to the next list.

use vstd::prelude::*;
use crate::bytes::{le_u32_at, le_u64_at, read_u32_le, read_u64_le, le_bytes_u32, le_bytes_u64, push_u32_le, push_u64_le};
use crate::mf4::blocks::header::{
    BlockHeader, ID_DL, spec_read_header_expecting, spec_header, spec_id, same_id, header_bytes,
    lemma_u64_field, lemma_u32_field};
use crate::mf4::blocks::channel_block::clamp_usize;
use crate::mf4::error::{MdfError, LayoutProblem};

verus! {

/// A data list block. With bit 0 of `flags` set every fragment has the
/// length `data_block_len`; otherwise `offsets` gives each fragment's
/// position in the concatenated data.
#[derive(Debug, Clone)]
pub struct DataListBlock {
    pub header: BlockHeader,
    pub next: u64,
    pub data_links: Vec<u64>,
    pub flags: u8,
    pub reserved1: [u8; 3],
    pub data_block_nr: u32,
    pub data_block_len: Option<u64>,
    pub offsets: Option<Vec<u64>>,
}

/// A data list block with its vectors taken as sequences.
pub struct DataListView {
    pub header: BlockHeader,
    pub next: u64,
    pub data_links: Seq<u64>,
    pub flags: u8,
    pub reserved1: [u8; 3],
    pub data_block_nr: u32,
    pub data_block_len: Option<u64>,
    pub offsets: Option<Seq<u64>>,
}

/// A vector option taken as a sequence option.
pub open spec fn opt_seq(o: Option<Vec<u64>>) -> Option<Seq<u64>> {
    match o {
        Some(v) => Some(v@),
        None => None,
    }
}

impl View for DataListBlock {
    type V = DataListView;

    open spec fn view(&self) -> DataListView {
        DataListView {
            header: self.header,
            next: self.next,
            data_links: self.data_links@,
            flags: self.flags,
            reserved1: self.reserved1,
            data_block_nr: self.data_block_nr,
            data_block_len: self.data_block_len,
            offsets: opt_seq(self.offsets),
        }
    }
}

/// `n` little-endian `u64`s stored from `off` on.
pub open spec fn le_u64s(s: Seq<u8>, off: int, n: nat) -> Seq<u64> {
    Seq::new(n, |k: int| le_u64_at(s, off + 8 * k))
}

/// Where a data list's data section starts, after its `links_nr` links.
pub open spec fn dl_data_start(links_nr: u64) -> int {
    24 + 8 * links_nr
}

/// Reading a data list block: a `##DL` header with at least the `next`
/// link, all links and the 8-byte data section header, then either the
/// common fragment length (flag bit 0 set) or one offset per fragment.
pub open spec fn spec_read_dl(s: Seq<u8>) -> Result<DataListView, MdfError> {
    match spec_read_header_expecting(s, ID_DL) {
        Err(e) => Err(e),
        Ok(h) => {
            let off = dl_data_start(h.links_nr);
            if h.links_nr == 0 {
                Err(MdfError::BlockSerializationError(LayoutProblem::NoLinks))
            } else if s.len() < off + 8 {
                Err(MdfError::TooShortBuffer { actual: s.len() as usize, expected: clamp_usize(off + 8) })
            } else {
                let flags = s[off];
                let nr = le_u32_at(s, off + 4);
                let base = DataListView {
                    header: h,
                    next: le_u64_at(s, 24),
                    data_links: le_u64s(s, 32, (h.links_nr - 1) as nat),
                    flags,
                    reserved1: [s[off + 1], s[off + 2], s[off + 3]],
                    data_block_nr: nr,
                    data_block_len: None,
                    offsets: None,
                };
                if flags & 1 != 0 {
                    if s.len() < off + 16 {
                        Err(MdfError::TooShortBuffer { actual: s.len() as usize, expected: clamp_usize(off + 16) })
                    } else {
                        Ok(DataListView { data_block_len: Some(le_u64_at(s, off + 8)), ..base })
                    }
                } else if s.len() < off + 8 + 8 * nr {
                    Err(
                        MdfError::TooShortBuffer {
                            actual: s.len() as usize,
                            expected: clamp_usize(off + 8 + 8 * nr),
                        },
                    )
                } else {
                    Ok(DataListView { offsets: Some(le_u64s(s, off + 8, nr as nat)), ..base })
                }
            }
        },
    }
}

/// Reads `n` little-endian `u64`s stored from `off` on.
pub fn read_u64s(bytes: &[u8], off: usize, n: usize) -> (out: Vec<u64>)
    requires
        off + 8 * n <= bytes.len(),
    ensures
        out@ == le_u64s(bytes@, off as int, n as nat),
{
    let mut out: Vec<u64> = Vec::with_capacity(n);
    let mut k: usize = 0;
    while k < n
        invariant
            k <= n,
            off + 8 * n <= bytes.len(),
            out@ =~= le_u64s(bytes@, off as int, k as nat),
        decreases n - k,
    {
        out.push(read_u64_le(bytes, off + 8 * k));
        k += 1;
        assert(out@ =~= le_u64s(bytes@, off as int, k as nat));
    }
    out
}

impl DataListBlock {
    /// Reads a data list block from the start of `bytes`. The length is
    /// checked before anything is allocated, so a bogus fragment count
    /// cannot trigger a huge allocation.
    pub fn from_bytes(bytes: &[u8]) -> (res: Result<DataListBlock, MdfError>)
        ensures
            crate::mf4::error::view_result(res) == spec_read_dl(bytes@),
    {
        let header = BlockHeader::parse_expecting(bytes, ID_DL)?;
        if header.links_nr == 0 {
            return Err(MdfError::BlockSerializationError(LayoutProblem::NoLinks));
        }
        let min_len: u128 = 32 + 8 * (header.links_nr as u128);
        if (bytes.len() as u128) < min_len {
            let expected = if min_len > usize::MAX as u128 {
                usize::MAX
            } else {
                min_len as usize
            };
            return Err(MdfError::TooShortBuffer { actual: bytes.len(), expected });
        }
        let link_count = header.links_nr as usize;
        let next = read_u64_le(bytes, 24);
        let data_links = read_u64s(bytes, 32, link_count - 1);
        let off = 24 + 8 * link_count;
        let flags = bytes[off];
        let reserved1 = [bytes[off + 1], bytes[off + 2], bytes[off + 3]];
        let data_block_nr = read_u32_le(bytes, off + 4);
        let off = off + 8;
        let ghost spec = spec_read_dl(bytes@);
        if flags & 1 != 0 {
            if bytes.len() - off < 8 {
                return Err(MdfError::TooShortBuffer { actual: bytes.len(), expected: off.saturating_add(8) });
            }
            let len = read_u64_le(bytes, off);
            let out = DataListBlock {
                header,
                next,
                data_links,
                flags,
                reserved1,
                data_block_nr,
                data_block_len: Some(len),
                offsets: None,
            };
            assert(out@.reserved1 =~= spec.unwrap().reserved1);
            Ok(out)
        } else {
            if ((bytes.len() - off) as u64) < (data_block_nr as u64) * 8 {
                let needed: u128 = off as u128 + 8 * (data_block_nr as u128);
                let expected = if needed > usize::MAX as u128 {
                    usize::MAX
                } else {
                    needed as usize
                };
                return Err(MdfError::TooShortBuffer { actual: bytes.len(), expected });
            }
            let offs = read_u64s(bytes, off, data_block_nr as usize);
            let out = DataListBlock {
                header,
                next,
                data_links,
                flags,
                reserved1,
                data_block_nr,
                data_block_len: None,
                offsets: Some(offs),
            };
            assert(out@.reserved1 =~= spec.unwrap().reserved1);
            Ok(out)
        }
    }
}

} // verus!

verus! {

/// The little-endian encodings of `v`'s values, one after another.
pub open spec fn u64s_bytes(v: Seq<u64>) -> Seq<u8>
    decreases v.len(),
{
    if v.len() == 0 {
        seq![]
    } else {
        u64s_bytes(v.drop_last()) + le_bytes_u64(v.last())
    }
}

/// The length of a data list's data section: flags, reserved bytes and
/// fragment count, then the common fragment length or one offset per fragment.
pub open spec fn dl_extra_len(flags: u8, data_block_nr: u32) -> int {
    if flags & 1 != 0 {
        16
    } else {
        8 + 8 * data_block_nr
    }
}

/// Writing a data list block: its header must say `##DL`, one link more
/// than it has data links, and the length its fields need.
pub open spec fn spec_dl_to_bytes(b: DataListView) -> Result<Seq<u8>, MdfError> {
    let links_nr = b.data_links.len() + 1;
    let block_len = 24 + 8 * links_nr + dl_extra_len(b.flags, b.data_block_nr);
    if b.header.id@ != ID_DL@ {
        Err(MdfError::BlockSerializationError(LayoutProblem::WrongId))
    } else if b.header.links_nr != links_nr {
        Err(
            MdfError::BlockSerializationError(
                LayoutProblem::LinksNrMismatch { header: b.header.links_nr, actual: links_nr as u64 },
            ),
        )
    } else if b.header.block_len != block_len {
        Err(
            MdfError::BlockSerializationError(
                LayoutProblem::BlockLenMismatch { header: b.header.block_len, actual: block_len as u64 },
            ),
        )
    } else {
        Ok(
            header_bytes(b.header) + le_bytes_u64(b.next) + u64s_bytes(b.data_links) + seq![b.flags]
                + b.reserved1@ + le_bytes_u32(b.data_block_nr) + (if b.flags & 1 != 0 {
                le_bytes_u64(
                    match b.data_block_len {
                        Some(l) => l,
                        None => 0,
                    },
                )
            } else {
                match b.offsets {
                    Some(o) => u64s_bytes(o),
                    None => seq![],
                }
            }),
        )
    }
}

/// Appends the little-endian encodings of `v`'s values.
fn push_u64s(buf: &mut Vec<u8>, v: &Vec<u64>)
    ensures
        final(buf)@ == old(buf)@ + u64s_bytes(v@),
{
    let mut k: usize = 0;
    while k < v.len()
        invariant
            k <= v@.len(),
            buf@ == old(buf)@ + u64s_bytes(v@.subrange(0, k as int)),
        decreases v@.len() - k,
    {
        let ghost before = buf@;
        push_u64_le(buf, v[k]);
        k += 1;
        proof {
            let w = v@.subrange(0, k as int);
            assert(w.drop_last() =~= v@.subrange(0, k - 1));
            assert(w.last() == v@[k - 1]);
            assert(buf@ =~= old(buf)@ + u64s_bytes(w));
        }
    }
    assert(v@.subrange(0, v@.len() as int) =~= v@);
}

impl DataListBlock {
    /// A data list whose fragments all have the length `data_block_len`
    /// (flag bit 0 set), with no next list.
    pub fn new_equal(data_links: Vec<u64>, data_block_len: u64) -> (b: DataListBlock)
        requires
            data_links@.len() < 0x1000_0000_0000_0000,
            (data_links@.len() + 1) % 0x1_0000_0000 != 0,
        ensures
            b.header.id == ID_DL,
            b.header.reserved0 == 0,
            b.header.links_nr == data_links@.len() + 1,
            b.header.block_len == 24 + 8 * (data_links@.len() + 1) + 16,
            b.next == 0,
            b.data_links@ == data_links@,
            b.flags == 1,
            b.reserved1@ == seq![0u8, 0u8, 0u8],
            b.data_block_nr == (data_links@.len() + 1) % 0x1_0000_0000 - 1,
            b.data_block_len == Some(data_block_len),
            b.offsets is None,
            dl_consistent(b@),
    {
        let links_nr = data_links.len() as u64 + 1;
        let block_len = 24 + links_nr * 8 + 1 + 3 + 4 + 8;
        let header = BlockHeader { id: ID_DL, reserved0: 0, block_len, links_nr };
        let b = DataListBlock {
            header,
            next: 0,
            data_links,
            flags: 1,
            reserved1: [0, 0, 0],
            data_block_nr: (links_nr % 0x1_0000_0000) as u32 - 1,
            data_block_len: Some(data_block_len),
            offsets: None,
        };
        assert(b.reserved1@ =~= seq![0u8, 0u8, 0u8]);
        assert(1u8 & 1 != 0) by (bit_vector);
        b
    }

    /// A data list of fragments of differing lengths (flags 0): `offsets[i]`
    /// is where fragment `i` starts in the concatenated data.
    pub fn new_variable(data_links: Vec<u64>, offsets: Vec<u64>) -> (b: DataListBlock)
        requires
            data_links@.len() == offsets@.len(),
            data_links@.len() < 0x0400_0000_0000_0000,
            (data_links@.len() + 1) % 0x1_0000_0000 != 0,
        ensures
            b.header.id == ID_DL,
            b.header.reserved0 == 0,
            b.header.links_nr == data_links@.len() + 1,
            b.header.block_len == 24 + 8 * (data_links@.len() + 1) + 8 + 8 * offsets@.len(),
            b.next == 0,
            b.data_links@ == data_links@,
            b.flags == 0,
            b.reserved1@ == seq![0u8, 0u8, 0u8],
            b.data_block_nr == (data_links@.len() + 1) % 0x1_0000_0000 - 1,
            b.data_block_len is None,
            b.offsets == Some(offsets),
            data_links@.len() < 0xFFFF_FFFF ==> dl_consistent(b@),
    {
        let links_nr = data_links.len() as u64 + 1;
        let block_len = 24 + links_nr * 8 + 1 + 3 + 4 + offsets.len() as u64 * 8;
        let header = BlockHeader { id: ID_DL, reserved0: 0, block_len, links_nr };
        let b = DataListBlock {
            header,
            next: 0,
            data_links,
            flags: 0,
            reserved1: [0, 0, 0],
            data_block_nr: (links_nr % 0x1_0000_0000) as u32 - 1,
            data_block_len: None,
            offsets: Some(offsets),
        };
        assert(b.reserved1@ =~= seq![0u8, 0u8, 0u8]);
        assert(0u8 & 1 == 0) by (bit_vector);
        b
    }

    /// Serializes this block, after checking its header against its fields.
    pub fn to_bytes(&self) -> (res: Result<Vec<u8>, MdfError>)
        requires
            self.data_links@.len() < 0x1000_0000_0000_0000,
        ensures
            match (res, spec_dl_to_bytes(self@)) {
                (Ok(v), Ok(s)) => v@ == s,
                (Err(e1), Err(e2)) => e1 == e2,
                _ => false,
            },
    {
        if !same_id(&self.header.id, &ID_DL) {
            return Err(MdfError::BlockSerializationError(LayoutProblem::WrongId));
        }
        let links_nr = self.data_links.len() as u64 + 1;
        let extra: u64 = if self.flags & 1 != 0 {
            1 + 3 + 4 + 8
        } else {
            1 + 3 + 4 + (self.data_block_nr as u64 * 8)
        };
        let block_len = 24 + links_nr * 8 + extra;
        if self.header.links_nr != links_nr {
            return Err(
                MdfError::BlockSerializationError(
                    LayoutProblem::LinksNrMismatch { header: self.header.links_nr, actual: links_nr },
                ),
            );
        }
        if self.header.block_len != block_len {
            return Err(
                MdfError::BlockSerializationError(
                    LayoutProblem::BlockLenMismatch { header: self.header.block_len, actual: block_len },
                ),
            );
        }
        let mut buf = self.header.to_bytes();
        push_u64_le(&mut buf, self.next);
        push_u64s(&mut buf, &self.data_links);
        buf.push(self.flags);
        buf.push(self.reserved1[0]);
        buf.push(self.reserved1[1]);
        buf.push(self.reserved1[2]);
        push_u32_le(&mut buf, self.data_block_nr);
        let ghost mid = buf@;
        if self.flags & 1 != 0 {
            let len = match self.data_block_len {
                Some(l) => l,
                None => 0,
            };
            push_u64_le(&mut buf, len);
        } else {
            match &self.offsets {
                Some(offsets) => push_u64s(&mut buf, offsets),
                None => {},
            }
        }
        proof {
            let s = spec_dl_to_bytes(self@).unwrap();
            assert(buf@ =~= s);
        }
        Ok(buf)
    }
}

/// `u64s_bytes` gives eight bytes per value.
pub proof fn lemma_u64s_bytes_len(v: Seq<u64>)
    ensures
        u64s_bytes(v).len() == 8 * v.len(),
    decreases v.len(),
{
    if v.len() > 0 {
        lemma_u64s_bytes_len(v.drop_last());
    }
}

/// Reading back the values that `u64s_bytes` wrote, wherever they stand.
pub proof fn lemma_u64s_read_back(s: Seq<u8>, off: int, v: Seq<u64>)
    requires
        0 <= off,
        off + 8 * v.len() <= s.len(),
        s.subrange(off, off + 8 * v.len()) == u64s_bytes(v),
    ensures
        le_u64s(s, off, v.len()) == v,
    decreases v.len(),
{
    lemma_u64s_bytes_len(v);
    if v.len() > 0 {
        let w = v.drop_last();
        let n = v.len() - 1;
        lemma_u64s_bytes_len(w);
        assert(s.subrange(off, off + 8 * n) =~= s.subrange(off, off + 8 * v.len()).subrange(0, 8 * n));
        assert(u64s_bytes(v).subrange(0, 8 * n) =~= u64s_bytes(w));
        lemma_u64s_read_back(s, off, w);
        assert(s.subrange(off + 8 * n, off + 8 * n + 8) =~= s.subrange(off, off + 8 * v.len()).subrange(
            8 * n,
            8 * n + 8,
        ));
        assert(u64s_bytes(v).subrange(8 * n, 8 * n + 8) =~= le_bytes_u64(v.last()));
        lemma_u64_field(s, off + 8 * n, v.last());
        assert forall|k: int| 0 <= k < v.len() implies #[trigger] le_u64s(s, off, v.len())[k] == v[k] by {
            if k < n {
                assert(le_u64s(s, off, n as nat)[k] == w[k]);
            }
        }
        assert(le_u64s(s, off, v.len()) =~= v);
    } else {
        assert(le_u64s(s, off, v.len()) =~= v);
    }
}

/// A data list whose header and data section agree with its fields: the
/// `##DL` id, one link more than its data links, the length those fields
/// need, and either a common fragment length (flag bit 0 set) or exactly
/// `data_block_nr` offsets.
pub open spec fn dl_consistent(b: DataListView) -> bool {
    &&& b.header.id@ == ID_DL@
    &&& b.header.links_nr == b.data_links.len() + 1
    &&& b.header.block_len == 24 + 8 * (b.data_links.len() + 1) + dl_extra_len(b.flags, b.data_block_nr)
    &&& if b.flags & 1 != 0 {
        b.data_block_len is Some && b.offsets is None
    } else {
        b.data_block_len is None && (b.offsets matches Some(o) && o.len() == b.data_block_nr)
    }
}

/// The fields that a consistent data list's bytes hold where a reader looks.
#[verifier::spinoff_prover]
#[verifier::rlimit(50)]
proof fn lemma_dl_bytes_fields(b: DataListView)
    requires
        dl_consistent(b),
    ensures
        ({
            let s = spec_dl_to_bytes(b).unwrap();
            let n: int = b.data_links.len() as int;
            let off: int = 24 + 8 * (n + 1);
            &&& spec_dl_to_bytes(b) is Ok
            &&& s.len() == 24 + 8 * (n + 1) + dl_extra_len(b.flags, b.data_block_nr)
            &&& spec_id(s) == ID_DL@
            &&& spec_header(s) == b.header
            &&& le_u64_at(s, 24) == b.next
            &&& le_u64s(s, 32, (b.header.links_nr - 1) as nat) == b.data_links
            &&& s[off] == b.flags
            &&& [s[off + 1], s[off + 2], s[off + 3]] == b.reserved1
            &&& le_u32_at(s, off + 4) == b.data_block_nr
            &&& (b.flags & 1 != 0 ==> le_u64_at(s, off + 8) == b.data_block_len.unwrap())
            &&& (b.flags & 1 == 0 ==> le_u64s(s, off + 8, b.data_block_nr as nat) == b.offsets.unwrap())
        }),
{
    let s = spec_dl_to_bytes(b).unwrap();
    let n: int = b.data_links.len() as int;
    let off: int = 24 + 8 * (n + 1);
    lemma_u64s_bytes_len(b.data_links);
    crate::mf4::blocks::header::lemma_header_roundtrip(b.header);
    let hb = header_bytes(b.header);
    let tail = if b.flags & 1 != 0 {
        le_bytes_u64(b.data_block_len.unwrap())
    } else {
        u64s_bytes(b.offsets.unwrap())
    };
    if b.flags & 1 == 0 {
        lemma_u64s_bytes_len(b.offsets.unwrap());
    }
    let front = hb + le_bytes_u64(b.next) + u64s_bytes(b.data_links) + seq![b.flags] + b.reserved1@
        + le_bytes_u32(b.data_block_nr);
    assert(s =~= front + tail);
    assert(spec_id(s) =~= spec_id(hb));
    assert(s.subrange(16, 24) =~= hb.subrange(16, 24));
    assert(s.subrange(8, 16) =~= hb.subrange(8, 16));
    assert(s.subrange(4, 8) =~= hb.subrange(4, 8));
    assert(spec_header(s) == spec_header(hb));
    assert(s.subrange(24, 32) =~= le_bytes_u64(b.next));
    lemma_u64_field(s, 24, b.next);
    assert(s.subrange(32, 32 + 8 * n) =~= u64s_bytes(b.data_links));
    lemma_u64s_read_back(s, 32, b.data_links);
    assert(s[off] == b.flags);
    assert(s[off + 1] == b.reserved1[0] && s[off + 2] == b.reserved1[1] && s[off + 3] == b.reserved1[2]);
    assert([s[off + 1], s[off + 2], s[off + 3]] =~= b.reserved1);
    assert(s.subrange(off + 4, off + 8) =~= le_bytes_u32(b.data_block_nr));
    lemma_u32_field(s, off + 4, b.data_block_nr);
    if b.flags & 1 != 0 {
        assert(s.subrange(off + 8, off + 16) =~= le_bytes_u64(b.data_block_len.unwrap()));
        lemma_u64_field(s, off + 8, b.data_block_len.unwrap());
    } else {
        let o = b.offsets.unwrap();
        assert(s.subrange(off + 8, off + 8 + 8 * o.len()) =~= u64s_bytes(o));
        lemma_u64s_read_back(s, off + 8, o);
    }
}

/// Writing a consistent data list and reading the bytes back gives the same
/// data list.
pub proof fn lemma_dl_roundtrip(b: DataListView)
    requires
        dl_consistent(b),
    ensures
        spec_dl_to_bytes(b) is Ok,
        spec_read_dl(spec_dl_to_bytes(b).unwrap()) == Ok::<DataListView, MdfError>(b),
{
    lemma_dl_bytes_fields(b);
    let s = spec_dl_to_bytes(b).unwrap();
    assert(spec_read_header_expecting(s, ID_DL) == Ok::<BlockHeader, MdfError>(b.header));
    let r = spec_read_dl(s).unwrap();
    assert(spec_read_dl(s) is Ok);
    assert(r =~= b);
}

} // verus!
