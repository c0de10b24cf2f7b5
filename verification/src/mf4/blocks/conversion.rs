//! CCBLOCK: how a channel's raw values convert to physical ones.
//!
//! The block is read with its links and parameters; an algebraic conversion
//! also carries the formula text that its first reference points at.

use vstd::prelude::*;
use crate::bytes::{le_u16_at, le_u64_at, read_u16_le, read_u64_le};
use crate::mf4::blocks::header::{BlockHeader, ID_CC, spec_read_header_expecting};
use crate::mf4::blocks::channel_block::clamp_usize;
use crate::mf4::blocks::data_list_block::{le_u64s, read_u64s};
use crate::mf4::blocks::text_block::{read_string_block, spec_read_text, text_view};
use crate::mf4::error::MdfError;

verus! {

/// The kind of a conversion (`cc_type`).
#[derive(Debug, Clone, Copy, PartialEq, Eq, Structural)]
pub enum ConversionType {
    /// 0: the physical value is the raw value.
    Identity,
    /// 1: `a * x + b`.
    Linear,
    /// 2: a quotient of two quadratics.
    Rational,
    /// 3: a formula given as text.
    Algebraic,
    /// 4: table lookup with interpolation.
    TableLookupInterp,
    /// 5: table lookup without interpolation.
    TableLookupNoInterp,
    /// 6: lookup of value ranges.
    RangeLookup,
    /// 7: value to text.
    ValueToText,
    /// 8: value range to text.
    RangeToText,
    /// 9: text to value.
    TextToValue,
    /// 10: text to text.
    TextToText,
    /// 11: bit groups to text.
    BitfieldText,
    /// Any other code.
    Unknown(u8),
}

/// The conversion kind a `cc_type` byte names.
pub open spec fn spec_conversion_type(code: u8) -> ConversionType {
    if code == 0 {
        ConversionType::Identity
    } else if code == 1 {
        ConversionType::Linear
    } else if code == 2 {
        ConversionType::Rational
    } else if code == 3 {
        ConversionType::Algebraic
    } else if code == 4 {
        ConversionType::TableLookupInterp
    } else if code == 5 {
        ConversionType::TableLookupNoInterp
    } else if code == 6 {
        ConversionType::RangeLookup
    } else if code == 7 {
        ConversionType::ValueToText
    } else if code == 8 {
        ConversionType::RangeToText
    } else if code == 9 {
        ConversionType::TextToValue
    } else if code == 10 {
        ConversionType::TextToText
    } else if code == 11 {
        ConversionType::BitfieldText
    } else {
        ConversionType::Unknown(code)
    }
}

impl ConversionType {
    /// The conversion kind a `cc_type` byte names.
    pub fn from_u8(code: u8) -> (t: ConversionType)
        ensures
            t == spec_conversion_type(code),
    {
        match code {
            0 => ConversionType::Identity,
            1 => ConversionType::Linear,
            2 => ConversionType::Rational,
            3 => ConversionType::Algebraic,
            4 => ConversionType::TableLookupInterp,
            5 => ConversionType::TableLookupNoInterp,
            6 => ConversionType::RangeLookup,
            7 => ConversionType::ValueToText,
            8 => ConversionType::RangeToText,
            9 => ConversionType::TextToValue,
            10 => ConversionType::TextToText,
            11 => ConversionType::BitfieldText,
            _ => ConversionType::Unknown(code),
        }
    }
}

/// A channel conversion block. Links that are NIL are `None`. The physical
/// range and the parameters `cc_val` are IEEE 754 doubles, kept here as
/// their bit patterns.
#[derive(Debug, Clone)]
pub struct ConversionBlock {
    pub header: BlockHeader,
    pub cc_tx_name: Option<u64>,
    pub cc_md_unit: Option<u64>,
    pub cc_md_comment: Option<u64>,
    pub cc_cc_inverse: Option<u64>,
    pub cc_ref: Vec<u64>,
    pub cc_type: ConversionType,
    pub cc_precision: u8,
    pub cc_flags: u16,
    pub cc_ref_count: u16,
    pub cc_val_count: u16,
    pub cc_phy_range_min: u64,
    pub cc_phy_range_max: u64,
    pub cc_val: Vec<u64>,
    pub formula: Option<String>,
}

/// Link `i` of a block at `s` with `links_nr` links, unless it is missing or NIL.
pub open spec fn opt_link(s: Seq<u8>, links_nr: u64, i: int) -> Option<u64> {
    if i < links_nr && le_u64_at(s, 24 + 8 * i) != 0 {
        Some(le_u64_at(s, 24 + 8 * i))
    } else {
        None
    }
}

/// The links after the four fixed ones.
pub open spec fn cc_refs(s: Seq<u8>, links_nr: u64) -> Seq<u64> {
    if links_nr > 4 {
        le_u64s(s, 56, (links_nr - 4) as nat)
    } else {
        Seq::empty()
    }
}

/// A conversion block as read: every field by its plain value, the
/// formula text by its characters.
pub struct ConversionView {
    pub header: BlockHeader,
    pub cc_tx_name: Option<u64>,
    pub cc_md_unit: Option<u64>,
    pub cc_md_comment: Option<u64>,
    pub cc_cc_inverse: Option<u64>,
    pub cc_ref: Seq<u64>,
    pub cc_type: ConversionType,
    pub cc_precision: u8,
    pub cc_flags: u16,
    pub cc_ref_count: u16,
    pub cc_val_count: u16,
    pub cc_phy_range_min: u64,
    pub cc_phy_range_max: u64,
    pub cc_val: Seq<u64>,
    pub formula: Option<Seq<char>>,
}

/// A text option taken by its characters.
pub open spec fn opt_text(o: Option<String>) -> Option<Seq<char>> {
    match o {
        Some(t) => Some(t@),
        None => None,
    }
}

impl View for ConversionBlock {
    type V = ConversionView;

    open spec fn view(&self) -> ConversionView {
        ConversionView {
            header: self.header,
            cc_tx_name: self.cc_tx_name,
            cc_md_unit: self.cc_md_unit,
            cc_md_comment: self.cc_md_comment,
            cc_cc_inverse: self.cc_cc_inverse,
            cc_ref: self.cc_ref@,
            cc_type: self.cc_type,
            cc_precision: self.cc_precision,
            cc_flags: self.cc_flags,
            cc_ref_count: self.cc_ref_count,
            cc_val_count: self.cc_val_count,
            cc_phy_range_min: self.cc_phy_range_min,
            cc_phy_range_max: self.cc_phy_range_max,
            cc_val: self.cc_val@,
            formula: opt_text(self.formula),
        }
    }
}

/// Reading a conversion block: a `##CC` header, its links, the 24 bytes of
/// fixed parameters (type, precision, flags, reference and value counts,
/// physical range), then `cc_val_count` values. No formula is read yet.
pub open spec fn spec_read_cc(s: Seq<u8>) -> Result<ConversionView, MdfError> {
    match spec_read_header_expecting(s, ID_CC) {
        Err(e) => Err(e),
        Ok(h) => {
            let d = 24 + 8 * h.links_nr;
            if s.len() < d + 24 {
                Err(MdfError::TooShortBuffer { actual: s.len() as usize, expected: clamp_usize(d + 24) })
            } else {
                let val_count = le_u16_at(s, d + 6);
                if s.len() < d + 24 + 8 * val_count {
                    Err(
                        MdfError::TooShortBuffer {
                            actual: s.len() as usize,
                            expected: clamp_usize(d + 24 + 8 * val_count),
                        },
                    )
                } else {
                    Ok(
                        ConversionView {
                            header: h,
                            cc_tx_name: opt_link(s, h.links_nr, 0),
                            cc_md_unit: opt_link(s, h.links_nr, 1),
                            cc_md_comment: opt_link(s, h.links_nr, 2),
                            cc_cc_inverse: opt_link(s, h.links_nr, 3),
                            cc_ref: cc_refs(s, h.links_nr),
                            cc_type: spec_conversion_type(s[d]),
                            cc_precision: s[d + 1],
                            cc_flags: le_u16_at(s, d + 2),
                            cc_ref_count: le_u16_at(s, d + 4),
                            cc_val_count: val_count,
                            cc_phy_range_min: le_u64_at(s, d + 8),
                            cc_phy_range_max: le_u64_at(s, d + 16),
                            cc_val: le_u64s(s, d + 24, val_count as nat),
                            formula: None,
                        },
                    )
                }
            }
        },
    }
}

/// Reads link `i`, unless it is missing or NIL.
fn read_opt_link(bytes: &[u8], links_nr: u64, i: usize) -> (r: Option<u64>)
    requires
        i < 4,
        24 + 8 * links_nr <= bytes.len(),
    ensures
        r == opt_link(bytes@, links_nr, i as int),
{
    if (i as u64) < links_nr {
        let v = read_u64_le(bytes, 24 + 8 * i);
        if v != 0 {
            Some(v)
        } else {
            None
        }
    } else {
        None
    }
}

impl ConversionBlock {
    /// Reads a conversion block from the start of `bytes`, without its formula.
    pub fn from_bytes(bytes: &[u8]) -> (res: Result<ConversionBlock, MdfError>)
        ensures
            crate::mf4::error::view_result(res) == spec_read_cc(bytes@),
    {
        let header = BlockHeader::parse_expecting(bytes, ID_CC)?;
        let fixed_end: u128 = 48 + 8 * (header.links_nr as u128);
        if (bytes.len() as u128) < fixed_end {
            let expected = if fixed_end > usize::MAX as u128 {
                usize::MAX
            } else {
                fixed_end as usize
            };
            return Err(MdfError::TooShortBuffer { actual: bytes.len(), expected });
        }
        let link_count = header.links_nr as usize;
        let d = 24 + 8 * link_count;
        let cc_val_count = read_u16_le(bytes, d + 6);
        if bytes.len() - (d + 24) < 8 * (cc_val_count as usize) {
            let needed: u128 = d as u128 + 24 + 8 * (cc_val_count as u128);
            let expected = if needed > usize::MAX as u128 {
                usize::MAX
            } else {
                needed as usize
            };
            return Err(MdfError::TooShortBuffer { actual: bytes.len(), expected });
        }
        let cc_tx_name = read_opt_link(bytes, header.links_nr, 0);
        let cc_md_unit = read_opt_link(bytes, header.links_nr, 1);
        let cc_md_comment = read_opt_link(bytes, header.links_nr, 2);
        let cc_cc_inverse = read_opt_link(bytes, header.links_nr, 3);
        let cc_ref = if link_count > 4 {
            read_u64s(bytes, 56, link_count - 4)
        } else {
            Vec::new()
        };
        let block = ConversionBlock {
            header,
            cc_tx_name,
            cc_md_unit,
            cc_md_comment,
            cc_cc_inverse,
            cc_ref,
            cc_type: ConversionType::from_u8(bytes[d]),
            cc_precision: bytes[d + 1],
            cc_flags: read_u16_le(bytes, d + 2),
            cc_ref_count: read_u16_le(bytes, d + 4),
            cc_val_count,
            cc_phy_range_min: read_u64_le(bytes, d + 8),
            cc_phy_range_max: read_u64_le(bytes, d + 16),
            cc_val: read_u64s(bytes, d + 24, cc_val_count as usize),
            formula: None,
        };
        proof {
            assert(block@.cc_ref =~= spec_read_cc(bytes@).unwrap().cc_ref);
        }
        Ok(block)
    }
}

/// Whether a conversion's formula is to be looked up: an algebraic
/// conversion with at least one reference.
pub open spec fn wants_formula(c: ConversionView) -> bool {
    c.cc_type == ConversionType::Algebraic && c.cc_ref.len() > 0
}

impl ConversionBlock {
    /// Resolves and stores the algebraic formula referenced by this block.
    ///
    /// Only an algebraic conversion with at least one reference reads
    /// anything: the text its first reference points at. A NIL reference
    /// leaves the formula as it was; a read that fails is returned and
    /// leaves the block unchanged.
    pub fn resolve_formula(&mut self, file_data: &[u8]) -> (res: Result<(), MdfError>)
        ensures
            !wants_formula(old(self)@) ==> res is Ok && final(self)@ == old(self)@,
            wants_formula(old(self)@) ==> match spec_read_text(file_data@, old(self)@.cc_ref[0]) {
                Err(e) => res == Err::<(), MdfError>(e) && final(self)@ == old(self)@,
                Ok(None) => res is Ok && final(self)@ == old(self)@,
                Ok(Some(t)) => res is Ok && final(self)@ == ConversionView {
                    formula: Some(t),
                    ..old(self)@
                },
            },
    {
        if self.cc_type != ConversionType::Algebraic || self.cc_ref.len() == 0 {
            return Ok(());
        }
        let addr = self.cc_ref[0];
        let text = read_string_block(file_data, addr);
        proof {
            assert(text_view(text) == spec_read_text(file_data@, addr));
        }
        match text {
            Err(e) => Err(e),
            Ok(None) => Ok(()),
            Ok(Some(formula)) => {
                self.formula = Some(formula);
                Ok(())
            },
        }
    }
}

} // verus!
