//! Errors raised while reading MDF4 structures.

use vstd::prelude::*;

verus! {

/// Which block id(s) a reader accepted at the place where another id was found.
#[derive(Debug, Clone, Copy, PartialEq, Eq)]
pub enum ExpectedBlock {
    /// Exactly this 4-byte id.
    One([u8; 4]),
    /// `##DT` or `##DV` (an uncompressed data fragment).
    PlainData,
    /// `##DT`, `##DV`, `##DZ`, `##DL` or `##HL` (a data group's data link).
    DataChain,
    /// `##HL`, `##DL`, `##SD` or `##DZ` (a VLSD channel's data link).
    SignalChain,
    /// `##TX` or `##MD` (a text or metadata block).
    Text,
    /// Any id that is valid UTF-8 (these four bytes are not).
    AsciiId,
}

/// What was wrong with a block's declared layout or payload.
#[derive(Debug, Clone, Copy, PartialEq, Eq, Structural)]
pub enum LayoutProblem {
    /// A block written out does not carry the id its kind requires.
    WrongId,
    /// A block written out declares a length other than the one its fields need.
    BlockLenMismatch { header: u64, actual: u64 },
    /// A data list declares a link count other than its links.
    LinksNrMismatch { header: u64, actual: u64 },
    /// A data list without even its `next` link.
    NoLinks,
    /// The zlib stream of a `##DZ` block could not be inflated.
    InflateFailed,
    /// A `##DZ` block inflated to another length than it declares.
    InflatedLengthMismatch { inflated: u64, declared: u64 },
    /// A `##DZ` block with a zip type other than 0 (deflate) or 1 (transpose + deflate).
    UnsupportedZipType(u8),
    /// A data group with a record id whose records interleave several channel groups.
    UnsortedDataGroup,
    /// A channel block with fewer than its eight fixed links.
    TooFewChannelLinks(u64),
}

/// A link chain that returns to an address it has already visited.
#[derive(Debug, Clone, Copy, PartialEq, Eq, Structural)]
pub enum ChainKind {
    DataGroups,
    ChannelGroups,
    Channels,
    DataBlocks,
    SignalData,
}

/// Errors raised while reading MDF4 structures.
#[allow(inconsistent_fields)]
#[derive(Debug, Clone, Copy, PartialEq, Eq)]
pub enum MdfError {
    /// The bytes end before the structure being read does.
    TooShortBuffer { actual: usize, expected: usize },
    /// The file does not start with `"MDF     "`; holds the 8 bytes found.
    FileIdentifierError([u8; 8]),
    /// The file's version number is below 4.10; holds the number found.
    FileVersioningError(u16),
    /// A block carries another id than the reader accepts there.
    BlockIDError { actual: [u8; 4], expected: ExpectedBlock },
    /// A link chain revisits an address.
    BlockLinkError { chain: ChainKind, address: u64 },
    /// A block's declared layout or payload is inconsistent.
    BlockSerializationError(LayoutProblem),
}

} // verus!

verus! {

/// A result with its success value taken by its view.
pub open spec fn view_result<T: View>(r: Result<T, MdfError>) -> Result<T::V, MdfError> {
    match r {
        Ok(v) => Ok(v@),
        Err(e) => Err(e),
    }
}

} // verus!

verus! {

/// Prepends the items already read to the rest of a walk's result.
pub open spec fn prepend<T>(done: Seq<T>, rest: Result<Seq<T>, MdfError>) -> Result<Seq<T>, MdfError> {
    match rest {
        Ok(r) => Ok(done + r),
        Err(e) => Err(e),
    }
}

} // verus!
