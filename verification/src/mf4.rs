//! ASAM MDF4 (`.mf4`) reading: block layouts, the data-block chains of a
//! data group, record framing and sample decoding, and a small high-level
//! API over channel groups.

pub mod api;
pub mod blocks;
pub mod convert;
pub mod error;
pub mod links;
pub mod parsing;
