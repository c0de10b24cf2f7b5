//! High-level access to a parsed file: its channel groups and channels,
//! found by position or by name, without decoding any samples.

pub mod channel;
pub mod channel_group;
pub mod mdf;
