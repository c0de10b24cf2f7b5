//! Record framing, data-block chains and sample decoding.

pub mod decoder;
pub mod raw_channel;
pub mod raw_channel_group;
pub mod raw_data_group;
pub mod mdf_file;
