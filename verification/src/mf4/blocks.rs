//! Block layouts of the MDF4 format.

pub mod header;
pub mod channel_group_block;
pub mod channel_block;
pub mod data_block;
pub mod compressed_data_block;
pub mod data_list_block;
pub mod history_list_block;
pub mod metadata_block;
pub mod source_block;
pub mod data_group_block;
pub mod text_block;
pub mod identification_block;
pub mod conversion;
