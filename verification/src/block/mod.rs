//! Blocks of the file system and the transfer of bytes between them.
pub mod insert_helpers;
pub mod allocator_block;
pub mod shadowd_block;
pub mod base_sheet_shadowd_block;
pub mod shadowd_dispatcher;
