//! Rows on a block device.

pub mod block_allocator;
pub mod disk_client;
pub mod row_codec;
pub mod scratch_run;
