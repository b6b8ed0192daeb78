//! A secure virtual block device core: the logical-to-host block indirection
//! engine, its validity bitmap and segment table, the write-back data buffer,
//! and the garbage-collection planner that sit between a block I/O surface and
//! an untrusted host disk.
//!
//! The library is free of I/O: every operation that needs the host disk, the
//! index or the cipher hands the caller a plan of plain values and takes the
//! outcome back as plain values.
pub mod alloc_laws;
pub mod bio;
pub mod bitmap;
pub mod block_alloc;
pub mod codec;
pub mod config;
pub mod cost_stats;
pub mod data_buf;
pub mod dealloc_block;
pub mod diff_log;
pub mod error;
pub mod gc;
pub mod gc_worker;
pub mod index_model;
pub mod inner;
pub mod runs;
pub mod segment;
pub mod sworndisk;
pub mod waf_stats;

pub use bitmap::BitMap;
pub use config::{Config, ConfigCell};
pub use cost_stats::{CostL2, CostL2Stats, CostL2Type, CostL3, CostL3Stats, CostL3Type, CostTimer};
pub use error::{Errno, Error};
pub use sworndisk::SwornDisk;
pub use waf_stats::WafStats;
