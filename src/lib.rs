//! A local, append-only write-ahead log: a block-structured record format,
//! fragmentation of payloads across fixed-size blocks, and the bookkeeping of
//! segments and sequence numbers.

pub mod error;
pub mod record;
pub mod block;
pub mod manager;
pub mod wal;

pub use block::{Block, BLOCK_SIZE};
pub use error::Error;
pub use manager::{segment_file_name, WALManager};
pub use record::{
    Record, HEADER_SIZE, R_KIND_FIRST, R_KIND_FULL, R_KIND_LAST, R_KIND_MIDDLE, R_KIND_ZERO,
};
pub use wal::{
    scan_segment, LocalFileWALImpl, LocalWAL, LocalWALEntry, Options, WALWritableFile,
    WritableLogFile,
};
