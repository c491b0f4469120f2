//! A durable, append-only record store: the record line format, the scan of
//! a log's bytes, id recovery, append framing and compaction. The bytes
//! themselves are read and written by the caller.
pub mod digits;
pub mod error;
pub mod laws;
pub mod record;
pub mod store;

pub use error::WalError;
pub use record::{decode_line, encode_line, LogEntry};
pub use store::{compact, frame_records, read_records, recover_next_id, LogState, ReadMode};
