//! A write-ahead log that packs byte payloads into checksummed records laid
//! out in fixed-size blocks, and a key-value engine that rebuilds its
//! in-memory table by replaying that log.

pub mod db;
pub mod entry;
pub mod error;
pub mod log_file;
pub mod memtable;
pub mod record;
pub mod recovery;
pub mod sstable;
pub mod varint;

pub use db::RevelDB;
pub use entry::{decode_entry, encode_entry};
pub use error::LogError;
pub use log_file::LogFile;
pub use memtable::MemTable;
pub use record::{Record, RecordType, LOG_BLOCK_SIZE, LOG_RECORD_HEADER_SIZE};
pub use sstable::BlockHandle;
pub use varint::read_varint;
