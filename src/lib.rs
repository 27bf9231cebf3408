//! An embeddable key-value store kept as an append-only log of framed,
//! checksummed records, with an index from each key to its latest record.
use vstd::prelude::*;

pub mod codec;
pub mod compaction;
pub mod db;
pub mod error;
pub mod index;
pub mod log;
pub mod lz77;

pub use codec::{decode_buffer, Compressor, DataEntry, EntryType, Lz77};
pub use db::{DatabaseConfig, MyDatabase};
pub use error::DatabaseError;
pub use log::{IndexEntry, LogIter, LogRecord};
pub use lz77::{lz77_decode, lz77_encode};
