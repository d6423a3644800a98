//! An embedded key-value store built around a leveled log-structured
//! merge tree: a write-ahead log of framed write batches, an in-memory
//! table, sorted string tables with prefix-compressed blocks, and a
//! manifest that names the live file set.
pub mod checksum;
pub mod comparator;
pub mod coding;
pub mod data_block;
pub mod db;
pub mod entry;
pub mod key_value;
pub mod error;
pub mod manifest;
pub mod mem_table;
pub mod merger;
pub mod paths;
pub mod sst;
pub mod wal;
pub mod write_batch;

pub use comparator::{Comparator, DefaultComparator};
pub use db::DBOptions;
pub use entry::Entry;
pub use error::{EikvError, EikvResult};
pub use key_value::{Key, Value};
pub use sst::{Compressor, Filter, FilterFactory};
pub use write_batch::WriteBatch;
