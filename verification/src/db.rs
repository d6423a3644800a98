//! Tuning knobs of the store, and the pure decisions of the engine's
//! write path and background work.
use vstd::prelude::*;

verus! {

/// The options a store is opened with.
#[derive(Clone, Copy)]
pub struct DBOptions {
    /// Target byte size of one data block; a multiple of eight.
    pub block_size: usize,
    /// Create the directory tree when the path does not exist yet.
    pub create_if_missing: bool,
    /// Every how many entries a data block stores a full key.
    pub restart_interval: usize,
    /// Rotate the log and freeze the table past this many bytes.
    pub wal_size_limit: u64,
}

impl Default for DBOptions {
    /// 4 KiB blocks, a full key every 16 entries, 2 MiB log rotation.
    fn default() -> (r: DBOptions)
        ensures
            r.block_size == 4096,
            r.create_if_missing == true,
            r.restart_interval == 16,
            r.wal_size_limit == 2 * 1024 * 1024,
    {
        DBOptions {
            block_size: 4096,
            create_if_missing: true,
            restart_interval: 16,
            wal_size_limit: 2 * 1024 * 1024,
        }
    }
}

/// The write path's rotation decision: the log is rotated and the table
/// frozen exactly when the appended log has grown past the limit.
pub fn wal_full(file_offset: u64, wal_size_limit: u64) -> (r: bool)
    ensures
        r == (file_offset > wal_size_limit),
{
    file_offset > wal_size_limit
}

} // verus!
