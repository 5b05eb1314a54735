//! What a finished flush or compaction reports about the file it wrote.

use vstd::prelude::*;

verus! {

/// The description of one new file, as the levels take it in.
#[derive(Debug, Clone, Copy)]
pub struct CompactMeta {
    pub file_id: u64,
    pub file_size: u64,
    pub ts_min: i64,
    pub ts_max: i64,
    pub is_delta: bool,
}

} // verus!
