//! Options of a time-series family.

use vstd::prelude::*;
use vstd::string::StringExecFns;

verus! {

/// What a time-series family is configured with.
#[derive(Debug, Clone)]
pub struct TseriesFamOpt {
    /// Byte budget of one memory cache: a cache that has reached it is
    /// rotated.
    pub max_memcache_size: u64,
    /// Number of frozen caches at which they are handed to the flush
    /// pipeline.
    pub max_immemcache_num: usize,
    /// Directory of the main files.
    pub tsm_dir: String,
    /// Directory of the files of late samples.
    pub delta_dir: String,
}

impl Default for TseriesFamOpt {
    /// 128 MiB per cache, four frozen caches, files under `db/`.
    fn default() -> (r: Self)
        ensures
            r.max_memcache_size == 128 * 1024 * 1024,
            r.max_immemcache_num == 4,
            r.tsm_dir@ == "db/tsm"@,
            r.delta_dir@ == "db/delta"@,
    {
        TseriesFamOpt {
            max_memcache_size: 128 * 1024 * 1024,
            max_immemcache_num: 4,
            tsm_dir: String::from_str("db/tsm"),
            delta_dir: String::from_str("db/delta"),
        }
    }
}

} // verus!
