//! Write path and in-memory tier of a time-series storage engine.
//!
//! A time-series family buffers incoming samples in memory caches, keeps
//! late samples apart from in-order ones, freezes full caches, hands frozen
//! caches to the flush pipeline and describes the files that flushing
//! leaves on disk. Every function of this crate is verified against the
//! contract written on it.
//!
//! * [`memcache`] holds samples, the buffer of a field and the cache of a
//!   family; [`cells`] and [`sort`] hold what is said and done with
//!   sequences of samples.
//! * [`tseries_family`] holds time ranges, files, tiers, versions and the
//!   family itself, which routes samples and rotates caches.
//! * [`tsm`] holds the blocks that caches are turned into, and their merge.
//! * [`byte_utils`] and [`file_utils`] decode scalars and name files.
//!
//! The modules `memcache::model`, `tseries_family::model` and `tsm::merge`
//! state what the operations make of their data and prove what holds of
//! them whatever is done.

pub mod byte_utils;
pub mod cells;
pub mod compaction;
pub mod error;
pub mod file_utils;
pub mod kv_option;
pub mod memcache;
pub mod models;
pub mod sort;
pub mod summary;
pub mod tseries_family;
pub mod tsm;
