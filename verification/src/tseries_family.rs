//! Time ranges, file and level metadata, and the time-series family.

pub mod model;

use vstd::prelude::*;
use crate::compaction::{flush_req_views, FlushReq, FlushReqView};
use crate::error::Error;
use crate::file_utils::{
    file_name, make_delta_file_name, make_tsm_file_name, make_tsm_tombstone_file_name,
};
use crate::kv_option::TseriesFamOpt;
use crate::memcache::{MemCache, MemCacheView};
use crate::models::{FieldId, Timestamp, ValueType};
use crate::summary::CompactMeta;

pub use model::{ColumnFileView, LevelInfoView, Put, TseriesFamilyView};
use model::{lemma_live_size_remove, lemma_live_size_same};

verus! {

/// Identifier of one file on disk.
pub type ColumnFileId = u64;

/// Identifier of one time-series family.
pub type TseriesFamilyId = u32;

/// Identifier of one version of the file set.
pub type VersionId = u64;

/// Bytes of the membership filter that a file carries over its field
/// ids: 512 bits.
pub const BLOOM_FILTER_SIZE: usize = 64;

/// A closed interval of timestamps, `min_ts ..= max_ts`.
#[derive(Debug, Clone, Copy)]
pub struct TimeRange {
    pub max_ts: i64,
    pub min_ts: i64,
}

impl TimeRange {
    pub fn new(max_ts: i64, min_ts: i64) -> (r: Self)
        ensures
            r.max_ts == max_ts,
            r.min_ts == min_ts,
    {
        Self { max_ts, min_ts }
    }

    /// Whether timestamp `ts` lies inside the range, both ends included.
    pub open spec fn contains(&self, ts: i64) -> bool {
        self.min_ts <= ts && ts <= self.max_ts
    }

    /// Two ranges overlap when neither lies wholly before the other.
    pub open spec fn spec_overlaps(&self, range: &TimeRange) -> bool {
        self.min_ts <= range.max_ts && self.max_ts >= range.min_ts
    }

    #[verifier::when_used_as_spec(spec_overlaps)]
    pub fn overlaps(&self, range: &TimeRange) -> (r: bool)
        ensures
            r == self.spec_overlaps(range),
    {
        !(self.min_ts > range.max_ts || self.max_ts < range.min_ts)
    }

    /// Overlap does not depend on the order of the two ranges.
    pub proof fn lemma_overlaps_symmetric(a: TimeRange, b: TimeRange)
        ensures
            a.spec_overlaps(&b) == b.spec_overlaps(&a),
    {
    }

    /// Two well-ordered ranges overlap exactly when they share a timestamp.
    pub proof fn lemma_overlaps_shares_timestamp(a: TimeRange, b: TimeRange)
        requires
            a.min_ts <= a.max_ts,
            b.min_ts <= b.max_ts,
        ensures
            a.spec_overlaps(&b) <==> exists|ts: i64| #[trigger] a.contains(ts) && b.contains(ts),
    {
        if a.spec_overlaps(&b) {
            let ts = if a.min_ts >= b.min_ts { a.min_ts } else { b.min_ts };
            assert(a.contains(ts) && b.contains(ts));
        }
    }
}

impl Default for TimeRange {
    fn default() -> (r: Self)
        ensures
            r.max_ts == 0,
            r.min_ts == 0,
    {
        TimeRange { max_ts: 0, min_ts: 0 }
    }
}

/// What is known of one file on disk.
#[derive(Debug)]
pub struct ColumnFile {
    file_id: ColumnFileId,
    being_compact: bool,
    deleted: bool,
    range: TimeRange,
    size: u64,
    field_id_bloom_filter: Vec<u8>,
    is_delta: bool,
}

impl View for ColumnFile {
    type V = ColumnFileView;

    closed spec fn view(&self) -> ColumnFileView {
        ColumnFileView {
            file_id: self.file_id,
            being_compact: self.being_compact,
            deleted: self.deleted,
            range: self.range,
            size: self.size,
            field_id_bloom_filter: self.field_id_bloom_filter@,
            is_delta: self.is_delta,
        }
    }
}

impl ColumnFile {
    /// The file that `delta` describes, neither deleted nor in compaction,
    /// with a membership filter that holds no field yet.
    pub fn new(delta: &CompactMeta) -> (r: Self)
        ensures
            r@ == LevelInfoView::new_file(*delta),
    {
        let mut filter: Vec<u8> = Vec::with_capacity(BLOOM_FILTER_SIZE);
        while filter.len() < BLOOM_FILTER_SIZE
            invariant
                filter.len() <= BLOOM_FILTER_SIZE,
                forall|i: int| 0 <= i < filter.len() ==> filter[i] == 0,
            decreases BLOOM_FILTER_SIZE - filter.len(),
        {
            filter.push(0);
        }
        assert(filter@ =~= Seq::new(BLOOM_FILTER_SIZE as nat, |i: int| 0u8));
        ColumnFile {
            file_id: delta.file_id,
            being_compact: false,
            deleted: false,
            range: TimeRange::new(delta.ts_max, delta.ts_min),
            size: delta.file_size,
            field_id_bloom_filter: filter,
            is_delta: delta.is_delta,
        }
    }

    pub fn file_id(&self) -> (id: ColumnFileId)
        ensures
            id == self@.file_id,
    {
        self.file_id
    }

    pub fn size(&self) -> (n: u64)
        ensures
            n == self@.size,
    {
        self.size
    }

    pub fn range(&self) -> (r: &TimeRange)
        ensures
            *r == self@.range,
    {
        &self.range
    }

    /// Whether the file holds late samples.
    pub fn is_delta(&self) -> (b: bool)
        ensures
            b == self@.is_delta,
    {
        self.is_delta
    }

    /// The bits of the membership filter over the field ids of the file.
    pub fn field_id_bloom_filter(&self) -> (bits: &[u8])
        ensures
            bits@ == self@.field_id_bloom_filter,
    {
        self.field_id_bloom_filter.as_slice()
    }

    /// Whether the time range of the file and `time_range` overlap.
    pub fn overlap(&self, time_range: &TimeRange) -> (b: bool)
        ensures
            b == self@.range.spec_overlaps(time_range),
    {
        self.range.overlaps(time_range)
    }

    pub fn is_deleted(&self) -> (b: bool)
        ensures
            b == self@.deleted,
    {
        self.deleted
    }

    /// Marks the file as deleted. There is no way back.
    pub fn mark_removed(&mut self)
        ensures
            final(self)@ == (ColumnFileView { deleted: true, ..old(self)@ }),
    {
        self.deleted = true;
    }

    /// Marks the file as taken by a compaction. There is no way back.
    pub fn mark_compaction(&mut self)
        ensures
            final(self)@ == (ColumnFileView { being_compact: true, ..old(self)@ }),
    {
        self.being_compact = true;
    }

    pub fn is_pending_compaction(&self) -> (b: bool)
        ensures
            b == self@.being_compact,
    {
        self.being_compact
    }

    /// The directory that holds the file: that of the late samples for a
    /// file of late samples, that of the main files otherwise.
    pub open spec fn spec_dir(&self, tsf_opt: &TseriesFamOpt) -> Seq<char> {
        if self@.is_delta {
            tsf_opt.delta_dir@
        } else {
            tsf_opt.tsm_dir@
        }
    }

    /// Where the file of family `tf_id` lies:
    /// `{dir}/{tf_id}/_{file_id:06}.delta` for a file of late samples,
    /// `{dir}/{tf_id}/_{file_id:06}.tsm` otherwise.
    pub fn file_path(&self, tsf_opt: &TseriesFamOpt, tf_id: u32) -> (path: String)
        ensures
            path@ == file_name(
                self.spec_dir(tsf_opt),
                tf_id,
                self@.file_id,
                if self@.is_delta {
                    "delta"@
                } else {
                    "tsm"@
                },
            ),
    {
        if self.is_delta {
            make_delta_file_name(tsf_opt.delta_dir.as_str(), tf_id, self.file_id)
        } else {
            make_tsm_file_name(tsf_opt.tsm_dir.as_str(), tf_id, self.file_id)
        }
    }

    /// Where the record of what was deleted from the file lies: beside
    /// the file, `{dir}/{tf_id}/_{file_id:06}.tombstone`.
    pub fn tombstone_file_path(&self, tsf_opt: &TseriesFamOpt, tf_id: u32) -> (path: String)
        ensures
            path@ == file_name(self.spec_dir(tsf_opt), tf_id, self@.file_id, "tombstone"@),
    {
        if self.is_delta {
            make_tsm_tombstone_file_name(tsf_opt.delta_dir.as_str(), tf_id, self.file_id)
        } else {
            make_tsm_tombstone_file_name(tsf_opt.tsm_dir.as_str(), tf_id, self.file_id)
        }
    }
}

/// The files of `files` as contracts speak of them.
pub open spec fn file_views(files: Seq<ColumnFile>) -> Seq<ColumnFileView> {
    files.map_values(|f: ColumnFile| f@)
}

/// One tier of files.
#[derive(Debug)]
pub struct LevelInfo {
    files: Vec<ColumnFile>,
    tsf_opt: TseriesFamOpt,
    level: u32,
    cur_size: u64,
    max_size: u64,
    ts_range: TimeRange,
}

impl View for LevelInfo {
    type V = LevelInfoView;

    closed spec fn view(&self) -> LevelInfoView {
        LevelInfoView {
            files: file_views(self.files@),
            tsf_opt: self.tsf_opt,
            level: self.level,
            cur_size: self.cur_size,
            max_size: self.max_size,
            ts_range: self.ts_range,
        }
    }
}

impl LevelInfo {
    /// The empty tier `level`, with the default options.
    pub fn init(level: u32) -> (r: Self)
        ensures
            r@.wf(),
            r@.files.len() == 0,
            r@.level == level,
            r@.cur_size == 0,
            r@.max_size == 0,
            r@.ts_range == (TimeRange { max_ts: 0, min_ts: 0 }),
            r@.tsf_opt.max_memcache_size == 128 * 1024 * 1024,
            r@.tsf_opt.max_immemcache_num == 4,
            r@.tsf_opt.tsm_dir@ == "db/tsm"@,
            r@.tsf_opt.delta_dir@ == "db/delta"@,
    {
        let r = Self {
            files: Vec::new(),
            tsf_opt: TseriesFamOpt::default(),
            level,
            cur_size: 0,
            max_size: 0,
            ts_range: TimeRange { max_ts: 0, min_ts: 0 },
        };
        assert(file_views(r.files@) =~= Seq::<ColumnFileView>::empty());
        r
    }

    /// Takes in the file that `delta` describes.
    pub fn apply(&mut self, delta: &CompactMeta)
        requires
            old(self)@.wf(),
            old(self)@.cur_size + delta.file_size <= u64::MAX,
        ensures
            final(self)@.wf(),
            final(self)@ == old(self)@.apply(*delta),
    {
        self.files.push(ColumnFile::new(delta));
        self.cur_size += delta.file_size;
        if self.ts_range.max_ts < delta.ts_max {
            self.ts_range.max_ts = delta.ts_max;
        }
        if self.ts_range.min_ts > delta.ts_min {
            self.ts_range.min_ts = delta.ts_min;
        }
        proof {
            let files = old(self)@.files.push(LevelInfoView::new_file(*delta));
            assert(file_views(self.files@) =~= files);
            assert(files.drop_last() =~= old(self)@.files);
        }
    }

    /// The positions of the files to read for `time_range`, in ascending
    /// order: those that are not deleted and whose range overlaps it.
    pub fn overlapping_files(&self, time_range: &TimeRange) -> (r: Vec<usize>)
        ensures
            forall|k: int| 0 <= k < r.len() ==> r[k] < self@.files.len() && self@.to_read(
                #[trigger] r[k] as int,
                *time_range,
            ),
            forall|k: int, m: int| 0 <= k < m < r.len() ==> r[k] < r[m],
            forall|i: int|
                0 <= i < self@.files.len() && #[trigger] self@.to_read(i, *time_range)
                    ==> r@.contains(i as usize),
    {
        let mut r: Vec<usize> = Vec::new();
        let mut i: usize = 0;
        while i < self.files.len()
            invariant
                i <= self.files.len(),
                forall|k: int| 0 <= k < r.len() ==> r[k] < i && self@.to_read(
                    #[trigger] r[k] as int,
                    *time_range,
                ),
                forall|k: int, m: int| 0 <= k < m < r.len() ==> r[k] < r[m],
                forall|j: int|
                    0 <= j < i && #[trigger] self@.to_read(j, *time_range) ==> r@.contains(
                        j as usize,
                    ),
            decreases self.files.len() - i,
        {
            let ghost before = r@;
            if !self.files[i].is_deleted() && self.files[i].overlap(time_range) {
                r.push(i);
                assert(r@[before.len() as int] == i);
            }
            proof {
                assert forall|j: int|
                    0 <= j < i + 1 && #[trigger] self@.to_read(j, *time_range) implies r@.contains(
                    j as usize,
                ) by {
                    if j < i {
                        let k = choose|k: int| 0 <= k < before.len() && before[k] == j as usize;
                        assert(r@[k] == j as usize);
                    }
                }
            }
            i += 1;
        }
        r
    }

    pub fn level(&self) -> (l: u32)
        ensures
            l == self@.level,
    {
        self.level
    }

    /// The files of the tier, oldest first.
    pub fn files(&self) -> (r: &Vec<ColumnFile>)
        ensures
            file_views(r@) == self@.files,
    {
        &self.files
    }

    /// Size of the files that are not deleted.
    pub fn cur_size(&self) -> (n: u64)
        ensures
            n == self@.cur_size,
    {
        self.cur_size
    }

    pub fn max_size(&self) -> (n: u64)
        ensures
            n == self@.max_size,
    {
        self.max_size
    }

    /// The time range that the files of the tier span.
    pub fn ts_range(&self) -> (r: &TimeRange)
        ensures
            *r == self@.ts_range,
    {
        &self.ts_range
    }

    pub fn tsf_opt(&self) -> (r: &TseriesFamOpt)
        ensures
            *r == self@.tsf_opt,
    {
        &self.tsf_opt
    }
}

impl LevelInfo {
    /// Marks the files of id `file_id` as deleted and takes their sizes
    /// off the size of the tier.
    pub fn mark_removed(&mut self, file_id: ColumnFileId)
        requires
            old(self)@.wf(),
        ensures
            final(self)@.wf(),
            final(self)@ == old(self)@.mark_removed(file_id),
    {
        let ghost before = self@;
        let mut i: usize = 0;
        while i < self.files.len()
            invariant
                i <= self.files.len(),
                before == old(self)@,
                self.files.len() == before.files.len(),
                self@.wf(),
                self@.tsf_opt == before.tsf_opt,
                self@.level == before.level,
                self@.max_size == before.max_size,
                self@.ts_range == before.ts_range,
                forall|j: int|
                    0 <= j < i ==> #[trigger] self@.files[j] == before.removed_files(file_id)[j],
                forall|j: int|
                    i <= j < self.files.len() ==> #[trigger] self@.files[j] == before.files[j],
            decreases self.files.len() - i,
        {
            let ghost files = self@.files;
            assert(files[i as int] == self.files@[i as int]@);
            if self.files[i].file_id() == file_id {
                proof {
                    lemma_live_size_remove(files, i as int);
                }
                if !self.files[i].is_deleted() {
                    self.cur_size -= self.files[i].size();
                }
                self.files[i].mark_removed();
                assert(file_views(self.files@) =~= files.update(
                    i as int,
                    ColumnFileView { deleted: true, ..files[i as int] },
                ));
            }
            i += 1;
        }
        assert(self@.files =~= before.removed_files(file_id));
    }

    /// Marks the files of id `file_id` as taken by a compaction.
    pub fn mark_compaction(&mut self, file_id: ColumnFileId)
        requires
            old(self)@.wf(),
        ensures
            final(self)@.wf(),
            final(self)@ == old(self)@.mark_compaction(file_id),
    {
        let ghost before = self@;
        let mut i: usize = 0;
        while i < self.files.len()
            invariant
                i <= self.files.len(),
                before == old(self)@,
                self.files.len() == before.files.len(),
                self@.tsf_opt == before.tsf_opt,
                self@.level == before.level,
                self@.cur_size == before.cur_size,
                self@.max_size == before.max_size,
                self@.ts_range == before.ts_range,
                forall|j: int|
                    0 <= j < i ==> #[trigger] self@.files[j] == before.mark_compaction(
                        file_id,
                    ).files[j],
                forall|j: int|
                    i <= j < self.files.len() ==> #[trigger] self@.files[j] == before.files[j],
            decreases self.files.len() - i,
        {
            let ghost files = self@.files;
            assert(files[i as int] == self.files@[i as int]@);
            if self.files[i].file_id() == file_id {
                self.files[i].mark_compaction();
                assert(file_views(self.files@) =~= files.update(
                    i as int,
                    ColumnFileView { being_compact: true, ..files[i as int] },
                ));
            }
            i += 1;
        }
        proof {
            assert(self@.files =~= before.mark_compaction(file_id).files);
            lemma_live_size_same(before.files, self@.files);
        }
    }
}

/// One version of the file set of a family: its tiers and how far they
/// reach in time and in the log.
#[derive(Debug)]
pub struct Version {
    pub id: VersionId,
    pub last_seq: u64,
    /// The greatest timestamp that has been handed over to the tiers.
    pub max_level_ts: i64,
    pub name: String,
    pub levels_info: Vec<LevelInfo>,
}

impl Version {
    pub fn new(
        id: VersionId,
        last_seq: u64,
        name: String,
        levels_info: Vec<LevelInfo>,
        max_level_ts: i64,
    ) -> (r: Self)
        ensures
            r.id == id,
            r.last_seq == last_seq,
            r.name == name,
            r.levels_info == levels_info,
            r.max_level_ts == max_level_ts,
    {
        Self { id, last_seq, name, levels_info, max_level_ts }
    }

    pub fn get_name(&self) -> (r: &str)
        ensures
            r@ == self.name@,
    {
        self.name.as_str()
    }

    pub fn levels_info(&self) -> (r: &Vec<LevelInfo>)
        ensures
            *r == self.levels_info,
    {
        &self.levels_info
    }

    /// The files of tier `level` that a compaction over `ts_min ..=
    /// ts_max` is to take. Compactions are planned outside the version,
    /// which names no file of its own accord.
    pub fn get_ts_overlap(&self, level: u32, ts_min: i64, ts_max: i64) -> (r: Vec<ColumnFileId>)
        ensures
            r@.len() == 0,
    {
        Vec::new()
    }

    /// The version with `ts` as the greatest timestamp handed over.
    pub open spec fn with_max_level_ts(self, ts: i64) -> Version {
        Version { max_level_ts: ts, ..self }
    }
}

/// The caches of `caches` as contracts speak of them.
pub open spec fn cache_views(caches: Seq<MemCache>) -> Seq<MemCacheView> {
    caches.map_values(|c: MemCache| c@)
}

/// What a reader sees of a family at one moment: its caches, its version
/// and its options, all of the same state. It holds the family borrowed,
/// so the family cannot change while a reader looks.
pub struct SuperVersion<'a> {
    pub id: u32,
    pub delta_mut_cache: &'a MemCache,
    pub mut_cache: &'a MemCache,
    pub immut_cache: &'a Vec<MemCache>,
    pub cur_version: &'a Version,
    pub opt: &'a TseriesFamOpt,
    pub version_id: u64,
}

impl<'a> SuperVersion<'a> {
    pub fn new(
        id: u32,
        delta_mut_cache: &'a MemCache,
        mut_cache: &'a MemCache,
        immut_cache: &'a Vec<MemCache>,
        cur_version: &'a Version,
        opt: &'a TseriesFamOpt,
        version_id: u64,
    ) -> (r: Self)
        ensures
            r.id == id,
            r.delta_mut_cache == delta_mut_cache,
            r.mut_cache == mut_cache,
            r.immut_cache == immut_cache,
            r.cur_version == cur_version,
            r.opt == opt,
            r.version_id == version_id,
    {
        Self { id, delta_mut_cache, mut_cache, immut_cache, cur_version, opt, version_id }
    }
}

/// One time-series family: the caches that take its samples, the frozen
/// caches that wait for the flush, and the version of its files.
pub struct TseriesFamily {
    tf_id: TseriesFamilyId,
    delta_mut_cache: MemCache,
    mut_cache: MemCache,
    immut_cache: Vec<MemCache>,
    super_version_id: u64,
    version: Version,
    opts: TseriesFamOpt,
    seq_no: u64,
    immut_ts_min: i64,
    mut_ts_max: i64,
}

impl View for TseriesFamily {
    type V = TseriesFamilyView;

    closed spec fn view(&self) -> TseriesFamilyView {
        TseriesFamilyView {
            tf_id: self.tf_id,
            delta_mut_cache: self.delta_mut_cache@,
            mut_cache: self.mut_cache@,
            immut_cache: cache_views(self.immut_cache@),
            super_version_id: self.super_version_id,
            version: self.version,
            opts: self.opts,
            seq_no: self.seq_no,
            immut_ts_min: self.immut_ts_min,
            mut_ts_max: self.mut_ts_max,
        }
    }
}

impl TseriesFamily {
    /// The family `tf_id` over `version`, with `cache` as its mutable
    /// cache.
    pub fn new(
        tf_id: TseriesFamilyId,
        name: String,
        cache: MemCache,
        version: Version,
        opt: TseriesFamOpt,
    ) -> (r: Self)
        requires
            cache@.wf(),
        ensures
            r@.wf(),
            r@ == TseriesFamilyView::new(tf_id, cache@, version, opt),
    {
        let seq = version.last_seq;
        let max_level_ts = version.max_level_ts;
        let delta = MemCache::new(tf_id, opt.max_memcache_size, seq, true);
        let r = Self {
            tf_id,
            seq_no: seq,
            delta_mut_cache: delta,
            mut_cache: cache,
            immut_cache: Vec::new(),
            super_version_id: 0,
            version,
            opts: opt,
            immut_ts_min: max_level_ts,
            mut_ts_max: i64::MIN,
        };
        assert(cache_views(r.immut_cache@) =~= Seq::<MemCacheView>::empty());
        r
    }

    fn bump_super_version_id(&mut self)
        ensures
            final(self)@ == (TseriesFamilyView {
                super_version_id: old(self)@.next_super_version_id(),
                ..old(self)@
            }),
    {
        self.super_version_id = if self.super_version_id == u64::MAX {
            0
        } else {
            self.super_version_id + 1
        };
    }

    /// Freezes the mutable cache, puts it behind the waiting ones and
    /// goes on with `cache`.
    pub fn switch_memcache(&mut self, cache: MemCache)
        requires
            old(self)@.wf(),
            cache@.wf(),
        ensures
            final(self)@.wf(),
            final(self)@ == old(self)@.switch_memcache(cache@),
    {
        let mut frozen = cache;
        core::mem::swap(&mut self.mut_cache, &mut frozen);
        frozen.switch_to_immutable();
        proof {
            old(self)@.mut_cache.lemma_freeze_wf();
        }
        self.immut_cache.push(frozen);
        self.bump_super_version_id();
        proof {
            assert(cache_views(self.immut_cache@) =~= old(self)@.immut_cache.push(
                old(self)@.mut_cache.freeze(),
            ));
        }
    }

    /// Freezes the mutable cache, puts it behind the waiting ones and
    /// goes on with an empty cache of the same budget.
    pub fn switch_to_immutable(&mut self)
        requires
            old(self)@.wf(),
        ensures
            final(self)@.wf(),
            final(self)@ == old(self)@.switch_to_immutable(),
    {
        let fresh = MemCache::new(self.tf_id, self.mut_cache.max_buf_size(), self.seq_no, false);
        self.switch_memcache(fresh);
    }

    /// Hands the cache of late samples over: the request holds it, and
    /// the family goes on with an empty one of the budget that the
    /// options give.
    pub fn wrap_delta_flush_req(&mut self) -> (req: FlushReq)
        requires
            old(self)@.wf(),
        ensures
            final(self)@.wf(),
            final(self)@ == old(self)@.wrap_delta_flush_req().0,
            req@ == old(self)@.wrap_delta_flush_req().1,
    {
        let mut taken = MemCache::new(self.tf_id, self.opts.max_memcache_size, self.seq_no, true);
        core::mem::swap(&mut self.delta_mut_cache, &mut taken);
        let mut req_mem: Vec<(u32, MemCache)> = Vec::new();
        req_mem.push((self.tf_id, taken));
        self.bump_super_version_id();
        let req = FlushReq { mems: req_mem, wait_req: 0 };
        assert(req@.mems =~= old(self)@.wrap_delta_flush_req().1.mems);
        req
    }

    /// Hands all waiting caches over, oldest first: the request holds
    /// them, and the family goes on with none waiting.
    pub fn wrap_flush_req(&mut self) -> (req: FlushReq)
        requires
            old(self)@.wf(),
        ensures
            final(self)@.wf(),
            final(self)@ == old(self)@.wrap_flush_req().0,
            req@ == old(self)@.wrap_flush_req().1,
    {
        let tf_id = self.tf_id;
        let mut waiting: Vec<MemCache> = Vec::new();
        core::mem::swap(&mut self.immut_cache, &mut waiting);
        let ghost caches = waiting@;
        let mut req_mem: Vec<(u32, MemCache)> = Vec::new();
        for cache in it: waiting
            invariant
                it.seq() == caches,
                req_mem@.len() == it.index(),
                forall|j: int| 0 <= j < it.index() ==> #[trigger] req_mem@[j] == (tf_id, caches[j]),
        {
            req_mem.push((tf_id, cache));
        }
        self.bump_super_version_id();
        let req = FlushReq { mems: req_mem, wait_req: 0 };
        proof {
            assert(cache_views(self.immut_cache@) =~= Seq::<MemCacheView>::empty());
            assert(req@.mems =~= old(self)@.wrap_flush_req().1.mems);
        }
        req
    }

    pub fn tf_id(&self) -> (id: TseriesFamilyId)
        ensures
            id == self@.tf_id,
    {
        self.tf_id
    }

    /// The cache that takes the samples in order.
    pub fn cache(&self) -> (r: &MemCache)
        ensures
            r@ == self@.mut_cache,
    {
        &self.mut_cache
    }

    /// The cache that takes the late samples.
    pub fn delta_cache(&self) -> (r: &MemCache)
        ensures
            r@ == self@.delta_mut_cache,
    {
        &self.delta_mut_cache
    }

    /// The frozen caches that wait for the flush, oldest first.
    pub fn im_cache(&self) -> (r: &Vec<MemCache>)
        ensures
            cache_views(r@) == self@.immut_cache,
    {
        &self.immut_cache
    }

    pub fn version(&self) -> (r: &Version)
        ensures
            *r == self@.version,
    {
        &self.version
    }

    pub fn opts(&self) -> (r: &TseriesFamOpt)
        ensures
            *r == self@.opts,
    {
        &self.opts
    }

    /// The watermark: a sample before it is late.
    pub fn imut_ts_min(&self) -> (ts: i64)
        ensures
            ts == self@.immut_ts_min,
    {
        self.immut_ts_min
    }

    /// The greatest timestamp of a sample taken in order.
    pub fn mut_ts_max(&self) -> (ts: i64)
        ensures
            ts == self@.mut_ts_max,
    {
        self.mut_ts_max
    }

    pub fn seq_no(&self) -> (n: u64)
        ensures
            n == self@.seq_no,
    {
        self.seq_no
    }

    pub fn super_version_id(&self) -> (id: u64)
        ensures
            id == self@.super_version_id,
    {
        self.super_version_id
    }

    /// What a reader sees of the family now.
    pub fn super_version(&self) -> (sv: SuperVersion<'_>)
        ensures
            sv.id == self@.tf_id,
            sv.delta_mut_cache@ == self@.delta_mut_cache,
            sv.mut_cache@ == self@.mut_cache,
            cache_views(sv.immut_cache@) == self@.immut_cache,
            *sv.cur_version == self@.version,
            *sv.opt == self@.opts,
            sv.version_id == self@.super_version_id,
    {
        SuperVersion::new(
            self.tf_id,
            &self.delta_mut_cache,
            &self.mut_cache,
            &self.immut_cache,
            &self.version,
            &self.opts,
            self.super_version_id,
        )
    }
}

impl TseriesFamily {
    /// Takes a sample in: one in order goes to the mutable cache, a late
    /// one to the cache of late samples. Returns whether it was in order.
    fn ingest(&mut self, fid: FieldId, val: &[u8], dtype: ValueType, seq: u64, ts: Timestamp) -> (r:
        Result<bool, Error>)
        requires
            old(self)@.wf(),
        ensures
            final(self)@.wf(),
            match old(self)@.ingest(fid, val@, dtype, seq, ts) {
                Ok(next) => r == Ok::<bool, Error>(old(self)@.in_order(ts)) && final(self)@ == next,
                Err(e) => r == Err::<bool, Error>(e) && final(self)@ == old(self)@,
            },
    {
        proof {
            old(self)@.lemma_ingest_wf(fid, val@, dtype, seq, ts);
        }
        let watermark = if self.immut_ts_min == i64::MIN {
            ts
        } else {
            self.immut_ts_min
        };
        if ts >= watermark {
            match self.mut_cache.insert_raw(seq, fid, ts, dtype, val) {
                Ok(()) => {},
                Err(e) => {
                    return Err(e);
                },
            }
            if ts > self.mut_ts_max {
                self.mut_ts_max = ts;
            }
            self.immut_ts_min = watermark;
            Ok(true)
        } else {
            match self.delta_mut_cache.insert_raw(seq, fid, ts, dtype, val) {
                Ok(()) => {},
                Err(e) => {
                    return Err(e);
                },
            }
            Ok(false)
        }
    }

    /// Looks after the caches once a sample was taken in, and returns the
    /// requests made on the way.
    fn maintain(&mut self, in_order: bool) -> (reqs: Vec<FlushReq>)
        requires
            old(self)@.wf(),
        ensures
            final(self)@.wf(),
            final(self)@ == old(self)@.maintain(in_order).0,
            flush_req_views(reqs@) == old(self)@.maintain(in_order).1,
    {
        let mut reqs: Vec<FlushReq> = Vec::new();
        assert(flush_req_views(reqs@) =~= Seq::<FlushReqView>::empty());
        if in_order && !self.delta_mut_cache.is_empty() {
            let req = self.wrap_delta_flush_req();
            reqs.push(req);
            assert(flush_req_views(reqs@) =~= seq![req@]);
        }
        if self.mut_cache.is_full() {
            self.switch_to_immutable();
            if self.immut_cache.len() >= self.opts.max_immemcache_num {
                let ghost rotated = self@;
                if self.mut_ts_max > self.immut_ts_min {
                    self.immut_ts_min = self.mut_ts_max;
                }
                if self.mut_ts_max > self.version.max_level_ts {
                    self.version.max_level_ts = self.mut_ts_max;
                }
                let ghost before = flush_req_views(reqs@);
                assert(self@ == rotated.advance_watermark());
                assert(self@.wf());
                let req = self.wrap_flush_req();
                reqs.push(req);
                assert(flush_req_views(reqs@) =~= before.push(req@));
            }
        }
        if self.delta_mut_cache.is_full() {
            let ghost before = flush_req_views(reqs@);
            let req = self.wrap_delta_flush_req();
            reqs.push(req);
            assert(flush_req_views(reqs@) =~= before.push(req@));
        }
        reqs
    }

    /// Takes in the sample that `val` spells for field `fid` at time
    /// `ts`, then looks after the caches. Returns the flush requests made
    /// on the way, in the order they are to be queued. A sample that is
    /// refused changes nothing.
    pub fn put_mutcache(
        &mut self,
        fid: FieldId,
        val: &[u8],
        dtype: ValueType,
        seq: u64,
        ts: Timestamp,
    ) -> (r: Result<Vec<FlushReq>, Error>)
        requires
            old(self)@.wf(),
        ensures
            final(self)@.wf(),
            match old(self)@.put(fid, val@, dtype, seq, ts) {
                Ok((next, reqs)) => r is Ok && final(self)@ == next && flush_req_views(r->Ok_0@)
                    == reqs,
                Err(e) => r == Err::<Vec<FlushReq>, Error>(e) && final(self)@ == old(self)@,
            },
    {
        let in_order = match self.ingest(fid, val, dtype, seq, ts) {
            Ok(in_order) => in_order,
            Err(e) => {
                return Err(e);
            },
        };
        Ok(self.maintain(in_order))
    }

    /// Deletes the samples inside `time_range` from every cache of the
    /// family, the frozen ones too.
    pub fn delete_cache(&mut self, time_range: &TimeRange)
        requires
            old(self)@.wf(),
        ensures
            final(self)@.wf(),
            final(self)@ == old(self)@.delete_cache(*time_range),
    {
        proof {
            old(self)@.mut_cache.lemma_delete_range_wf(Seq::empty(), *time_range);
            old(self)@.delta_mut_cache.lemma_delete_range_wf(Seq::empty(), *time_range);
        }
        self.mut_cache.delete_data(time_range);
        self.delta_mut_cache.delete_data(time_range);
        let ghost waiting = cache_views(self.immut_cache@);
        let mut i: usize = 0;
        while i < self.immut_cache.len()
            invariant
                i <= self.immut_cache.len(),
                self.immut_cache.len() == waiting.len(),
                waiting == old(self)@.immut_cache,
                old(self)@.wf(),
                self.tf_id == old(self).tf_id,
                self.mut_cache@ == old(self)@.mut_cache.delete_data(*time_range),
                self.delta_mut_cache@ == old(self)@.delta_mut_cache.delete_data(*time_range),
                self.super_version_id == old(self).super_version_id,
                self.version == old(self).version,
                self.opts == old(self).opts,
                self.seq_no == old(self).seq_no,
                self.immut_ts_min == old(self).immut_ts_min,
                self.mut_ts_max == old(self).mut_ts_max,
                forall|j: int|
                    0 <= j < i ==> (#[trigger] self.immut_cache@[j])@ == waiting[j].delete_data(
                        *time_range,
                    ),
                forall|j: int| i <= j < waiting.len() ==> (#[trigger] self.immut_cache@[j])@
                    == waiting[j],
            decreases self.immut_cache.len() - i,
        {
            assert(self.immut_cache@[i as int]@ == waiting[i as int]);
            assert(waiting[i as int].wf());
            self.immut_cache[i].delete_data(time_range);
            i += 1;
        }
        proof {
            assert(cache_views(self.immut_cache@) =~= old(self)@.delete_cache(
                *time_range,
            ).immut_cache);
            assert forall|j: int| 0 <= j < waiting.len() implies (#[trigger] cache_views(
                self.immut_cache@,
            )[j]).wf() && cache_views(self.immut_cache@)[j].immutable by {
                waiting[j].lemma_delete_range_wf(Seq::empty(), *time_range);
            }
        }
    }
}

} // verus!
