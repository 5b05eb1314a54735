//! Files, tiers and the family as contracts speak of them: what each
//! operation makes of them, and what holds of them whatever is done.

use vstd::prelude::*;
use crate::compaction::{count_flushed, count_mems, FlushReqView};
use crate::error::Error;
use crate::kv_option::TseriesFamOpt;
use crate::memcache::model::{count_cells, decode_cell, MemCacheView, MemEntryView};
use crate::models::{FieldId, Timestamp, ValueType};
use crate::summary::CompactMeta;
use crate::tseries_family::{
    ColumnFileId, TimeRange, TseriesFamilyId, Version, BLOOM_FILTER_SIZE,
};

verus! {

/// A file's metadata as contracts speak of it.
pub struct ColumnFileView {
    pub file_id: ColumnFileId,
    pub being_compact: bool,
    pub deleted: bool,
    pub range: TimeRange,
    pub size: u64,
    /// The bits of the membership filter over the field ids of the file.
    pub field_id_bloom_filter: Seq<u8>,
    pub is_delta: bool,
}

/// The sizes of the files of `files` that are not deleted, added up.
pub open spec fn live_size(files: Seq<ColumnFileView>) -> nat
    decreases files.len(),
{
    if files.len() == 0 {
        0
    } else {
        live_size(files.drop_last()) + if files.last().deleted {
            0nat
        } else {
            files.last().size as nat
        }
    }
}

/// A tier as contracts speak of it.
pub struct LevelInfoView {
    pub files: Seq<ColumnFileView>,
    pub tsf_opt: TseriesFamOpt,
    pub level: u32,
    pub cur_size: u64,
    pub max_size: u64,
    pub ts_range: TimeRange,
}

impl LevelInfoView {
    /// The invariant of a tier: its size is the size of its files that
    /// are not deleted.
    pub open spec fn wf(self) -> bool {
        self.cur_size == live_size(self.files)
    }

    /// The file that `delta` describes, neither deleted nor in
    /// compaction, with a membership filter that holds no field yet.
    pub open spec fn new_file(delta: CompactMeta) -> ColumnFileView {
        ColumnFileView {
            file_id: delta.file_id,
            being_compact: false,
            deleted: false,
            range: TimeRange { max_ts: delta.ts_max, min_ts: delta.ts_min },
            size: delta.file_size,
            field_id_bloom_filter: Seq::new(BLOOM_FILTER_SIZE as nat, |i: int| 0u8),
            is_delta: delta.is_delta,
        }
    }

    /// The tier after the file of `delta` was added: the file is last,
    /// the size has grown by its size, and the time range reaches down to
    /// its least and up to its greatest timestamp.
    pub open spec fn apply(self, delta: CompactMeta) -> LevelInfoView {
        LevelInfoView {
            files: self.files.push(Self::new_file(delta)),
            cur_size: (self.cur_size + delta.file_size) as u64,
            ts_range: TimeRange {
                max_ts: if self.ts_range.max_ts < delta.ts_max {
                    delta.ts_max
                } else {
                    self.ts_range.max_ts
                },
                min_ts: if self.ts_range.min_ts > delta.ts_min {
                    delta.ts_min
                } else {
                    self.ts_range.min_ts
                },
            },
            ..self
        }
    }

    /// Whether file `i` is to be read for `time_range`: it is not deleted
    /// and its range overlaps.
    pub open spec fn to_read(self, i: int, time_range: TimeRange) -> bool {
        !self.files[i].deleted && self.files[i].range.spec_overlaps(&time_range)
    }
}

/// Marking a file deleted takes its size off the live size, once.
pub proof fn lemma_live_size_remove(files: Seq<ColumnFileView>, i: int)
    requires
        0 <= i < files.len(),
    ensures
        live_size(files.update(i, ColumnFileView { deleted: true, ..files[i] })) + (
        if files[i].deleted {
            0nat
        } else {
            files[i].size as nat
        }) == live_size(files),
    decreases files.len(),
{
    let marked = files.update(i, ColumnFileView { deleted: true, ..files[i] });
    if i == files.len() - 1 {
        assert(marked.drop_last() =~= files.drop_last());
    } else {
        lemma_live_size_remove(files.drop_last(), i);
        assert(marked.drop_last() =~= files.drop_last().update(
            i,
            ColumnFileView { deleted: true, ..files[i] },
        ));
    }
}

impl LevelInfoView {
    /// The files of the tier with those of id `file_id` marked deleted.
    pub open spec fn removed_files(self, file_id: ColumnFileId) -> Seq<ColumnFileView> {
        Seq::new(
            self.files.len(),
            |i: int|
                if self.files[i].file_id == file_id {
                    ColumnFileView { deleted: true, ..self.files[i] }
                } else {
                    self.files[i]
                },
        )
    }

    /// The tier after the files of id `file_id` were marked deleted: its
    /// size no longer counts them.
    pub open spec fn mark_removed(self, file_id: ColumnFileId) -> LevelInfoView {
        LevelInfoView {
            files: self.removed_files(file_id),
            cur_size: live_size(self.removed_files(file_id)) as u64,
            ..self
        }
    }

    /// The tier after the files of id `file_id` were marked as taken by
    /// a compaction.
    pub open spec fn mark_compaction(self, file_id: ColumnFileId) -> LevelInfoView {
        LevelInfoView {
            files: Seq::new(
                self.files.len(),
                |i: int|
                    if self.files[i].file_id == file_id {
                        ColumnFileView { being_compact: true, ..self.files[i] }
                    } else {
                        self.files[i]
                    },
            ),
            ..self
        }
    }
}

/// Marking a file as taken by a compaction leaves the live size alone.
pub proof fn lemma_live_size_same(a: Seq<ColumnFileView>, b: Seq<ColumnFileView>)
    requires
        a.len() == b.len(),
        forall|i: int|
            0 <= i < a.len() ==> (#[trigger] a[i]).deleted == b[i].deleted && a[i].size
                == b[i].size,
    ensures
        live_size(a) == live_size(b),
    decreases a.len(),
{
    if a.len() > 0 {
        assert(forall|i: int| 0 <= i < a.len() - 1 ==> a.drop_last()[i] == a[i]);
        assert(forall|i: int| 0 <= i < b.len() - 1 ==> b.drop_last()[i] == b[i]);
        assert(a.last() == a[a.len() - 1]);
        lemma_live_size_same(a.drop_last(), b.drop_last());
    }
}

impl LevelInfoView {
    /// What is known of a file stays: a new file leaves the others as
    /// they are, and a mark on a file is never taken back.
    pub proof fn lemma_marks_are_final(self, delta: CompactMeta, file_id: ColumnFileId, i: int)
        requires
            0 <= i < self.files.len(),
        ensures
            self.apply(delta).files[i] == self.files[i],
            self.files[i].deleted ==> self.mark_removed(file_id).files[i].deleted
                && self.mark_compaction(file_id).files[i].deleted,
            self.files[i].being_compact ==> self.mark_removed(file_id).files[i].being_compact
                && self.mark_compaction(file_id).files[i].being_compact,
    {
    }
}

/// Number of samples in the caches of `caches`.
pub open spec fn count_caches(caches: Seq<MemCacheView>) -> nat
    decreases caches.len(),
{
    if caches.len() == 0 {
        0
    } else {
        count_caches(caches.drop_last()) + caches.last().cell_count()
    }
}

/// A time-series family as contracts speak of it.
pub struct TseriesFamilyView {
    pub tf_id: TseriesFamilyId,
    /// The cache that takes the late samples.
    pub delta_mut_cache: MemCacheView,
    /// The cache that takes the samples in order.
    pub mut_cache: MemCacheView,
    /// The frozen caches that wait for the flush, oldest first.
    pub immut_cache: Seq<MemCacheView>,
    /// Counts the changes of the set of caches.
    pub super_version_id: u64,
    pub version: Version,
    pub opts: TseriesFamOpt,
    pub seq_no: u64,
    /// The watermark: a sample before it is late. `i64::MIN` until the
    /// first sample sets it.
    pub immut_ts_min: i64,
    /// The greatest timestamp of a sample taken in order; `i64::MIN`
    /// before the first.
    pub mut_ts_max: i64,
}

/// One call of `put_mutcache`, as contracts speak of it.
pub struct Put {
    pub fid: FieldId,
    pub val: Seq<u8>,
    pub dtype: ValueType,
    pub seq: u64,
    pub ts: Timestamp,
}

impl TseriesFamilyView {
    /// The invariant of a family: every cache meets its own invariant,
    /// the cache of late samples has the budget that the options give,
    /// the caches that wait for the flush are frozen, and once a sample
    /// was taken in order the watermark is not beyond the greatest such
    /// sample.
    pub open spec fn wf(self) -> bool {
        &&& self.mut_cache.wf()
        &&& self.delta_mut_cache.wf()
        &&& self.delta_mut_cache.max_buf_size == self.opts.max_memcache_size
        &&& forall|i: int|
            0 <= i < self.immut_cache.len() ==> (#[trigger] self.immut_cache[i]).wf()
                && self.immut_cache[i].immutable
        &&& self.mut_ts_max == i64::MIN || self.immut_ts_min <= self.mut_ts_max
    }

    /// The family as it starts: the watermark is what the version has
    /// handed over, no sample was taken, and the cache of late samples is
    /// empty with the budget of the options.
    pub open spec fn new(
        tf_id: TseriesFamilyId,
        cache: MemCacheView,
        version: Version,
        opt: TseriesFamOpt,
    ) -> TseriesFamilyView {
        TseriesFamilyView {
            tf_id,
            delta_mut_cache: MemCacheView::new(tf_id, opt.max_memcache_size, version.last_seq, true),
            mut_cache: cache,
            immut_cache: Seq::empty(),
            super_version_id: 0,
            version,
            opts: opt,
            seq_no: version.last_seq,
            immut_ts_min: version.max_level_ts,
            mut_ts_max: i64::MIN,
        }
    }

    /// The watermark that a sample at `ts` is held against: the family's
    /// own, or `ts` itself while the family has none.
    pub open spec fn watermark(self, ts: Timestamp) -> i64 {
        if self.immut_ts_min == i64::MIN {
            ts
        } else {
            self.immut_ts_min
        }
    }

    /// Whether a sample at `ts` is in order: not before the watermark.
    pub open spec fn in_order(self, ts: Timestamp) -> bool {
        ts >= self.watermark(ts)
    }

    /// What taking a sample in comes to. A sample in order goes to the
    /// mutable cache and raises `mut_ts_max`; a late one goes to the
    /// cache of late samples. The watermark is set by the first sample.
    /// When the cache refuses the sample, so does the family.
    pub open spec fn ingest(
        self,
        fid: FieldId,
        val: Seq<u8>,
        dtype: ValueType,
        seq: u64,
        ts: Timestamp,
    ) -> Result<TseriesFamilyView, Error> {
        if self.in_order(ts) {
            match self.mut_cache.try_insert_raw(seq, fid, ts, dtype, val) {
                Ok(cache) => Ok(
                    TseriesFamilyView {
                        immut_ts_min: self.watermark(ts),
                        mut_ts_max: if ts > self.mut_ts_max {
                            ts
                        } else {
                            self.mut_ts_max
                        },
                        mut_cache: cache,
                        ..self
                    },
                ),
                Err(e) => Err(e),
            }
        } else {
            match self.delta_mut_cache.try_insert_raw(seq, fid, ts, dtype, val) {
                Ok(cache) => Ok(TseriesFamilyView { delta_mut_cache: cache, ..self }),
                Err(e) => Err(e),
            }
        }
    }

    /// The id after `super_version_id`; it starts over after `u64::MAX`.
    pub open spec fn next_super_version_id(self) -> u64 {
        if self.super_version_id == u64::MAX {
            0
        } else {
            (self.super_version_id + 1) as u64
        }
    }

    /// The family after its mutable cache was frozen and put behind the
    /// waiting ones, with `cache` in its place.
    pub open spec fn switch_memcache(self, cache: MemCacheView) -> TseriesFamilyView {
        TseriesFamilyView {
            immut_cache: self.immut_cache.push(self.mut_cache.freeze()),
            mut_cache: cache,
            super_version_id: self.next_super_version_id(),
            ..self
        }
    }

    /// The family after its mutable cache was frozen and put behind the
    /// waiting ones, with an empty cache of the same budget in its place.
    pub open spec fn switch_to_immutable(self) -> TseriesFamilyView {
        self.switch_memcache(
            MemCacheView::new(self.tf_id, self.mut_cache.max_buf_size, self.seq_no, false),
        )
    }

    /// The request that hands over the cache of late samples, and the
    /// family after it, with an empty cache of the budget that the
    /// options give in its place.
    pub open spec fn wrap_delta_flush_req(self) -> (TseriesFamilyView, FlushReqView) {
        (
            TseriesFamilyView {
                delta_mut_cache: MemCacheView::new(
                    self.tf_id,
                    self.opts.max_memcache_size,
                    self.seq_no,
                    true,
                ),
                super_version_id: self.next_super_version_id(),
                ..self
            },
            FlushReqView { mems: seq![(self.tf_id, self.delta_mut_cache)], wait_req: 0 },
        )
    }

    /// The request that hands over all waiting caches, oldest first, and
    /// the family after it, with none waiting.
    pub open spec fn wrap_flush_req(self) -> (TseriesFamilyView, FlushReqView) {
        (
            TseriesFamilyView {
                immut_cache: Seq::empty(),
                super_version_id: self.next_super_version_id(),
                ..self
            },
            FlushReqView {
                mems: Seq::new(
                    self.immut_cache.len(),
                    |i: int| (self.tf_id, self.immut_cache[i]),
                ),
                wait_req: 0,
            },
        )
    }

    /// Whether the cache of late samples is handed over because a sample
    /// in order has arrived: it is, if it has a buffer.
    pub open spec fn ships_delta(self, in_order: bool) -> bool {
        in_order && !self.delta_mut_cache.data_cache.dom().is_empty()
    }

    /// The family after the waiting caches were declared persisted up to
    /// `mut_ts_max`: the watermark and the version move up to there.
    /// Neither moves backward: what lies at or beyond `mut_ts_max` stays
    /// where it is.
    pub open spec fn advance_watermark(self) -> TseriesFamilyView {
        TseriesFamilyView {
            immut_ts_min: if self.mut_ts_max > self.immut_ts_min {
                self.mut_ts_max
            } else {
                self.immut_ts_min
            },
            version: self.version.with_max_level_ts(
                if self.mut_ts_max > self.version.max_level_ts {
                    self.mut_ts_max
                } else {
                    self.version.max_level_ts
                },
            ),
            ..self
        }
    }

    /// Whether the waiting caches have reached the number at which they
    /// are handed over.
    pub open spec fn flush_due(self) -> bool {
        self.immut_cache.len() >= self.opts.max_immemcache_num
    }

    /// What follows the taking of a sample, with the requests made on
    /// the way, in the order they are made.
    ///
    /// If the sample was in order and the cache of late samples has a
    /// buffer, that cache is handed over. Then, if the mutable cache is
    /// full, it is rotated, and if that brings the waiting caches to
    /// their number, the watermark advances and they are handed over.
    /// In the end, if the cache of late samples is full, it is handed
    /// over.
    pub open spec fn maintain(self, in_order: bool) -> (TseriesFamilyView, Seq<FlushReqView>) {
        let (after_delta, delta_reqs) = if self.ships_delta(in_order) {
            (self.wrap_delta_flush_req().0, seq![self.wrap_delta_flush_req().1])
        } else {
            (self, Seq::empty())
        };
        let (after_rotation, rotation_reqs) = if after_delta.mut_cache.is_full() {
            let rotated = after_delta.switch_to_immutable();
            if rotated.flush_due() {
                let advanced = rotated.advance_watermark();
                (advanced.wrap_flush_req().0, delta_reqs.push(advanced.wrap_flush_req().1))
            } else {
                (rotated, delta_reqs)
            }
        } else {
            (after_delta, delta_reqs)
        };
        if after_rotation.delta_mut_cache.is_full() {
            (after_rotation.wrap_delta_flush_req().0, rotation_reqs.push(after_rotation.wrap_delta_flush_req().1))
        } else {
            (after_rotation, rotation_reqs)
        }
    }

    /// What `put_mutcache` comes to: the sample is taken in, then the
    /// caches are looked after. A refused sample changes nothing.
    pub open spec fn put(
        self,
        fid: FieldId,
        val: Seq<u8>,
        dtype: ValueType,
        seq: u64,
        ts: Timestamp,
    ) -> Result<(TseriesFamilyView, Seq<FlushReqView>), Error> {
        match self.ingest(fid, val, dtype, seq, ts) {
            Ok(taken) => Ok(taken.maintain(self.in_order(ts))),
            Err(e) => Err(e),
        }
    }

    /// The family after the samples inside `r` were deleted from every
    /// cache it holds.
    pub open spec fn delete_cache(self, r: TimeRange) -> TseriesFamilyView {
        TseriesFamilyView {
            mut_cache: self.mut_cache.delete_data(r),
            delta_mut_cache: self.delta_mut_cache.delete_data(r),
            immut_cache: Seq::new(
                self.immut_cache.len(),
                |i: int| self.immut_cache[i].delete_data(r),
            ),
            ..self
        }
    }

    /// Number of samples in all caches of the family.
    pub open spec fn cell_count(self) -> nat {
        self.mut_cache.cell_count() + self.delta_mut_cache.cell_count() + count_caches(
            self.immut_cache,
        )
    }
}

impl TseriesFamilyView {
    /// Taking a sample in keeps the invariant.
    pub proof fn lemma_ingest_wf(
        self,
        fid: FieldId,
        val: Seq<u8>,
        dtype: ValueType,
        seq: u64,
        ts: Timestamp,
    )
        requires
            self.wf(),
        ensures
            self.ingest(fid, val, dtype, seq, ts) matches Ok(next) ==> next.wf(),
    {
        match decode_cell(dtype, ts, val) {
            Ok(c) => {
                self.mut_cache.lemma_try_insert_wf(fid, c, dtype);
                self.delta_mut_cache.lemma_try_insert_wf(fid, c, dtype);
            },
            Err(_) => {},
        }
    }
}

/// Handing caches over neither loses nor adds a sample.
pub proof fn lemma_count_mems_of_caches(tf_id: TseriesFamilyId, caches: Seq<MemCacheView>)
    ensures
        count_mems(Seq::new(caches.len(), |i: int| (tf_id, caches[i]))) == count_caches(caches),
    decreases caches.len(),
{
    let mems = Seq::new(caches.len(), |i: int| (tf_id, caches[i]));
    if caches.len() > 0 {
        let init = caches.drop_last();
        lemma_count_mems_of_caches(tf_id, init);
        assert(mems.drop_last() =~= Seq::new(init.len(), |i: int| (tf_id, init[i])));
    }
}

impl TseriesFamilyView {
    /// The cache that a sample at `ts` goes to.
    pub open spec fn receiving_cache(self, ts: Timestamp) -> MemCacheView {
        if ts >= self.immut_ts_min {
            self.mut_cache
        } else {
            self.delta_mut_cache
        }
    }

    /// A sample that is not before the watermark lands in the mutable
    /// cache, behind the samples of its field, and leaves the cache of
    /// late samples alone. A sample before the watermark lands in the
    /// cache of late samples in the same way and leaves the mutable cache
    /// alone.
    pub proof fn lemma_ingest_routes(
        self,
        fid: FieldId,
        val: Seq<u8>,
        dtype: ValueType,
        seq: u64,
        ts: Timestamp,
    )
        requires
            self.ingest(fid, val, dtype, seq, ts) is Ok,
        ensures
            ({
                let next = self.ingest(fid, val, dtype, seq, ts)->Ok_0;
                let c = decode_cell(dtype, ts, val)->Ok_0;
                &&& decode_cell(dtype, ts, val) is Ok
                &&& ts >= self.immut_ts_min ==> {
                    &&& next.mut_cache.data_cache.contains_key(fid)
                    &&& next.mut_cache.data_cache[fid].cells == self.mut_cache.entry(
                        fid,
                    ).cells.push(c)
                    &&& next.delta_mut_cache == self.delta_mut_cache
                }
                &&& ts < self.immut_ts_min ==> {
                    &&& next.delta_mut_cache.data_cache.contains_key(fid)
                    &&& next.delta_mut_cache.data_cache[fid].cells == self.delta_mut_cache.entry(
                        fid,
                    ).cells.push(c)
                    &&& next.mut_cache == self.mut_cache
                }
            }),
    {
    }

    /// The cache that takes a sample records the sequence number that
    /// came with it; the other cache keeps its own. So as long as the
    /// numbers that come do not fall, the recorded numbers do not fall.
    pub proof fn lemma_ingest_seq_no(
        self,
        fid: FieldId,
        val: Seq<u8>,
        dtype: ValueType,
        seq: u64,
        ts: Timestamp,
    )
        requires
            self.ingest(fid, val, dtype, seq, ts) is Ok,
        ensures
            ({
                let next = self.ingest(fid, val, dtype, seq, ts)->Ok_0;
                &&& ts >= self.immut_ts_min ==> next.mut_cache.seq_no == seq
                    && next.delta_mut_cache.seq_no == self.delta_mut_cache.seq_no
                &&& ts < self.immut_ts_min ==> next.delta_mut_cache.seq_no == seq
                    && next.mut_cache.seq_no == self.mut_cache.seq_no
                &&& seq >= self.receiving_cache(ts).seq_no ==> next.mut_cache.seq_no
                    >= self.mut_cache.seq_no && next.delta_mut_cache.seq_no
                    >= self.delta_mut_cache.seq_no
            }),
    {
    }

    /// The watermark never moves backward, and neither does the greatest
    /// timestamp that the version has on record.
    pub proof fn lemma_watermark_monotonic(
        self,
        fid: FieldId,
        val: Seq<u8>,
        dtype: ValueType,
        seq: u64,
        ts: Timestamp,
    )
        requires
            self.wf(),
            self.put(fid, val, dtype, seq, ts) is Ok,
        ensures
            ({
                let next = self.put(fid, val, dtype, seq, ts)->Ok_0.0;
                &&& next.immut_ts_min >= self.immut_ts_min
                &&& next.version.max_level_ts >= self.version.max_level_ts
                &&& next.mut_ts_max >= self.mut_ts_max
            }),
    {
        self.lemma_ingest_wf(fid, val, dtype, seq, ts);
    }

    /// The watermark changes in two ways only: the first sample sets it,
    /// and a call that hands the waiting caches over raises it to
    /// `mut_ts_max`.
    pub proof fn lemma_watermark_moves(
        self,
        fid: FieldId,
        val: Seq<u8>,
        dtype: ValueType,
        seq: u64,
        ts: Timestamp,
    )
        requires
            self.wf(),
            self.put(fid, val, dtype, seq, ts) is Ok,
        ensures
            ({
                let next = self.put(fid, val, dtype, seq, ts)->Ok_0.0;
                ||| next.immut_ts_min == self.immut_ts_min
                ||| self.immut_ts_min == i64::MIN && next.immut_ts_min == ts
                ||| next.immut_ts_min == next.mut_ts_max && next.immut_cache.len() == 0
            }),
    {
        self.lemma_ingest_wf(fid, val, dtype, seq, ts);
    }

    /// Looking after the caches keeps the invariant, and neither loses
    /// nor adds a sample: what leaves the family is in the requests.
    pub proof fn lemma_maintain_conserves(self, in_order: bool)
        requires
            self.wf(),
        ensures
            self.maintain(in_order).0.wf(),
            self.maintain(in_order).0.cell_count() + count_flushed(self.maintain(in_order).1)
                == self.cell_count(),
    {
        let empty = Map::<FieldId, MemEntryView>::empty();
        assert(count_cells(empty) == 0);
        let (after_delta, delta_reqs) = if self.ships_delta(in_order) {
            (self.wrap_delta_flush_req().0, seq![self.wrap_delta_flush_req().1])
        } else {
            (self, Seq::<FlushReqView>::empty())
        };
        assert(after_delta.wf());
        assert(after_delta.cell_count() + count_flushed(delta_reqs) == self.cell_count()) by {
            if self.ships_delta(in_order) {
                let req = self.wrap_delta_flush_req().1;
                assert(delta_reqs.drop_last() =~= Seq::<FlushReqView>::empty());
                assert(req.mems.drop_last() =~= Seq::<(u32, MemCacheView)>::empty());
                assert(count_mems(req.mems.drop_last()) == 0);
                assert(count_flushed(delta_reqs.drop_last()) == 0);
            }
        }
        let (after_rotation, rotation_reqs) = if after_delta.mut_cache.is_full() {
            let rotated = after_delta.switch_to_immutable();
            if rotated.flush_due() {
                let advanced = rotated.advance_watermark();
                (advanced.wrap_flush_req().0, delta_reqs.push(advanced.wrap_flush_req().1))
            } else {
                (rotated, delta_reqs)
            }
        } else {
            (after_delta, delta_reqs)
        };
        assert(after_rotation.wf() && after_rotation.cell_count() + count_flushed(rotation_reqs) == self.cell_count()) by {
            if after_delta.mut_cache.is_full() {
                let rotated = after_delta.switch_to_immutable();
                after_delta.mut_cache.lemma_freeze_wf();
                after_delta.mut_cache.lemma_freeze_keeps_count();
                assert(rotated.immut_cache.drop_last() =~= after_delta.immut_cache);
                assert(rotated.cell_count() == after_delta.cell_count());
                assert(rotated.wf());
                if rotated.flush_due() {
                    let advanced = rotated.advance_watermark();
                    let req = advanced.wrap_flush_req().1;
                    lemma_count_mems_of_caches(advanced.tf_id, advanced.immut_cache);
                    assert(rotation_reqs.drop_last() =~= delta_reqs);
                    assert(count_caches(Seq::<MemCacheView>::empty()) == 0);
                }
            }
        }
        if after_rotation.delta_mut_cache.is_full() {
            let req = after_rotation.wrap_delta_flush_req().1;
            let all_reqs = rotation_reqs.push(req);
            assert(all_reqs.drop_last() =~= rotation_reqs);
            assert(req.mems.drop_last() =~= Seq::<(u32, MemCacheView)>::empty());
            assert(count_mems(req.mems.drop_last()) == 0);
        }
    }

    /// A sample that is taken in is one sample more, in the family or in
    /// the requests that leave it; a sample that is refused changes
    /// nothing.
    pub proof fn lemma_put_conserves(
        self,
        fid: FieldId,
        val: Seq<u8>,
        dtype: ValueType,
        seq: u64,
        ts: Timestamp,
    )
        requires
            self.wf(),
        ensures
            self.put(fid, val, dtype, seq, ts) matches Ok((next, reqs)) ==> next.wf()
                && next.cell_count() + count_flushed(reqs) == self.cell_count() + 1,
    {
        if self.put(fid, val, dtype, seq, ts) is Ok {
            let taken = self.ingest(fid, val, dtype, seq, ts)->Ok_0;
            let c = decode_cell(dtype, ts, val)->Ok_0;
            self.lemma_ingest_wf(fid, val, dtype, seq, ts);
            self.mut_cache.lemma_insert_counts_one(fid, c);
            self.delta_mut_cache.lemma_insert_counts_one(fid, c);
            assert(taken.cell_count() == self.cell_count() + 1);
            taken.lemma_maintain_conserves(self.in_order(ts));
        }
    }

    /// What a run of calls of `put_mutcache` comes to: the family in the
    /// end, the requests made over the whole run, and the number of
    /// samples taken in. A refused sample is passed over.
    pub open spec fn put_all(self, puts: Seq<Put>) -> (TseriesFamilyView, Seq<FlushReqView>, nat)
        decreases puts.len(),
    {
        if puts.len() == 0 {
            (self, Seq::empty(), 0)
        } else {
            let (state, reqs, taken) = self.put_all(puts.drop_last());
            let p = puts.last();
            match state.put(p.fid, p.val, p.dtype, p.seq, p.ts) {
                Ok((next, more)) => (next, reqs + more, taken + 1),
                Err(_) => (state, reqs, taken),
            }
        }
    }

    /// After any run of calls the samples in the caches of the family and
    /// in the requests that left it are those that were there before and
    /// those that were taken in.
    pub proof fn lemma_put_all_conserves(self, puts: Seq<Put>)
        requires
            self.wf(),
        ensures
            self.put_all(puts).0.wf(),
            self.put_all(puts).0.cell_count() + count_flushed(self.put_all(puts).1)
                == self.cell_count() + self.put_all(puts).2,
            self.put_all(puts).2 <= puts.len(),
        decreases puts.len(),
    {
        if puts.len() > 0 {
            let (state, reqs, taken) = self.put_all(puts.drop_last());
            self.lemma_put_all_conserves(puts.drop_last());
            let p = puts.last();
            state.lemma_put_conserves(p.fid, p.val, p.dtype, p.seq, p.ts);
            match state.put(p.fid, p.val, p.dtype, p.seq, p.ts) {
                Ok((next, more)) => {
                    lemma_count_flushed_add(reqs, more);
                },
                Err(_) => {},
            }
        }
    }

    /// Deleting a range twice leaves what deleting it once leaves.
    pub proof fn lemma_delete_cache_idempotent(self, r: TimeRange)
        ensures
            self.delete_cache(r).delete_cache(r) == self.delete_cache(r),
    {
        self.mut_cache.lemma_delete_range_idempotent(Seq::empty(), r);
        self.delta_mut_cache.lemma_delete_range_idempotent(Seq::empty(), r);
        assert forall|i: int| 0 <= i < self.immut_cache.len() implies (
        #[trigger] self.immut_cache[i]).delete_data(r).delete_data(r) == self.immut_cache[i].delete_data(
            r,
        ) by {
            self.immut_cache[i].lemma_delete_range_idempotent(Seq::empty(), r);
        }
        assert(self.delete_cache(r).delete_cache(r).immut_cache =~= self.delete_cache(
            r,
        ).immut_cache);
    }
}

/// The samples of two runs of requests add up.
pub proof fn lemma_count_flushed_add(a: Seq<FlushReqView>, b: Seq<FlushReqView>)
    ensures
        count_flushed(a + b) == count_flushed(a) + count_flushed(b),
    decreases b.len(),
{
    if b.len() == 0 {
        assert(a + b =~= a);
    } else {
        lemma_count_flushed_add(a, b.drop_last());
        assert((a + b).drop_last() =~= a + b.drop_last());
        assert((a + b).last() == b.last());
    }
}

impl TseriesFamilyView {
    /// Every change of the set of caches gives the family a greater id,
    /// as long as the ids have not run out.
    pub proof fn lemma_super_version_id_grows(self, cache: MemCacheView)
        requires
            self.super_version_id < u64::MAX,
        ensures
            self.switch_memcache(cache).super_version_id > self.super_version_id,
            self.switch_to_immutable().super_version_id > self.super_version_id,
            self.wrap_flush_req().0.super_version_id > self.super_version_id,
            self.wrap_delta_flush_req().0.super_version_id > self.super_version_id,
    {
    }

    /// The caches that wait for the flush are frozen and sorted by time,
    /// each of them.
    pub proof fn lemma_waiting_caches_sorted(self, k: int, field_id: FieldId, i: int, j: int)
        requires
            self.wf(),
            0 <= k < self.immut_cache.len(),
            self.immut_cache[k].data_cache.contains_key(field_id),
            0 <= i <= j < self.immut_cache[k].data_cache[field_id].cells.len(),
        ensures
            self.immut_cache[k].immutable,
            self.immut_cache[k].data_cache[field_id].cells[i].ts
                <= self.immut_cache[k].data_cache[field_id].cells[j].ts,
    {
        self.immut_cache[k].lemma_frozen_sorted(field_id, i, j);
    }
}

impl TseriesFamilyView {
    /// Rotating, handing caches over and deleting leave the watermark
    /// where it is.
    pub proof fn lemma_watermark_kept(self, cache: MemCacheView, r: TimeRange)
        ensures
            self.switch_memcache(cache).immut_ts_min == self.immut_ts_min,
            self.switch_to_immutable().immut_ts_min == self.immut_ts_min,
            self.wrap_flush_req().0.immut_ts_min == self.immut_ts_min,
            self.wrap_delta_flush_req().0.immut_ts_min == self.immut_ts_min,
            self.delete_cache(r).immut_ts_min == self.immut_ts_min,
    {
    }

    /// No run of calls moves the watermark backward, nor the greatest
    /// timestamp that the version has on record, nor `mut_ts_max`.
    pub proof fn lemma_put_all_watermark(self, puts: Seq<Put>)
        requires
            self.wf(),
        ensures
            self.put_all(puts).0.wf(),
            self.put_all(puts).0.immut_ts_min >= self.immut_ts_min,
            self.put_all(puts).0.version.max_level_ts >= self.version.max_level_ts,
            self.put_all(puts).0.mut_ts_max >= self.mut_ts_max,
        decreases puts.len(),
    {
        if puts.len() > 0 {
            let state = self.put_all(puts.drop_last()).0;
            self.lemma_put_all_watermark(puts.drop_last());
            let p = puts.last();
            if state.put(p.fid, p.val, p.dtype, p.seq, p.ts) is Ok {
                state.lemma_put_conserves(p.fid, p.val, p.dtype, p.seq, p.ts);
                state.lemma_watermark_monotonic(p.fid, p.val, p.dtype, p.seq, p.ts);
            }
        }
    }

    /// The greatest sequence number that the family has on record in the
    /// caches that take samples, or starts new caches with.
    pub open spec fn seq_bound(self) -> u64 {
        let in_caches = if self.mut_cache.seq_no >= self.delta_mut_cache.seq_no {
            self.mut_cache.seq_no
        } else {
            self.delta_mut_cache.seq_no
        };
        if in_caches >= self.seq_no {
            in_caches
        } else {
            self.seq_no
        }
    }

    /// Whether the sequence numbers of `puts` never fall and start at
    /// `from` or above.
    pub open spec fn in_log_order(puts: Seq<Put>, from: u64) -> bool {
        &&& forall|i: int| 0 <= i < puts.len() ==> from <= (#[trigger] puts[i]).seq
        &&& forall|i: int, j: int| 0 <= i <= j < puts.len() ==> puts[i].seq <= puts[j].seq
    }

    /// A sample that comes with a sequence number at or above all that
    /// the family has on record leaves the family with none above it on
    /// record.
    pub proof fn lemma_put_seq_bound(
        self,
        fid: FieldId,
        val: Seq<u8>,
        dtype: ValueType,
        seq: u64,
        ts: Timestamp,
    )
        requires
            self.seq_bound() <= seq,
        ensures
            self.put(fid, val, dtype, seq, ts) matches Ok((next, _)) ==> next.seq_bound() <= seq
                && next.seq_no == self.seq_no,
    {
    }

    /// Over a run of calls whose sequence numbers never fall, no cache
    /// ever takes a sample with a sequence number below the one it has
    /// on record: the recorded numbers never fall.
    pub proof fn lemma_put_all_seq_no(self, puts: Seq<Put>, k: int)
        requires
            Self::in_log_order(puts, self.seq_bound()),
            0 <= k < puts.len(),
        ensures
            ({
                let state = self.put_all(puts.take(k)).0;
                let p = puts[k];
                &&& state.receiving_cache(p.ts).seq_no <= p.seq
                &&& state.put(p.fid, p.val, p.dtype, p.seq, p.ts) matches Ok((next, _))
                    ==> next.seq_bound() <= p.seq
            }),
    {
        self.lemma_put_all_seq_bound(puts.take(k), puts[k].seq);
        let state = self.put_all(puts.take(k)).0;
        let p = puts[k];
        state.lemma_put_seq_bound(p.fid, p.val, p.dtype, p.seq, p.ts);
    }

    /// A run of calls in log order leaves no sequence number on record
    /// above `bound`, if none of the run is above it.
    proof fn lemma_put_all_seq_bound(self, puts: Seq<Put>, bound: u64)
        requires
            Self::in_log_order(puts, self.seq_bound()),
            self.seq_bound() <= bound,
            forall|i: int| 0 <= i < puts.len() ==> (#[trigger] puts[i]).seq <= bound,
        ensures
            self.put_all(puts).0.seq_bound() <= bound,
        decreases puts.len(),
    {
        if puts.len() > 0 {
            let init = puts.drop_last();
            let p = puts.last();
            assert(forall|i: int| 0 <= i < init.len() ==> init[i] == puts[i]);
            assert(puts[puts.len() - 1] == p);
            self.lemma_put_all_seq_bound(init, p.seq);
            let state = self.put_all(init).0;
            state.lemma_put_seq_bound(p.fid, p.val, p.dtype, p.seq, p.ts);
        }
    }
}

} // verus!
