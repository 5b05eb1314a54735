//! Samples, per-field buffers and the memory cache that holds them.

pub mod model;

use std::collections::hash_map::Entry;
use std::collections::HashMap;
use vstd::prelude::*;
use vstd::std_specs::iter::IteratorSpec;
use crate::byte_utils::{decode_be_bool, decode_be_i64, decode_be_u64};
use crate::cells::{delete_range, inside, outside, read_range};
use crate::error::Error;
use crate::models::{FieldId, Timestamp, ValueType};
use crate::sort::sort_cells;
use crate::tseries_family::TimeRange;

pub use model::{decode_cell, Cell, MemCacheView, MemEntryView, Payload};

verus! {

/// A timestamp with the value sampled at it.
#[derive(Default, Debug, Clone, Copy)]
pub struct DataCell<T> {
    pub ts: i64,
    pub val: T,
}

pub type Byte = Vec<u8>;

pub type U64Cell = DataCell<u64>;

pub type I64Cell = DataCell<i64>;

pub type StrCell = DataCell<Byte>;

/// A float sample. The value is held as the 64 bits of its IEEE 754
/// binary64 form, so that samples compare and copy bit for bit.
pub type F64Cell = DataCell<u64>;

pub type BoolCell = DataCell<bool>;

/// One sample of any of the five scalar types.
#[derive(Debug)]
pub enum DataType {
    U64(U64Cell),
    I64(I64Cell),
    Str(StrCell),
    F64(F64Cell),
    Bool(BoolCell),
}

impl View for DataType {
    type V = Cell;

    open spec fn view(&self) -> Cell {
        match *self {
            DataType::U64(c) => Cell { ts: c.ts, val: Payload::U64(c.val) },
            DataType::I64(c) => Cell { ts: c.ts, val: Payload::I64(c.val) },
            DataType::Str(c) => Cell { ts: c.ts, val: Payload::Str(c.val@) },
            DataType::F64(c) => Cell { ts: c.ts, val: Payload::F64(c.val) },
            DataType::Bool(c) => Cell { ts: c.ts, val: Payload::Bool(c.val) },
        }
    }
}

impl Clone for DataType {
    fn clone(&self) -> (r: Self)
        ensures
            r@ == self@,
    {
        match self {
            DataType::U64(c) => DataType::U64(DataCell { ts: c.ts, val: c.val }),
            DataType::I64(c) => DataType::I64(DataCell { ts: c.ts, val: c.val }),
            DataType::Str(c) => DataType::Str(DataCell { ts: c.ts, val: c.val.clone() }),
            DataType::F64(c) => DataType::F64(DataCell { ts: c.ts, val: c.val }),
            DataType::Bool(c) => DataType::Bool(DataCell { ts: c.ts, val: c.val }),
        }
    }
}

impl DataType {
    pub fn timestamp(&self) -> (ts: i64)
        ensures
            ts == self@.ts,
    {
        match self {
            DataType::U64(c) => c.ts,
            DataType::I64(c) => c.ts,
            DataType::Str(c) => c.ts,
            DataType::F64(c) => c.ts,
            DataType::Bool(c) => c.ts,
        }
    }

    /// The scalar type of the sample; never `Unknown`.
    pub fn value_type(&self) -> (t: ValueType)
        ensures
            t == self@.value_type(),
            t != ValueType::Unknown,
    {
        match self {
            DataType::U64(_) => ValueType::Unsigned,
            DataType::I64(_) => ValueType::Integer,
            DataType::Str(_) => ValueType::String,
            DataType::F64(_) => ValueType::Float,
            DataType::Bool(_) => ValueType::Boolean,
        }
    }

    /// Bytes that the sample takes, capped at `u64::MAX`.
    pub fn size(&self) -> (n: u64)
        ensures
            n == if self@.byte_size() <= u64::MAX { self@.byte_size() } else { u64::MAX as nat },
    {
        match self {
            DataType::U64(_) => 16,
            DataType::I64(_) => 16,
            DataType::Str(c) => (c.val.len() as u64).saturating_add(8),
            DataType::F64(_) => 16,
            DataType::Bool(_) => 9,
        }
    }
}

/// The samples of `cells` as contracts speak of them, in the same order.
pub open spec fn cell_views(cells: Seq<DataType>) -> Seq<Cell> {
    cells.map_values(|d: DataType| d@)
}

/// The buffer of one field: its samples in arrival order, the bounds of
/// their timestamps and their type.
#[derive(Debug)]
pub struct MemEntry {
    ts_min: i64,
    ts_max: i64,
    field_type: ValueType,
    cells: Vec<DataType>,
}

impl View for MemEntry {
    type V = MemEntryView;

    closed spec fn view(&self) -> MemEntryView {
        MemEntryView {
            ts_min: self.ts_min,
            ts_max: self.ts_max,
            field_type: self.field_type,
            cells: cell_views(self.cells@),
        }
    }
}

impl Default for MemEntry {
    fn default() -> (r: Self)
        ensures
            r@ == MemEntryView::empty(),
    {
        let r = MemEntry {
            ts_min: i64::MAX,
            ts_max: i64::MIN,
            field_type: ValueType::Unknown,
            cells: Vec::new(),
        };
        assert(cell_views(r.cells@) =~= Seq::<Cell>::empty());
        r
    }
}

impl MemEntry {
    /// The least timestamp ever inserted; `i64::MAX` before the first.
    pub fn ts_min(&self) -> (t: i64)
        ensures
            t == self@.ts_min,
    {
        self.ts_min
    }

    /// The greatest timestamp ever inserted; `i64::MIN` before the first.
    pub fn ts_max(&self) -> (t: i64)
        ensures
            t == self@.ts_max,
    {
        self.ts_max
    }

    /// The type of the samples; `Unknown` before the first.
    pub fn field_type(&self) -> (t: ValueType)
        ensures
            t == self@.field_type,
    {
        self.field_type
    }

    /// The samples, in the order the buffer holds them.
    pub fn cells(&self) -> (r: &Vec<DataType>)
        ensures
            cell_views(r@) == self@.cells,
    {
        &self.cells
    }

    /// Appends `cell` if the buffer takes it, and widens the bounds. A
    /// sample of another type than the buffer's is refused and changes
    /// nothing.
    pub fn insert(&mut self, cell: DataType) -> (r: Result<(), Error>)
        requires
            old(self)@.wf(),
        ensures
            final(self)@.wf(),
            old(self)@.accepts(cell@) ==> r is Ok && final(self)@ == old(self)@.insert(cell@),
            !old(self)@.accepts(cell@) ==> r == Err::<(), Error>(Error::UnsupportedType)
                && final(self)@ == old(self)@,
    {
        let value_type = cell.value_type();
        if self.field_type != ValueType::Unknown && self.field_type != value_type {
            return Err(Error::UnsupportedType);
        }
        let ts = cell.timestamp();
        if self.ts_max < ts {
            self.ts_max = ts;
        }
        if self.ts_min > ts {
            self.ts_min = ts;
        }
        self.field_type = value_type;
        self.cells.push(cell);
        proof {
            assert(cell_views(self.cells@) =~= old(self)@.cells.push(cell@));
            old(self)@.lemma_insert_wf(cell@);
        }
        Ok(())
    }

    /// Deletes the samples whose timestamps lie inside `range`, both
    /// ends included. The bounds stay as they are.
    pub fn delete_range(&mut self, range: &TimeRange)
        requires
            old(self)@.wf(),
        ensures
            final(self)@.wf(),
            final(self)@ == old(self)@.delete_range(*range),
    {
        let mut all: Vec<DataType> = Vec::new();
        core::mem::swap(&mut self.cells, &mut all);
        let ghost before = cell_views(all@);
        let mut kept: Vec<DataType> = Vec::new();
        proof {
            reveal(Seq::filter);
            assert(cell_views(kept@) =~= Seq::<Cell>::empty());
            assert(before.take(0) =~= Seq::<Cell>::empty());
        }
        for c in it: all
            invariant
                before == cell_views(it.seq()),
                cell_views(kept@) == delete_range(before.take(it.index()), *range),
        {
            let ghost n = it.index();
            let ts = c.timestamp();
            proof {
                assert(before.take(n + 1).drop_last() =~= before.take(n));
                assert(before.take(n + 1).last() == c@);
                before.take(n).lemma_filter_push(c@, outside(*range));
                assert(before.take(n).push(c@) =~= before.take(n + 1));
            }
            if ts < range.min_ts || ts > range.max_ts {
                kept.push(c);
                assert(cell_views(kept@) =~= delete_range(before.take(n), *range).push(c@));
            }
        }
        proof {
            assert(before.take(before.len() as int) =~= before);
            old(self)@.lemma_delete_range_wf(*range);
        }
        self.cells = kept;
    }

    /// Whether the bounds of the buffer and `range` overlap.
    pub fn overlap(&self, range: &TimeRange) -> (b: bool)
        ensures
            b == self@.overlap(*range),
    {
        range.min_ts <= self.ts_max && range.max_ts >= self.ts_min
    }

    /// Sorts the samples by time; samples of equal time keep their
    /// arrival order.
    pub fn sort(&mut self)
        requires
            old(self)@.wf(),
        ensures
            final(self)@.wf(),
            final(self)@ == old(self)@.sort(),
    {
        let mut all: Vec<DataType> = Vec::new();
        core::mem::swap(&mut self.cells, &mut all);
        self.cells = sort_cells(all);
        proof {
            old(self)@.lemma_sort_wf();
        }
    }

    /// Copies of the samples whose timestamps lie inside `time_range`,
    /// both ends included, in the order the buffer holds them.
    pub fn read_cell(&self, time_range: &TimeRange) -> (r: Vec<DataType>)
        ensures
            cell_views(r@) == read_range(self@.cells, *time_range),
    {
        let ghost all = cell_views(self.cells@);
        let mut found: Vec<DataType> = Vec::new();
        let mut i: usize = 0;
        proof {
            reveal(Seq::filter);
            assert(cell_views(found@) =~= Seq::<Cell>::empty());
            assert(all.take(0) =~= Seq::<Cell>::empty());
        }
        while i < self.cells.len()
            invariant
                i <= self.cells.len(),
                all == cell_views(self.cells@),
                cell_views(found@) == read_range(all.take(i as int), *time_range),
            decreases self.cells.len() - i,
        {
            let ts = self.cells[i].timestamp();
            proof {
                all.take(i as int).lemma_filter_push(all[i as int], inside(*time_range));
                assert(all.take(i as int).push(all[i as int]) =~= all.take(i + 1));
            }
            if time_range.min_ts <= ts && ts <= time_range.max_ts {
                let copy = self.cells[i].clone();
                found.push(copy);
                assert(cell_views(found@) =~= read_range(all.take(i as int), *time_range).push(
                    all[i as int],
                ));
            }
            i += 1;
        }
        assert(all.take(i as int) =~= all);
        found
    }
}

/// The buffers of `m` as contracts speak of them.
pub open spec fn entry_views(m: Map<FieldId, MemEntry>) -> Map<FieldId, MemEntryView> {
    m.map_values(|e: MemEntry| e@)
}

/// The samples of one time-series family that wait in memory, field by
/// field.
#[derive(Debug)]
pub struct MemCache {
    immutable: bool,
    tf_id: u32,
    seq_no: u64,
    max_buf_size: u64,
    data_cache: HashMap<FieldId, MemEntry>,
    cache_size: u64,
    is_delta: bool,
}

impl View for MemCache {
    type V = MemCacheView;

    closed spec fn view(&self) -> MemCacheView {
        MemCacheView {
            immutable: self.immutable,
            tf_id: self.tf_id,
            seq_no: self.seq_no,
            max_buf_size: self.max_buf_size,
            is_delta: self.is_delta,
            data_cache: entry_views(self.data_cache@),
            cache_size: self.cache_size,
        }
    }
}

impl MemCache {
    /// An empty cache for family `tf_id` with a budget of `max_size`
    /// bytes, which has seen the log up to `seq`.
    pub fn new(tf_id: u32, max_size: u64, seq: u64, is_delta: bool) -> (r: Self)
        ensures
            r@ == MemCacheView::new(tf_id, max_size, seq, is_delta),
            r@.wf(),
    {
        let r = Self {
            immutable: false,
            tf_id,
            max_buf_size: max_size,
            data_cache: HashMap::new(),
            seq_no: seq,
            cache_size: 0,
            is_delta,
        };
        assert(entry_views(r.data_cache@) =~= Map::<FieldId, MemEntryView>::empty());
        r
    }

    /// Decodes `buf` as a sample of type `field_type` at time `ts`.
    pub fn decode(field_type: ValueType, ts: Timestamp, buf: &[u8]) -> (r: Result<DataType, Error>)
        ensures
            match decode_cell(field_type, ts, buf@) {
                Ok(c) => r is Ok && r->Ok_0@ == c,
                Err(e) => r == Err::<DataType, Error>(e),
            },
    {
        match field_type {
            ValueType::Unsigned => {
                match decode_be_u64(buf) {
                    Ok(val) => Ok(DataType::U64(U64Cell { ts, val })),
                    Err(e) => Err(e),
                }
            },
            ValueType::Integer => {
                match decode_be_i64(buf) {
                    Ok(val) => Ok(DataType::I64(I64Cell { ts, val })),
                    Err(e) => Err(e),
                }
            },
            ValueType::Float => {
                match decode_be_u64(buf) {
                    Ok(val) => Ok(DataType::F64(F64Cell { ts, val })),
                    Err(e) => Err(e),
                }
            },
            ValueType::String => {
                let val = slice_to_vec(buf);
                Ok(DataType::Str(StrCell { ts, val }))
            },
            ValueType::Boolean => {
                match decode_be_bool(buf) {
                    Ok(val) => Ok(DataType::Bool(BoolCell { ts, val })),
                    Err(e) => Err(e),
                }
            },
            ValueType::Unknown => Err(Error::UnsupportedType),
        }
    }

    /// Decodes `buf` as a sample of type `field_type` at time `ts`,
    /// inserts it into the buffer of `field_id` and records `seq`. When
    /// it fails the cache is left as it was.
    pub fn insert_raw(
        &mut self,
        seq: u64,
        field_id: FieldId,
        ts: Timestamp,
        field_type: ValueType,
        buf: &[u8],
    ) -> (r: Result<(), Error>)
        requires
            old(self)@.wf(),
        ensures
            final(self)@.wf(),
            match old(self)@.try_insert_raw(seq, field_id, ts, field_type, buf@) {
                Ok(next) => r is Ok && final(self)@ == next,
                Err(e) => r == Err::<(), Error>(e) && final(self)@ == old(self)@,
            },
    {
        let data = match Self::decode(field_type, ts, buf) {
            Ok(data) => data,
            Err(e) => {
                return Err(e);
            },
        };
        match self.insert(field_id, data, field_type) {
            Ok(()) => {
                self.seq_no = seq;
                Ok(())
            },
            Err(e) => Err(e),
        }
    }

    /// Appends `val` to the buffer of `field_id`, which is created if the
    /// cache has none, and adds the bytes of `val` to the size. When it
    /// fails the cache is left as it was.
    pub fn insert(&mut self, field_id: FieldId, val: DataType, value_type: ValueType) -> (r: Result<
        (),
        Error,
    >)
        requires
            old(self)@.wf(),
        ensures
            final(self)@.wf(),
            match old(self)@.try_insert(field_id, val@, value_type) {
                Ok(next) => r is Ok && final(self)@ == next,
                Err(e) => r == Err::<(), Error>(e) && final(self)@ == old(self)@,
            },
    {
        broadcast use vstd::std_specs::hash::group_hash_axioms;

        if self.immutable {
            return Err(Error::CacheFrozen);
        }
        if value_type != val.value_type() {
            return Err(Error::UnsupportedType);
        }
        let size = val.size();
        let ghost c = val@;
        let ghost before = self.data_cache@;
        let item = self.data_cache.entry(field_id).or_insert(MemEntry::default());
        assert(item@ == old(self)@.entry(field_id));
        match item.insert(val) {
            Ok(()) => {},
            Err(e) => {
                assert(entry_views(self.data_cache@) =~= entry_views(before));
                return Err(e);
            },
        }
        self.cache_size = self.cache_size.saturating_add(size);
        proof {
            assert(entry_views(self.data_cache@) =~= old(self)@.insert_cell(
                field_id,
                c,
            ).data_cache);
            old(self)@.lemma_try_insert_wf(field_id, c, value_type);
        }
        Ok(())
    }
}

/// A copy of the bytes of `s`.
fn slice_to_vec(s: &[u8]) -> (v: Vec<u8>)
    ensures
        v@ == s@,
{
    let mut v: Vec<u8> = Vec::with_capacity(s.len());
    let mut i: usize = 0;
    while i < s.len()
        invariant
            i <= s.len(),
            v@ == s@.take(i as int),
        decreases s.len() - i,
    {
        v.push(s[i]);
        assert(s@.take(i as int).push(s@[i as int]) =~= s@.take(i + 1));
        i += 1;
    }
    assert(s@.take(i as int) =~= s@);
    v
}

impl MemCache {
    /// The fields that have a buffer, each once, in no particular order.
    pub fn field_ids(&self) -> (ids: Vec<FieldId>)
        ensures
            ids@.no_duplicates(),
            forall|k: FieldId| ids@.contains(k) <==> self@.data_cache.contains_key(k),
    {
        broadcast use vstd::std_specs::hash::group_hash_axioms;

        let mut ids: Vec<FieldId> = Vec::new();
        let ghost keys = vstd::std_specs::hash::spec_keys_iter(&self.data_cache).remaining();
        proof {
            vstd::std_specs::hash::axiom_spec_keys_iter(&self.data_cache);
        }
        for k in it: self.data_cache.keys()
            invariant
                it.seq() == keys,
                ids@.len() == it.index(),
                forall|i: int| 0 <= i < it.index() ==> #[trigger] ids@[i] == *keys[i],
        {
            ids.push(*k);
        }
        proof {
            assert(ids@ =~= keys.unref());
            assert(entry_views(self.data_cache@).dom() =~= self.data_cache@.dom());
            assert forall|k: FieldId| ids@.contains(k) <==> self@.data_cache.contains_key(k) by {
                assert(ids@.contains(k) <==> ids@.to_set().contains(k));
            }
        }
        ids
    }
}

impl MemCache {
    /// Deletes the samples inside `range` from the buffers of the fields
    /// in `field_ids`. Fields without a buffer are passed over.
    pub fn delete_range(&mut self, field_ids: &[FieldId], range: &TimeRange)
        requires
            old(self)@.wf(),
        ensures
            final(self)@.wf(),
            final(self)@ == old(self)@.delete_range(field_ids@, *range),
    {
        broadcast use vstd::std_specs::hash::group_hash_axioms;

        let ghost before = self@;
        let mut i: usize = 0;
        proof {
            assert(before.delete_range(field_ids@.take(0), *range).data_cache
                =~= before.data_cache);
        }
        while i < field_ids.len()
            invariant
                i <= field_ids.len(),
                before == old(self)@,
                before.wf(),
                self@ == before.delete_range(field_ids@.take(i as int), *range),
            decreases field_ids.len() - i,
        {
            let fid = field_ids[i];
            let ghost done = field_ids@.take(i as int);
            let ghost map_before = self.data_cache@;
            proof {
                before.lemma_delete_range_wf(done, *range);
            }
            match self.data_cache.entry(fid) {
                Entry::Occupied(o) => {
                    let entry = o.into_mut();
                    assert(map_before.contains_key(fid));
                    assert(before.delete_range(done, *range).data_cache.contains_key(fid));
                    assert(entry@ == before.delete_range(done, *range).data_cache[fid]);
                    if entry.overlap(range) {
                        entry.delete_range(range);
                    } else {
                        proof {
                            entry@.lemma_delete_range_no_overlap(*range);
                        }
                    }
                },
                Entry::Vacant(_) => {},
            }
            proof {
                if map_before.contains_key(fid) {
                    assert(self.data_cache@.dom() =~= map_before.dom());
                    assert(self.data_cache@[fid]@ == map_before[fid]@.delete_range(*range));
                    assert(forall|k: FieldId|
                        k != fid && map_before.contains_key(k) ==> self.data_cache@[k]
                            == map_before[k]);
                } else {
                    assert(self.data_cache@ =~= map_before);
                }
                let next = field_ids@.take(i + 1);
                assert(next =~= done.push(fid));
                assert forall|k: FieldId| next.contains(k) <==> (done.contains(k) || k == fid) by {
                    if done.contains(k) {
                        let m = choose|m: int| 0 <= m < done.len() && done[m] == k;
                        assert(next[m] == k);
                    }
                    if k == fid {
                        assert(next[i as int] == fid);
                    }
                }
                if before.data_cache.contains_key(fid) {
                    crate::cells::lemma_delete_range_idempotent(before.data_cache[fid].cells, *range);
                }
                assert(self@.data_cache =~= before.delete_range(next, *range).data_cache);
            }
            i += 1;
        }
        proof {
            assert(field_ids@.take(i as int) =~= field_ids@);
            before.lemma_delete_range_wf(field_ids@, *range);
        }
    }
}

impl MemCache {
    /// Deletes the samples inside `range` from every buffer.
    pub fn delete_data(&mut self, range: &TimeRange)
        requires
            old(self)@.wf(),
        ensures
            final(self)@.wf(),
            final(self)@ == old(self)@.delete_data(*range),
    {
        let ids = self.field_ids();
        self.delete_range(ids.as_slice(), range);
        proof {
            assert(old(self)@.delete_range(ids@, *range).data_cache =~= old(self)@.delete_data(
                *range,
            ).data_cache);
        }
    }

    /// Freezes the cache: sorts every buffer by time and takes no more
    /// samples from then on. A frozen cache is left as it is.
    pub fn switch_to_immutable(&mut self)
        requires
            old(self)@.wf(),
        ensures
            final(self)@.wf(),
            final(self)@ == old(self)@.freeze(),
    {
        broadcast use vstd::std_specs::hash::group_hash_axioms;

        if self.immutable {
            return ;
        }
        let ghost before = self@;
        let ids = self.field_ids();
        let mut i: usize = 0;
        while i < ids.len()
            invariant
                i <= ids.len(),
                before == old(self)@,
                before.wf(),
                !self.immutable,
                ids@.no_duplicates(),
                forall|k: FieldId| ids@.contains(k) <==> before.data_cache.contains_key(k),
                self@.immutable == before.immutable,
                self@.tf_id == before.tf_id,
                self@.seq_no == before.seq_no,
                self@.max_buf_size == before.max_buf_size,
                self@.is_delta == before.is_delta,
                self@.cache_size == before.cache_size,
                self@.data_cache.dom() == before.data_cache.dom(),
                forall|j: int|
                    0 <= j < i ==> self@.data_cache[#[trigger] ids@[j]]
                        == before.data_cache[ids@[j]].sort(),
                forall|j: int|
                    i <= j < ids.len() ==> self@.data_cache[#[trigger] ids@[j]]
                        == before.data_cache[ids@[j]],
            decreases ids.len() - i,
        {
            let fid = ids[i];
            let ghost map_before = self.data_cache@;
            assert(ids@.contains(fid));
            assert(before.data_cache.contains_key(fid));
            assert(self@.data_cache.contains_key(fid));
            assert(map_before.contains_key(fid));
            match self.data_cache.entry(fid) {
                Entry::Occupied(o) => {
                    let entry = o.into_mut();
                    assert(entry@ == before.data_cache[fid]);
                    entry.sort();
                },
                Entry::Vacant(_) => {},
            }
            proof {
                assert(self.data_cache@.dom() =~= map_before.dom());
                assert(self.data_cache@[fid]@ == before.data_cache[fid].sort());
                assert(forall|k: FieldId|
                    k != fid && map_before.contains_key(k) ==> self.data_cache@[k]
                        == map_before[k]);
                assert(self@.data_cache.dom() =~= before.data_cache.dom());
                assert forall|j: int| 0 <= j < i + 1 implies self@.data_cache[#[trigger] ids@[j]]
                    == before.data_cache[ids@[j]].sort() by {
                    if j < i {
                        assert(ids@[j] != fid);
                        assert(map_before.contains_key(ids@[j])) by {
                            assert(ids@.contains(ids@[j]));
                        }
                        assert(entry_views(map_before)[ids@[j]] == before.data_cache[ids@[j]].sort());
                    }
                }
                assert forall|j: int| i + 1 <= j < ids.len() implies self@.data_cache[
                #[trigger] ids@[j]] == before.data_cache[ids@[j]] by {
                    assert(ids@[j] != fid);
                    assert(map_before.contains_key(ids@[j])) by {
                        assert(ids@.contains(ids@[j]));
                    }
                    assert(entry_views(map_before)[ids@[j]] == before.data_cache[ids@[j]]);
                }
            }
            i += 1;
        }
        self.immutable = true;
        proof {
            assert forall|k: FieldId| #[trigger] before.data_cache.contains_key(k) implies
                self@.data_cache[k] == before.data_cache[k].sort() by {
                assert(ids@.contains(k));
                let j = choose|j: int| 0 <= j < ids@.len() && ids@[j] == k;
                assert(self@.data_cache[ids@[j]] == before.data_cache[ids@[j]].sort());
            }
            assert(self@.data_cache =~= before.freeze().data_cache);
            before.lemma_freeze_wf();
        }
    }

    /// Nothing is written by the cache itself: flushing is the business
    /// of the flush pipeline, which is handed the frozen cache.
    pub fn flush() -> (r: Result<(), Error>)
        ensures
            r is Ok,
    {
        Ok(())
    }

    /// Whether the size has reached the budget.
    pub fn is_full(&self) -> (b: bool)
        ensures
            b == self@.is_full(),
    {
        self.cache_size >= self.max_buf_size
    }

    pub fn tf_id(&self) -> (id: u32)
        ensures
            id == self@.tf_id,
    {
        self.tf_id
    }

    pub fn max_buf_size(&self) -> (n: u64)
        ensures
            n == self@.max_buf_size,
    {
        self.max_buf_size
    }

    /// The sequence number recorded with the last sample inserted.
    pub fn seq_no(&self) -> (n: u64)
        ensures
            n == self@.seq_no,
    {
        self.seq_no
    }

    /// Bytes inserted so far, capped at `u64::MAX`.
    pub fn cache_size(&self) -> (n: u64)
        ensures
            n == self@.cache_size,
    {
        self.cache_size
    }

    /// Whether the cache holds late samples.
    pub fn is_delta(&self) -> (b: bool)
        ensures
            b == self@.is_delta,
    {
        self.is_delta
    }

    /// Whether the cache has been frozen.
    pub fn is_immutable(&self) -> (b: bool)
        ensures
            b == self@.immutable,
    {
        self.immutable
    }

    /// Whether no field has a buffer.
    pub fn is_empty(&self) -> (b: bool)
        ensures
            b == self@.data_cache.dom().is_empty(),
    {
        broadcast use vstd::std_specs::hash::group_hash_axioms;

        assert(entry_views(self.data_cache@).dom() =~= self.data_cache@.dom());
        self.data_cache.is_empty()
    }

    /// The buffer of field `field_id`, if the cache has one.
    pub fn get(&self, field_id: FieldId) -> (r: Option<&MemEntry>)
        ensures
            r is Some == self@.data_cache.contains_key(field_id),
            r matches Some(e) ==> e@ == self@.data_cache[field_id],
    {
        broadcast use vstd::std_specs::hash::group_hash_axioms;

        self.data_cache.get(&field_id)
    }
}

} // verus!
