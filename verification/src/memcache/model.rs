//! Samples, buffers and caches as contracts speak of them: what each
//! operation makes of them, and what holds of them whatever is done.

use vstd::prelude::*;
use crate::byte_utils::{be_bool, be_i64, be_u64};
use crate::cells::{delete_range, lemma_delete_range_result, lemma_sort_by_ts, sort_by_ts, sorted_by_ts};
use crate::error::Error;
use crate::models::{FieldId, Timestamp, ValueType};
use crate::tseries_family::TimeRange;

verus! {

/// The value of a sample, as contracts speak of it.
pub enum Payload {
    U64(u64),
    I64(i64),
    Str(Seq<u8>),
    F64(u64),
    Bool(bool),
}

impl Payload {
    pub open spec fn value_type(self) -> ValueType {
        match self {
            Payload::U64(_) => ValueType::Unsigned,
            Payload::I64(_) => ValueType::Integer,
            Payload::Str(_) => ValueType::String,
            Payload::F64(_) => ValueType::Float,
            Payload::Bool(_) => ValueType::Boolean,
        }
    }

    /// Bytes that the value takes: eight for a number, one for a truth
    /// value, its length for a byte string.
    pub open spec fn byte_len(self) -> nat {
        match self {
            Payload::U64(_) => 8,
            Payload::I64(_) => 8,
            Payload::Str(s) => s.len(),
            Payload::F64(_) => 8,
            Payload::Bool(_) => 1,
        }
    }
}

/// A sample, as contracts speak of it: the view of a `DataType`.
pub struct Cell {
    pub ts: i64,
    pub val: Payload,
}

impl Cell {
    pub open spec fn value_type(self) -> ValueType {
        self.val.value_type()
    }

    /// Bytes that the sample takes: eight for the timestamp, and the value.
    pub open spec fn byte_size(self) -> nat {
        8 + self.val.byte_len()
    }
}

/// A field's buffer as contracts speak of it.
pub struct MemEntryView {
    pub ts_min: i64,
    pub ts_max: i64,
    pub field_type: ValueType,
    pub cells: Seq<Cell>,
}

impl MemEntryView {
    /// The invariant of a buffer: every sample lies within the bounds and
    /// has the buffer's type.
    pub open spec fn wf(self) -> bool {
        forall|i: int|
            0 <= i < self.cells.len() ==> {
                let c = #[trigger] self.cells[i];
                self.ts_min <= c.ts && c.ts <= self.ts_max && c.value_type() == self.field_type
            }
    }

    /// The buffer of a field that has received nothing yet.
    pub open spec fn empty() -> MemEntryView {
        MemEntryView {
            ts_min: i64::MAX,
            ts_max: i64::MIN,
            field_type: ValueType::Unknown,
            cells: Seq::empty(),
        }
    }

    /// Whether the buffer takes `c`: it has no type yet, or `c` has its
    /// type.
    pub open spec fn accepts(self, c: Cell) -> bool {
        self.field_type == ValueType::Unknown || self.field_type == c.value_type()
    }

    /// The buffer with `c` appended and the bounds widened to hold it.
    pub open spec fn insert(self, c: Cell) -> MemEntryView {
        MemEntryView {
            ts_min: if c.ts < self.ts_min {
                c.ts
            } else {
                self.ts_min
            },
            ts_max: if c.ts > self.ts_max {
                c.ts
            } else {
                self.ts_max
            },
            field_type: c.value_type(),
            cells: self.cells.push(c),
        }
    }

    /// The buffer without the samples inside `r`. The bounds stay as
    /// they are.
    pub open spec fn delete_range(self, r: TimeRange) -> MemEntryView {
        MemEntryView { cells: delete_range(self.cells, r), ..self }
    }

    /// Whether the bounds of the buffer and `r` overlap.
    pub open spec fn overlap(self, r: TimeRange) -> bool {
        r.min_ts <= self.ts_max && r.max_ts >= self.ts_min
    }

    /// Whether the samples are in ascending order of time.
    pub open spec fn sorted(self) -> bool {
        sorted_by_ts(self.cells)
    }

    /// The buffer with its samples sorted by time, samples of equal time
    /// in arrival order.
    pub open spec fn sort(self) -> MemEntryView {
        MemEntryView { cells: sort_by_ts(self.cells), ..self }
    }

    /// Inserting an accepted sample keeps the invariant.
    pub proof fn lemma_insert_wf(self, c: Cell)
        requires
            self.wf(),
            self.accepts(c),
        ensures
            self.insert(c).wf(),
    {
        let next = self.insert(c);
        assert forall|i: int| 0 <= i < next.cells.len() implies {
            let x = #[trigger] next.cells[i];
            next.ts_min <= x.ts && x.ts <= next.ts_max && x.value_type() == next.field_type
        } by {
            if i < self.cells.len() {
                assert(next.cells[i] == self.cells[i]);
            }
        }
    }

    /// Deleting keeps the invariant, and keeps sorted samples sorted.
    pub proof fn lemma_delete_range_wf(self, r: TimeRange)
        requires
            self.wf(),
        ensures
            self.delete_range(r).wf(),
            self.sorted() ==> self.delete_range(r).sorted(),
    {
        lemma_delete_range_result(self.cells, r);
        let next = self.delete_range(r);
        assert forall|i: int| 0 <= i < next.cells.len() implies {
            let x = #[trigger] next.cells[i];
            next.ts_min <= x.ts && x.ts <= next.ts_max && x.value_type() == next.field_type
        } by {
            let x = next.cells[i];
            assert(self.cells.contains(x));
            let k = choose|k: int| 0 <= k < self.cells.len() && self.cells[k] == x;
            assert(self.cells[k] == x);
        }
    }

    /// A range that the bounds do not overlap deletes nothing.
    pub proof fn lemma_delete_range_no_overlap(self, r: TimeRange)
        requires
            self.wf(),
            !self.overlap(r),
        ensures
            self.delete_range(r) == self,
    {
        crate::cells::lemma_delete_range_disjoint(self.cells, r);
    }

    /// Sorting keeps the invariant and leaves the samples sorted.
    pub proof fn lemma_sort_wf(self)
        requires
            self.wf(),
        ensures
            self.sort().wf(),
            self.sort().sorted(),
            self.sort().cells.len() == self.cells.len(),
    {
        lemma_sort_by_ts(self.cells);
        let next = self.sort();
        assert forall|i: int| 0 <= i < next.cells.len() implies {
            let x = #[trigger] next.cells[i];
            next.ts_min <= x.ts && x.ts <= next.ts_max && x.value_type() == next.field_type
        } by {
            let x = next.cells[i];
            assert(self.cells.contains(x));
            let k = choose|k: int| 0 <= k < self.cells.len() && self.cells[k] == x;
            assert(self.cells[k] == x);
        }
    }
}

/// The sample that `buf` spells for a field of type `field_type` at time
/// `ts`: numbers are read from the first eight bytes, most significant
/// byte first, a float as its bit pattern; a truth value is read from
/// the first byte; a string takes the whole buffer.
pub open spec fn decode_cell(field_type: ValueType, ts: Timestamp, buf: Seq<u8>) -> Result<
    Cell,
    Error,
> {
    match field_type {
        ValueType::Unknown => Err(Error::UnsupportedType),
        ValueType::Unsigned => if buf.len() < 8 {
            Err(Error::DecodeErr)
        } else {
            Ok(Cell { ts, val: Payload::U64(be_u64(buf) as u64) })
        },
        ValueType::Integer => if buf.len() < 8 {
            Err(Error::DecodeErr)
        } else {
            Ok(Cell { ts, val: Payload::I64(be_i64(buf) as i64) })
        },
        ValueType::Float => if buf.len() < 8 {
            Err(Error::DecodeErr)
        } else {
            Ok(Cell { ts, val: Payload::F64(be_u64(buf) as u64) })
        },
        ValueType::Boolean => if buf.len() < 1 {
            Err(Error::DecodeErr)
        } else {
            Ok(Cell { ts, val: Payload::Bool(be_bool(buf)) })
        },
        ValueType::String => Ok(Cell { ts, val: Payload::Str(buf) }),
    }
}

/// A memory cache as contracts speak of it.
pub struct MemCacheView {
    pub immutable: bool,
    pub tf_id: u32,
    pub seq_no: u64,
    pub max_buf_size: u64,
    pub is_delta: bool,
    pub data_cache: Map<FieldId, MemEntryView>,
    pub cache_size: u64,
}

impl MemCacheView {
    /// The invariant of a cache: every buffer meets its own invariant,
    /// and in a frozen cache every buffer is sorted by time.
    pub open spec fn wf(self) -> bool {
        &&& self.data_cache.dom().finite()
        &&& forall|k: FieldId| #[trigger]
            self.data_cache.contains_key(k) ==> self.data_cache[k].wf()
        &&& self.immutable ==> forall|k: FieldId| #[trigger]
            self.data_cache.contains_key(k) ==> self.data_cache[k].sorted()
    }

    /// A cache that holds nothing and takes samples.
    pub open spec fn new(tf_id: u32, max_size: u64, seq: u64, is_delta: bool) -> MemCacheView {
        MemCacheView {
            immutable: false,
            tf_id,
            seq_no: seq,
            max_buf_size: max_size,
            is_delta,
            data_cache: Map::empty(),
            cache_size: 0,
        }
    }

    /// The buffer of field `field_id`; the empty buffer if the cache has
    /// none for it.
    pub open spec fn entry(self, field_id: FieldId) -> MemEntryView {
        if self.data_cache.contains_key(field_id) {
            self.data_cache[field_id]
        } else {
            MemEntryView::empty()
        }
    }

    /// The cache with `c` appended to the buffer of `field_id`, and the
    /// bytes of `c` added to the size, which stops at `u64::MAX`.
    pub open spec fn insert_cell(self, field_id: FieldId, c: Cell) -> MemCacheView {
        MemCacheView {
            data_cache: self.data_cache.insert(field_id, self.entry(field_id).insert(c)),
            cache_size: if self.cache_size + c.byte_size() <= u64::MAX {
                (self.cache_size + c.byte_size()) as u64
            } else {
                u64::MAX
            },
            ..self
        }
    }

    /// What inserting `c` as a sample of type `value_type` comes to. A
    /// frozen cache refuses with `CacheFrozen`. A sample whose type is not
    /// `value_type`, or not the type of the field's buffer, is refused
    /// with `UnsupportedType`.
    pub open spec fn try_insert(self, field_id: FieldId, c: Cell, value_type: ValueType) -> Result<
        MemCacheView,
        Error,
    > {
        if self.immutable {
            Err(Error::CacheFrozen)
        } else if value_type != c.value_type() || !self.entry(field_id).accepts(c) {
            Err(Error::UnsupportedType)
        } else {
            Ok(self.insert_cell(field_id, c))
        }
    }

    /// What inserting the sample that `buf` spells comes to: the buffer
    /// is decoded first, then the sample is inserted and `seq` recorded.
    pub open spec fn try_insert_raw(
        self,
        seq: u64,
        field_id: FieldId,
        ts: Timestamp,
        field_type: ValueType,
        buf: Seq<u8>,
    ) -> Result<MemCacheView, Error> {
        match decode_cell(field_type, ts, buf) {
            Err(e) => Err(e),
            Ok(c) => match self.try_insert(field_id, c, field_type) {
                Err(e) => Err(e),
                Ok(next) => Ok(MemCacheView { seq_no: seq, ..next }),
            },
        }
    }

    /// Whether the size has reached the budget.
    pub open spec fn is_full(self) -> bool {
        self.cache_size >= self.max_buf_size
    }

    /// Inserting keeps the invariant.
    pub proof fn lemma_try_insert_wf(self, field_id: FieldId, c: Cell, value_type: ValueType)
        requires
            self.wf(),
        ensures
            self.try_insert(field_id, c, value_type) matches Ok(next) ==> next.wf(),
    {
        if self.try_insert(field_id, c, value_type) is Ok {
            self.entry(field_id).lemma_insert_wf(c);
        }
    }
}

impl MemCacheView {
    /// The cache after the samples inside `r` were deleted from the
    /// buffers of the fields in `field_ids`. Fields without a buffer are
    /// passed over.
    pub open spec fn delete_range(self, field_ids: Seq<FieldId>, r: TimeRange) -> MemCacheView {
        MemCacheView {
            data_cache: Map::new(
                |k: FieldId| self.data_cache.contains_key(k),
                |k: FieldId|
                    if field_ids.contains(k) {
                        self.data_cache[k].delete_range(r)
                    } else {
                        self.data_cache[k]
                    },
            ),
            ..self
        }
    }

    /// The cache after the samples inside `r` were deleted from every
    /// buffer.
    pub open spec fn delete_data(self, r: TimeRange) -> MemCacheView {
        MemCacheView {
            data_cache: Map::new(
                |k: FieldId| self.data_cache.contains_key(k),
                |k: FieldId| self.data_cache[k].delete_range(r),
            ),
            ..self
        }
    }

    /// The cache frozen: every buffer sorted by time, no more samples
    /// taken. A frozen cache stays as it is.
    pub open spec fn freeze(self) -> MemCacheView {
        if self.immutable {
            self
        } else {
            MemCacheView {
                immutable: true,
                data_cache: Map::new(
                    |k: FieldId| self.data_cache.contains_key(k),
                    |k: FieldId| self.data_cache[k].sort(),
                ),
                ..self
            }
        }
    }

    /// Deleting keeps the invariant.
    pub proof fn lemma_delete_range_wf(self, field_ids: Seq<FieldId>, r: TimeRange)
        requires
            self.wf(),
        ensures
            self.delete_range(field_ids, r).wf(),
            self.delete_data(r).wf(),
    {
        let a = self.delete_range(field_ids, r);
        let b = self.delete_data(r);
        assert(a.data_cache.dom() =~= self.data_cache.dom());
        assert(b.data_cache.dom() =~= self.data_cache.dom());
        assert forall|k: FieldId| #[trigger] self.data_cache.contains_key(k) implies
            self.data_cache[k].delete_range(r).wf() && (self.data_cache[k].sorted()
            ==> self.data_cache[k].delete_range(r).sorted()) by {
            self.data_cache[k].lemma_delete_range_wf(r);
        }
    }

    /// Freezing keeps the invariant and leaves every buffer sorted.
    pub proof fn lemma_freeze_wf(self)
        requires
            self.wf(),
        ensures
            self.freeze().wf(),
            self.freeze().immutable,
    {
        let a = self.freeze();
        assert(a.data_cache.dom() =~= self.data_cache.dom());
        assert forall|k: FieldId| #[trigger] self.data_cache.contains_key(k) implies
            self.data_cache[k].sort().wf() && self.data_cache[k].sort().sorted() by {
            self.data_cache[k].lemma_sort_wf();
        }
    }
}

/// Number of samples in the buffers of `m`.
pub open spec fn count_cells(m: Map<FieldId, MemEntryView>) -> nat
    decreases m.dom().len(),
    when m.dom().finite()
{
    if m.dom().is_empty() {
        0
    } else {
        let k = m.dom().choose();
        proof {
            lemma_remove_shrinks(m, k);
        }
        m[k].cells.len() + count_cells(m.remove(k))
    }
}

/// Taking a field away leaves one field less.
pub proof fn lemma_remove_shrinks(m: Map<FieldId, MemEntryView>, k: FieldId)
    requires
        m.dom().finite(),
        m.dom().contains(k),
    ensures
        m.remove(k).dom().finite(),
        m.remove(k).dom().len() == m.dom().len() - 1,
{
    assert(m.remove(k).dom() =~= m.dom().remove(k));
}

/// The count does not depend on the field it starts with.
pub proof fn lemma_count_cells_remove(m: Map<FieldId, MemEntryView>, k: FieldId)
    requires
        m.dom().finite(),
        m.contains_key(k),
    ensures
        count_cells(m) == m[k].cells.len() + count_cells(m.remove(k)),
    decreases m.dom().len(),
{
    let c = m.dom().choose();
    assert(m.dom().contains(c));
    lemma_remove_shrinks(m, c);
    lemma_remove_shrinks(m, k);
    if c != k {
        lemma_count_cells_remove(m.remove(c), k);
        assert(m.remove(k).contains_key(c));
        lemma_count_cells_remove(m.remove(k), c);
        assert(m.remove(c).remove(k) =~= m.remove(k).remove(c));
    }
}

/// Putting a buffer in place counts its samples in place of those that
/// the field had.
pub proof fn lemma_count_cells_insert(m: Map<FieldId, MemEntryView>, k: FieldId, e: MemEntryView)
    requires
        m.dom().finite(),
    ensures
        count_cells(m.insert(k, e)) == e.cells.len() + count_cells(m.remove(k)),
{
    lemma_count_cells_remove(m.insert(k, e), k);
    assert(m.insert(k, e).remove(k) =~= m.remove(k));
}

/// Two caches with the same fields and as many samples in each buffer
/// count the same.
pub proof fn lemma_count_cells_same_lengths(
    a: Map<FieldId, MemEntryView>,
    b: Map<FieldId, MemEntryView>,
)
    requires
        a.dom().finite(),
        a.dom() == b.dom(),
        forall|k: FieldId| #[trigger] a.contains_key(k) ==> a[k].cells.len() == b[k].cells.len(),
    ensures
        count_cells(a) == count_cells(b),
    decreases a.dom().len(),
{
    if !a.dom().is_empty() {
        let k = a.dom().choose();
        assert(a.contains_key(k));
        assert(b.contains_key(k));
        lemma_remove_shrinks(a, k);
        lemma_count_cells_remove(b, k);
        assert(a.remove(k).dom() =~= b.remove(k).dom());
        assert forall|j: FieldId| #[trigger] a.remove(k).contains_key(j) implies a.remove(k)[j].cells.len()
            == b.remove(k)[j].cells.len() by {
            assert(a.contains_key(j));
        }
        lemma_count_cells_same_lengths(a.remove(k), b.remove(k));
    }
}

impl MemCacheView {
    /// Number of samples in the cache.
    pub open spec fn cell_count(self) -> nat {
        count_cells(self.data_cache)
    }

    /// An inserted sample is one sample more.
    pub proof fn lemma_insert_counts_one(self, field_id: FieldId, c: Cell)
        requires
            self.wf(),
        ensures
            self.insert_cell(field_id, c).cell_count() == self.cell_count() + 1,
    {
        lemma_count_cells_insert(self.data_cache, field_id, self.entry(field_id).insert(c));
        if self.data_cache.contains_key(field_id) {
            lemma_count_cells_remove(self.data_cache, field_id);
        } else {
            assert(self.data_cache.remove(field_id) =~= self.data_cache);
        }
    }

    /// Freezing neither loses nor adds a sample.
    pub proof fn lemma_freeze_keeps_count(self)
        requires
            self.wf(),
        ensures
            self.freeze().cell_count() == self.cell_count(),
    {
        if !self.immutable {
            let f = self.freeze();
            assert(f.data_cache.dom() =~= self.data_cache.dom());
            assert forall|k: FieldId| #[trigger] self.data_cache.contains_key(k) implies
                self.data_cache[k].cells.len() == f.data_cache[k].cells.len() by {
                self.data_cache[k].lemma_sort_wf();
            }
            lemma_count_cells_same_lengths(self.data_cache, f.data_cache);
        }
    }
}

impl MemEntryView {
    /// Deleting a range twice leaves what deleting it once leaves.
    pub proof fn lemma_delete_range_idempotent(self, r: TimeRange)
        ensures
            self.delete_range(r).delete_range(r) == self.delete_range(r),
    {
        crate::cells::lemma_delete_range_idempotent(self.cells, r);
    }
}

impl MemCacheView {
    /// In a cache that meets its invariant every sample lies within the
    /// bounds of its buffer and has the type of its buffer.
    pub proof fn lemma_cells_within_bounds(self, field_id: FieldId, i: int)
        requires
            self.wf(),
            self.data_cache.contains_key(field_id),
            0 <= i < self.data_cache[field_id].cells.len(),
        ensures
            self.data_cache[field_id].ts_min <= self.data_cache[field_id].cells[i].ts,
            self.data_cache[field_id].cells[i].ts <= self.data_cache[field_id].ts_max,
            self.data_cache[field_id].cells[i].value_type() == self.data_cache[field_id].field_type,
    {
    }

    /// In a frozen cache no sample comes before an earlier one, whatever
    /// was deleted since it was frozen.
    pub proof fn lemma_frozen_sorted(self, field_id: FieldId, i: int, j: int)
        requires
            self.wf(),
            self.immutable,
            self.data_cache.contains_key(field_id),
            0 <= i <= j < self.data_cache[field_id].cells.len(),
        ensures
            self.data_cache[field_id].cells[i].ts <= self.data_cache[field_id].cells[j].ts,
    {
        assert(self.data_cache[field_id].sorted());
    }

    /// A frozen cache takes no sample.
    pub proof fn lemma_frozen_refuses(self, field_id: FieldId, c: Cell, value_type: ValueType)
        requires
            self.immutable,
        ensures
            self.try_insert(field_id, c, value_type) == Err::<MemCacheView, Error>(
                Error::CacheFrozen,
            ),
    {
    }

    /// Freezing twice is freezing once.
    pub proof fn lemma_freeze_idempotent(self)
        ensures
            self.freeze().freeze() == self.freeze(),
    {
    }

    /// An insertion records the sequence number that came with it, so
    /// the recorded number does not fall as long as the numbers that come
    /// do not.
    pub proof fn lemma_insert_raw_seq_no(
        self,
        seq: u64,
        field_id: FieldId,
        ts: Timestamp,
        field_type: ValueType,
        buf: Seq<u8>,
    )
        ensures
            self.try_insert_raw(seq, field_id, ts, field_type, buf) matches Ok(next) ==> next.seq_no
                == seq && (seq >= self.seq_no ==> next.seq_no >= self.seq_no),
    {
    }

    /// Deleting a range twice leaves what deleting it once leaves.
    pub proof fn lemma_delete_range_idempotent(self, field_ids: Seq<FieldId>, r: TimeRange)
        ensures
            self.delete_range(field_ids, r).delete_range(field_ids, r) == self.delete_range(
                field_ids,
                r,
            ),
            self.delete_data(r).delete_data(r) == self.delete_data(r),
    {
        assert forall|k: FieldId| #[trigger] self.data_cache.contains_key(k) implies
            self.data_cache[k].delete_range(r).delete_range(r) == self.data_cache[k].delete_range(
            r,
        ) by {
            self.data_cache[k].lemma_delete_range_idempotent(r);
        }
        assert(self.delete_range(field_ids, r).delete_range(field_ids, r).data_cache
            =~= self.delete_range(field_ids, r).data_cache);
        assert(self.delete_data(r).delete_data(r).data_cache =~= self.delete_data(r).data_cache);
    }
}

} // verus!
