//! `DataBlock`: one field's samples as parallel arrays of timestamps and
//! values, and the merge that lets later samples overwrite earlier ones.

use vstd::prelude::*;
use crate::memcache::{
    cell_views, BoolCell, Byte, Cell, DataType, F64Cell, I64Cell, Payload, StrCell, U64Cell,
};
use crate::models::ValueType;
use crate::tsm::merge::{
    columns_of, head, last_with_head, lemma_last_with_head, lemma_merge_single, lemma_min_head,
    lemma_pop_heads_shrinks, merge_cells, merge_views, min_head, pop_heads, skip_all, total_len,
};

verus! {

/// The samples of one field, column by column. Values of `F64` are held
/// as IEEE 754 bit patterns, as in `F64Cell`.
#[derive(Debug, Clone, PartialEq)]
pub enum DataBlock {
    U64 { ts: Vec<i64>, val: Vec<u64> },
    I64 { ts: Vec<i64>, val: Vec<i64> },
    Str { ts: Vec<i64>, val: Vec<Byte> },
    F64 { ts: Vec<i64>, val: Vec<u64> },
    Bool { ts: Vec<i64>, val: Vec<bool> },
}

/// A block as contracts speak of it: its scalar type and its samples in
/// storage order.
pub struct BlockView {
    pub field_type: ValueType,
    pub cells: Seq<Cell>,
}

impl BlockView {
    /// The block after `c` was offered to it: a sample of the block's type
    /// is appended, any other is ignored.
    pub open spec fn insert(self, c: Cell) -> BlockView {
        if c.value_type() == self.field_type {
            BlockView { field_type: self.field_type, cells: self.cells.push(c) }
        } else {
            self
        }
    }

    /// The block after the samples `cs` were offered to it one by one.
    pub open spec fn batch_insert(self, cs: Seq<Cell>) -> BlockView
        decreases cs.len(),
    {
        if cs.len() == 0 {
            self
        } else {
            self.batch_insert(cs.drop_last()).insert(cs.last())
        }
    }

    /// The block after slot `i` was overwritten with `c`: a sample of
    /// another type changes nothing.
    pub open spec fn set(self, i: int, c: Cell) -> BlockView {
        if c.value_type() == self.field_type {
            BlockView { field_type: self.field_type, cells: self.cells.update(i, c) }
        } else {
            self
        }
    }
}

impl DataBlock {
    /// The timestamps column.
    pub open spec fn spec_ts(&self) -> Seq<i64> {
        match *self {
            DataBlock::U64 { ts, .. } => ts@,
            DataBlock::I64 { ts, .. } => ts@,
            DataBlock::Str { ts, .. } => ts@,
            DataBlock::F64 { ts, .. } => ts@,
            DataBlock::Bool { ts, .. } => ts@,
        }
    }

    /// Number of entries in the values column.
    pub open spec fn spec_val_len(&self) -> nat {
        match *self {
            DataBlock::U64 { val, .. } => val@.len(),
            DataBlock::I64 { val, .. } => val@.len(),
            DataBlock::Str { val, .. } => val@.len(),
            DataBlock::F64 { val, .. } => val@.len(),
            DataBlock::Bool { val, .. } => val@.len(),
        }
    }

    /// The value in slot `i` of the values column.
    pub open spec fn spec_val(&self, i: int) -> Payload {
        match *self {
            DataBlock::U64 { val, .. } => Payload::U64(val@[i]),
            DataBlock::I64 { val, .. } => Payload::I64(val@[i]),
            DataBlock::Str { val, .. } => Payload::Str(val@[i]@),
            DataBlock::F64 { val, .. } => Payload::F64(val@[i]),
            DataBlock::Bool { val, .. } => Payload::Bool(val@[i]),
        }
    }

    pub open spec fn spec_field_type(&self) -> ValueType {
        match *self {
            DataBlock::U64 { .. } => ValueType::Unsigned,
            DataBlock::I64 { .. } => ValueType::Integer,
            DataBlock::Str { .. } => ValueType::String,
            DataBlock::F64 { .. } => ValueType::Float,
            DataBlock::Bool { .. } => ValueType::Boolean,
        }
    }

    /// A block is well formed when its two columns have the same length.
    pub open spec fn wf(&self) -> bool {
        self.spec_ts().len() == self.spec_val_len()
    }
}

impl View for DataBlock {
    type V = BlockView;

    open spec fn view(&self) -> BlockView {
        BlockView {
            field_type: self.spec_field_type(),
            cells: Seq::new(
                self.spec_ts().len(),
                |i: int| Cell { ts: self.spec_ts()[i], val: self.spec_val(i) },
            ),
        }
    }
}

impl DataBlock {
    /// An empty block of type `field_type`, with room for `size` samples.
    pub fn new(size: usize, field_type: ValueType) -> (r: Self)
        requires
            field_type != ValueType::Unknown,
        ensures
            r.wf(),
            r@ == (BlockView { field_type, cells: Seq::empty() }),
    {
        let r = match field_type {
            ValueType::Unsigned => {
                Self::U64 { ts: Vec::with_capacity(size), val: Vec::with_capacity(size) }
            },
            ValueType::Integer => {
                Self::I64 { ts: Vec::with_capacity(size), val: Vec::with_capacity(size) }
            },
            ValueType::Float => {
                Self::F64 { ts: Vec::with_capacity(size), val: Vec::with_capacity(size) }
            },
            ValueType::String => {
                Self::Str { ts: Vec::with_capacity(size), val: Vec::with_capacity(size) }
            },
            _ => {
                Self::Bool { ts: Vec::with_capacity(size), val: Vec::with_capacity(size) }
            },
        };
        assert(r@.cells =~= Seq::empty());
        r
    }

    /// Appends `data` if it has the block's type; ignores it otherwise.
    pub fn insert(&mut self, data: &DataType)
        requires
            old(self).wf(),
        ensures
            final(self).wf(),
            final(self)@ == old(self)@.insert(data@),
    {
        match data {
            DataType::Bool(item) => {
                if let Self::Bool { ts, val } = self {
                    ts.push(item.ts);
                    val.push(item.val);
                }
            },
            DataType::U64(item) => {
                if let Self::U64 { ts, val } = self {
                    ts.push(item.ts);
                    val.push(item.val);
                }
            },
            DataType::I64(item) => {
                if let Self::I64 { ts, val } = self {
                    ts.push(item.ts);
                    val.push(item.val);
                }
            },
            DataType::Str(item) => {
                if let Self::Str { ts, val } = self {
                    ts.push(item.ts);
                    val.push(item.val.clone());
                }
            },
            DataType::F64(item) => {
                if let Self::F64 { ts, val } = self {
                    ts.push(item.ts);
                    val.push(item.val);
                }
            },
        }
        assert(self@.cells =~= old(self)@.insert(data@).cells);
    }
}


impl DataBlock {
    /// The timestamps in slots `start` and `end - 1`.
    pub fn time_range(&self, start: usize, end: usize) -> (r: (i64, i64))
        requires
            start < self.spec_ts().len(),
            0 < end <= self.spec_ts().len(),
        ensures
            r.0 == self.spec_ts()[start as int],
            r.1 == self.spec_ts()[end - 1],
    {
        let ts = self.ts();
        (ts[start], ts[end - 1])
    }

    /// Offers the samples of `cells` to the block one by one.
    pub fn batch_insert(&mut self, cells: &[DataType])
        requires
            old(self).wf(),
        ensures
            final(self).wf(),
            final(self)@ == old(self)@.batch_insert(cell_views(cells@)),
    {
        let ghost views = cell_views(cells@);
        let mut i: usize = 0;
        assert(views.take(0) =~= Seq::<Cell>::empty());
        while i < cells.len()
            invariant
                i <= cells.len(),
                self.wf(),
                views == cell_views(cells@),
                self@ == old(self)@.batch_insert(views.take(i as int)),
            decreases cells.len() - i,
        {
            self.insert(&cells[i]);
            proof {
                let next = views.take(i + 1);
                assert(next.drop_last() =~= views.take(i as int));
                assert(next.last() == cells@[i as int]@);
            }
            i += 1;
        }
        assert(views.take(i as int) =~= views);
    }

    /// Number of samples, counted on the timestamps column.
    pub fn len(&self) -> (n: usize)
        ensures
            n == self.spec_ts().len(),
            n == self@.cells.len(),
    {
        match &self {
            Self::U64 { ts, .. } => ts.len(),
            Self::I64 { ts, .. } => ts.len(),
            Self::F64 { ts, .. } => ts.len(),
            Self::Str { ts, .. } => ts.len(),
            Self::Bool { ts, .. } => ts.len(),
        }
    }

    /// The scalar type of the block; never `Unknown`.
    pub fn field_type(&self) -> (t: ValueType)
        ensures
            t == self@.field_type,
            t != ValueType::Unknown,
    {
        match &self {
            DataBlock::U64 { .. } => ValueType::Unsigned,
            DataBlock::I64 { .. } => ValueType::Integer,
            DataBlock::Str { .. } => ValueType::String,
            DataBlock::F64 { .. } => ValueType::Float,
            DataBlock::Bool { .. } => ValueType::Boolean,
        }
    }

    /// A sample of the block's type at timestamp 0, with the zero value
    /// of that type.
    pub fn get_type(&self) -> (d: DataType)
        ensures
            d@.ts == 0,
            d@.val == match self@.field_type {
                ValueType::Unsigned => Payload::U64(0),
                ValueType::Integer => Payload::I64(0),
                ValueType::String => Payload::Str(Seq::empty()),
                ValueType::Float => Payload::F64(0),
                _ => Payload::Bool(false),
            },
    {
        match &self {
            DataBlock::U64 { .. } => DataType::U64(U64Cell { ts: 0, val: 0 }),
            DataBlock::I64 { .. } => DataType::I64(I64Cell { ts: 0, val: 0 }),
            DataBlock::Str { .. } => DataType::Str(StrCell { ts: 0, val: Vec::new() }),
            DataBlock::F64 { .. } => DataType::F64(F64Cell { ts: 0, val: 0 }),
            DataBlock::Bool { .. } => DataType::Bool(BoolCell { ts: 0, val: false }),
        }
    }

    /// The whole timestamps column.
    pub fn ts(&self) -> (r: &[i64])
        ensures
            r@ == self.spec_ts(),
    {
        match self {
            DataBlock::U64 { ts, .. } => ts.as_slice(),
            DataBlock::I64 { ts, .. } => ts.as_slice(),
            DataBlock::Str { ts, .. } => ts.as_slice(),
            DataBlock::F64 { ts, .. } => ts.as_slice(),
            DataBlock::Bool { ts, .. } => ts.as_slice(),
        }
    }

    /// Whether the block holds no sample.
    pub fn is_empty(&self) -> (b: bool)
        ensures
            b == (self@.cells.len() == 0),
    {
        self.len() == 0
    }

    /// The sample in slot `i`, or `None` past the end.
    pub fn get(&self, i: usize) -> (r: Option<DataType>)
        requires
            self.wf(),
        ensures
            i >= self@.cells.len() ==> r is None,
            i < self@.cells.len() ==> r is Some && r->0@ == self@.cells[i as int],
    {
        match self {
            DataBlock::U64 { ts, val } => {
                if ts.len() <= i {
                    None
                } else {
                    Some(DataType::U64(U64Cell { ts: ts[i], val: val[i] }))
                }
            },
            DataBlock::I64 { ts, val } => {
                if ts.len() <= i {
                    None
                } else {
                    Some(DataType::I64(I64Cell { ts: ts[i], val: val[i] }))
                }
            },
            DataBlock::Str { ts, val } => {
                if ts.len() <= i {
                    None
                } else {
                    Some(DataType::Str(StrCell { ts: ts[i], val: val[i].clone() }))
                }
            },
            DataBlock::F64 { ts, val } => {
                if ts.len() <= i {
                    None
                } else {
                    Some(DataType::F64(F64Cell { ts: ts[i], val: val[i] }))
                }
            },
            DataBlock::Bool { ts, val } => {
                if ts.len() <= i {
                    None
                } else {
                    Some(DataType::Bool(BoolCell { ts: ts[i], val: val[i] }))
                }
            },
        }
    }

    /// Overwrites slot `i` with `data_type` if it has the block's type;
    /// changes nothing otherwise.
    pub fn set(&mut self, i: usize, data_type: DataType)
        requires
            old(self).wf(),
            data_type@.value_type() == old(self)@.field_type ==> i < old(self)@.cells.len(),
        ensures
            final(self).wf(),
            final(self)@ == old(self)@.set(i as int, data_type@),
    {
        let ghost c = data_type@;
        match data_type {
            DataType::U64(item) => {
                if let DataBlock::U64 { ts, val } = self {
                    ts[i] = item.ts;
                    val[i] = item.val;
                }
            },
            DataType::I64(item) => {
                if let DataBlock::I64 { ts, val } = self {
                    ts[i] = item.ts;
                    val[i] = item.val;
                }
            },
            DataType::Str(item) => {
                if let DataBlock::Str { ts, val } = self {
                    ts[i] = item.ts;
                    val[i] = item.val;
                }
            },
            DataType::F64(item) => {
                if let DataBlock::F64 { ts, val } = self {
                    ts[i] = item.ts;
                    val[i] = item.val;
                }
            },
            DataType::Bool(item) => {
                if let DataBlock::Bool { ts, val } = self {
                    ts[i] = item.ts;
                    val[i] = item.val;
                }
            },
        }
        assert(self@.cells =~= old(self)@.set(i as int, c).cells);
    }
}


/// The blocks of `blocks` as contracts speak of them, in the same order.
pub open spec fn block_views(blocks: Seq<DataBlock>) -> Seq<BlockView> {
    blocks.map_values(|b: DataBlock| b@)
}

/// The blocks behind `blocks` as contracts speak of them, in the same
/// order.
pub open spec fn views_of(blocks: Seq<&DataBlock>) -> Seq<BlockView> {
    Seq::new(blocks.len(), |i: int| blocks[i]@)
}

impl DataBlock {
    /// The least timestamp among the samples that stand at `offsets` in
    /// their blocks; `None` when every block has been read to its end.
    fn rebuild_vec(blocks: &Vec<&DataBlock>, offsets: &Vec<usize>) -> (min_ts: Option<i64>)
        requires
            offsets.len() == blocks.len(),
            forall|i: int| 0 <= i < blocks.len() ==> offsets[i] <= (#[trigger] blocks[i])@.cells.len(),
        ensures
            min_ts == min_head(skip_all(columns_of(views_of(blocks@)), offsets@)),
    {
        let ghost rest = skip_all(columns_of(views_of(blocks@)), offsets@);
        let mut min_ts: Option<i64> = None;
        let mut i: usize = 0;
        assert(rest.take(0) =~= Seq::<Seq<Cell>>::empty());
        while i < blocks.len()
            invariant
                i <= blocks.len(),
                offsets.len() == blocks.len(),
                forall|k: int|
                    0 <= k < blocks.len() ==> offsets[k] <= (#[trigger] blocks[k])@.cells.len(),
                rest == skip_all(columns_of(views_of(blocks@)), offsets@),
                min_ts == min_head(rest.take(i as int)),
            decreases blocks.len() - i,
        {
            let off: usize = offsets[i];
            proof {
                let next = rest.take(i + 1);
                assert(next.drop_last() =~= rest.take(i as int));
                assert(next.last() == rest[i as int]);
                assert(blocks[i as int]@.cells.len() >= off);
            }
            if off < blocks[i].len() {
                let ts: i64 = blocks[i].ts()[off];
                assert(rest[i as int][0] == blocks[i as int]@.cells[off as int]);
                match min_ts {
                    Some(min) => {
                        if ts < min {
                            min_ts = Some(ts);
                        }
                    },
                    None => {
                        min_ts = Some(ts);
                    },
                }
            }
            i += 1;
        }
        assert(rest.take(i as int) =~= rest);
        min_ts
    }
}


impl DataBlock {
    /// Merges the blocks behind `blocks` into a new block of the first
    /// block's type.
    fn merge_refs(blocks: &Vec<&DataBlock>) -> (res: DataBlock)
        requires
            blocks.len() > 0,
            forall|i: int| 0 <= i < blocks.len() ==> (#[trigger] blocks[i]).wf(),
        ensures
            res.wf(),
            res@ == merge_views(views_of(blocks@)),
    {
        let n: usize = blocks.len();
        let field_type = blocks[0].field_type();
        let mut res = Self::new(blocks[0].len(), field_type);
        let mut offsets: Vec<usize> = Vec::new();
        let mut k: usize = 0;
        while k < n
            invariant
                k <= n,
                offsets.len() == k,
                forall|j: int| 0 <= j < k ==> offsets[j] == 0,
            decreases n - k,
        {
            offsets.push(0);
            k += 1;
        }
        let ghost columns = columns_of(views_of(blocks@));
        proof {
            assert forall|i: int| 0 <= i < n implies (#[trigger] skip_all(columns, offsets@)[i])
                == columns[i] by {
                assert(columns[i].skip(0) =~= columns[i]);
            }
            assert(skip_all(columns, offsets@) =~= columns);
            assert(res@.cells + merge_cells(columns, field_type) =~= merge_cells(
                columns,
                field_type,
            ));
        }
        loop
            invariant
                n == blocks.len(),
                n > 0,
                forall|i: int| 0 <= i < blocks.len() ==> (#[trigger] blocks[i]).wf(),
                columns == columns_of(views_of(blocks@)),
                offsets.len() == n,
                forall|i: int| 0 <= i < n ==> offsets[i] <= (#[trigger] columns[i]).len(),
                res.wf(),
                res@.field_type == field_type,
                field_type == blocks[0]@.field_type,
                res@.cells + merge_cells(skip_all(columns, offsets@), field_type) == merge_cells(
                    columns,
                    field_type,
                ),
            decreases total_len(skip_all(columns, offsets@)),
        {
            let ghost rest = skip_all(columns, offsets@);
            let ghost before = offsets@;
            let ghost merged = res@.cells;
            assert forall|i: int| 0 <= i < blocks.len() implies offsets[i] <= (
            #[trigger] blocks[i])@.cells.len() by {
                assert(offsets[i] <= columns[i].len());
            }
            match Self::rebuild_vec(blocks, &offsets) {
                None => {
                    assert(merged + Seq::<Cell>::empty() =~= merged);
                    return res;
                },
                Some(min) => {
                    proof {
                        lemma_min_head(rest);
                        lemma_last_with_head(rest, min);
                        lemma_pop_heads_shrinks(rest, min);
                    }
                    let mut data: Option<DataType> = None;
                    let mut i: usize = 0;
                    assert(rest.take(0) =~= Seq::<Seq<Cell>>::empty());
                    while i < n
                        invariant
                            i <= n,
                            n == blocks.len(),
                            offsets.len() == n,
                            before.len() == n,
                            forall|j: int| 0 <= j < blocks.len() ==> (#[trigger] blocks[j]).wf(),
                            columns == columns_of(views_of(blocks@)),
                            rest == skip_all(columns, before),
                            forall|j: int| 0 <= j < n ==> before[j] <= (#[trigger] columns[j]).len(),
                            forall|j: int|
                                0 <= j < i ==> #[trigger] offsets[j] == if head(rest[j]) == Some(
                                    min,
                                ) {
                                    before[j] + 1
                                } else {
                                    before[j] as int
                                },
                            forall|j: int| i <= j < n ==> #[trigger] offsets[j] == before[j],
                            last_with_head(rest.take(i as int), min) < 0 ==> data is None,
                            last_with_head(rest.take(i as int), min) >= 0 ==> data is Some
                                && data->0@ == rest[last_with_head(rest.take(i as int), min)][0],
                        decreases n - i,
                    {
                        let off: usize = offsets[i];
                        proof {
                            let next = rest.take(i + 1);
                            assert(next.drop_last() =~= rest.take(i as int));
                            assert(next.last() == rest[i as int]);
                            assert(off <= columns[i as int].len());
                            assert(columns[i as int] == blocks[i as int]@.cells);
                        }
                        if off < blocks[i].len() {
                            assert(rest[i as int][0] == blocks[i as int]@.cells[off as int]);
                            if blocks[i].ts()[off] == min {
                                data = blocks[i].get(off);
                                offsets[i] = off + 1;
                            }
                        }
                        i += 1;
                    }
                    proof {
                        assert(rest.take(n as int) =~= rest);
                        assert forall|j: int| 0 <= j < n implies (#[trigger] skip_all(
                            columns,
                            offsets@,
                        )[j]) == pop_heads(rest, min)[j] by {
                            if head(rest[j]) == Some(min) {
                                assert(columns[j].skip(before[j] as int).drop_first()
                                    =~= columns[j].skip(before[j] + 1));
                            }
                        }
                        assert(skip_all(columns, offsets@) =~= pop_heads(rest, min));
                    }
                    let ghost kept = rest[last_with_head(rest, min)][0];
                    if let Some(it) = data {
                        res.insert(&it);
                    }
                    proof {
                        let tail = merge_cells(pop_heads(rest, min), field_type);
                        if kept.value_type() == field_type {
                            assert(merged.push(kept) + tail =~= merged + (seq![kept] + tail));
                        }
                    }
                },
            }
        }
    }
}


impl DataBlock {
    /// Merges `other` into this block, if the two have the same type: the
    /// block becomes the merge of itself and `other`, so that on equal
    /// timestamps the sample of `other` stays. A block of another type
    /// changes nothing.
    pub fn append(&mut self, other: &Self)
        requires
            old(self).wf(),
            other.wf(),
        ensures
            final(self).wf(),
            final(self)@ == if other@.field_type == old(self)@.field_type {
                merge_views(seq![old(self)@, other@])
            } else {
                old(self)@
            },
    {
        if self.field_type() != other.field_type() {
            return ;
        }
        let mut blocks: Vec<&DataBlock> = Vec::new();
        blocks.push(&*self);
        blocks.push(other);
        assert(views_of(blocks@) =~= seq![old(self)@, other@]);
        let merged = Self::merge_refs(&blocks);
        *self = merged;
    }

    /// Merges `blocks` into one block of the first block's type. Where
    /// several blocks hold a sample at the same timestamp while they are
    /// merged, the sample of the last of them stays.
    pub fn merge_blocks(mut blocks: Vec<Self>) -> (res: Self)
        requires
            blocks.len() > 0,
            forall|i: int| 0 <= i < blocks.len() ==> (#[trigger] blocks[i]).wf(),
        ensures
            res.wf(),
            res@ == merge_views(block_views(blocks@)),
    {
        let ghost views = block_views(blocks@);
        if blocks.len() == 1 {
            proof {
                let column = blocks[0]@.cells;
                lemma_merge_single(column, blocks[0]@.field_type);
                assert(columns_of(views) =~= seq![column]);
            }
            return blocks.remove(0);
        }
        let mut refs: Vec<&DataBlock> = Vec::new();
        let mut k: usize = 0;
        while k < blocks.len()
            invariant
                k <= blocks.len(),
                refs.len() == k,
                forall|j: int| 0 <= j < k ==> *(#[trigger] refs[j]) == blocks[j],
            decreases blocks.len() - k,
        {
            refs.push(&blocks[k]);
            k += 1;
        }
        assert(views_of(refs@) =~= views);
        Self::merge_refs(&refs)
    }
}

} // verus!
