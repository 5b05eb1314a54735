//! The merge of sample columns, stated on sequences: what it yields step
//! by step, and what that amounts to when every column is in strictly
//! ascending order of time.

use vstd::prelude::*;
use crate::memcache::{Cell, Payload};
use crate::models::ValueType;
use crate::tsm::block::BlockView;

verus! {

/// The timestamp at the head of a column, if the column is not empty.
pub open spec fn head(column: Seq<Cell>) -> Option<i64> {
    if column.len() > 0 {
        Some(column[0].ts)
    } else {
        None
    }
}

/// The least timestamp among the heads of `columns`; `None` when every
/// column is empty.
pub open spec fn min_head(columns: Seq<Seq<Cell>>) -> Option<i64>
    decreases columns.len(),
{
    if columns.len() == 0 {
        None
    } else {
        let rest = min_head(columns.drop_last());
        match head(columns.last()) {
            None => rest,
            Some(t) => match rest {
                None => Some(t),
                Some(m) => if t < m {
                    Some(t)
                } else {
                    Some(m)
                },
            },
        }
    }
}

/// The index of the last column whose head has timestamp `t`; -1 when no
/// head has it.
pub open spec fn last_with_head(columns: Seq<Seq<Cell>>, t: i64) -> int
    decreases columns.len(),
{
    if columns.len() == 0 {
        -1
    } else if head(columns.last()) == Some(t) {
        columns.len() - 1
    } else {
        last_with_head(columns.drop_last(), t)
    }
}

/// The columns after every head with timestamp `t` was taken off.
pub open spec fn pop_heads(columns: Seq<Seq<Cell>>, t: i64) -> Seq<Seq<Cell>> {
    Seq::new(
        columns.len(),
        |i: int|
            if head(columns[i]) == Some(t) {
                columns[i].drop_first()
            } else {
                columns[i]
            },
    )
}

/// Number of samples in all columns together.
pub open spec fn total_len(columns: Seq<Seq<Cell>>) -> nat
    decreases columns.len(),
{
    if columns.len() == 0 {
        0
    } else {
        total_len(columns.drop_last()) + columns.last().len()
    }
}

/// The merge of `columns` into a block of type `field_type`.
///
/// Each step looks at the heads of the columns and takes the least
/// timestamp among them. Of the heads with that timestamp the one in the
/// last column is kept, if it has the block's type; all of them are taken
/// off their columns. The merge ends when every column is empty.
pub open spec fn merge_cells(columns: Seq<Seq<Cell>>, field_type: ValueType) -> Seq<Cell>
    decreases total_len(columns),
{
    match min_head(columns) {
        None => Seq::empty(),
        Some(t) => {
            proof {
                lemma_min_head(columns);
                lemma_pop_heads_shrinks(columns, t);
            }
            let kept = columns[last_with_head(columns, t)][0];
            let rest = merge_cells(pop_heads(columns, t), field_type);
            if kept.value_type() == field_type {
                seq![kept] + rest
            } else {
                rest
            }
        },
    }
}

/// `min_head` is the head of some column and no head lies below it; it is
/// `None` exactly when all columns are empty.
pub proof fn lemma_min_head(columns: Seq<Seq<Cell>>)
    ensures
        min_head(columns) is None ==> forall|i: int|
            0 <= i < columns.len() ==> (#[trigger] columns[i]).len() == 0,
        min_head(columns) matches Some(t) ==> {
            &&& exists|i: int| 0 <= i < columns.len() && head(#[trigger] columns[i]) == Some(t)
            &&& forall|i: int|
                0 <= i < columns.len() && (#[trigger] columns[i]).len() > 0 ==> t <= columns[i][0].ts
        },
    decreases columns.len(),
{
    if columns.len() > 0 {
        let init = columns.drop_last();
        lemma_min_head(init);
        assert(forall|i: int| 0 <= i < init.len() ==> init[i] == columns[i]);
        match min_head(columns) {
            None => {
                assert forall|i: int| 0 <= i < columns.len() implies (#[trigger] columns[i]).len()
                    == 0 by {
                    if i < init.len() {
                        assert(init[i].len() == 0);
                    }
                }
            },
            Some(t) => {
                if head(columns.last()) == Some(t) {
                    assert(head(columns[columns.len() - 1]) == Some(t));
                } else {
                    let i = choose|i: int| 0 <= i < init.len() && head(#[trigger] init[i]) == Some(t);
                    assert(head(columns[i]) == Some(t));
                }
                assert forall|i: int|
                    0 <= i < columns.len() && (#[trigger] columns[i]).len() > 0 implies t
                    <= columns[i][0].ts by {
                    if i < init.len() {
                        assert(init[i].len() > 0);
                    }
                }
            },
        }
    }
}

/// `last_with_head` finds the last column whose head has timestamp `t`.
pub proof fn lemma_last_with_head(columns: Seq<Seq<Cell>>, t: i64)
    ensures
        -1 <= last_with_head(columns, t) < columns.len(),
        last_with_head(columns, t) >= 0 ==> head(columns[last_with_head(columns, t)]) == Some(t),
        forall|i: int|
            last_with_head(columns, t) < i < columns.len() ==> head(#[trigger] columns[i]) != Some(t),
    decreases columns.len(),
{
    if columns.len() > 0 {
        let init = columns.drop_last();
        lemma_last_with_head(init, t);
        assert(forall|i: int| 0 <= i < init.len() ==> init[i] == columns[i]);
        assert forall|i: int| last_with_head(columns, t) < i < columns.len() implies head(
            #[trigger] columns[i],
        ) != Some(t) by {
            if i < init.len() {
                assert(head(init[i]) != Some(t));
            }
        }
    }
}

/// Taking heads off never adds samples, and removes one at least when
/// some head has timestamp `t`.
pub proof fn lemma_pop_heads_shrinks(columns: Seq<Seq<Cell>>, t: i64)
    ensures
        total_len(pop_heads(columns, t)) <= total_len(columns),
        (exists|i: int| 0 <= i < columns.len() && head(#[trigger] columns[i]) == Some(t))
            ==> total_len(pop_heads(columns, t)) < total_len(columns),
    decreases columns.len(),
{
    if columns.len() > 0 {
        let init = columns.drop_last();
        lemma_pop_heads_shrinks(init, t);
        assert(pop_heads(columns, t).drop_last() =~= pop_heads(init, t));
        assert(forall|i: int| 0 <= i < init.len() ==> init[i] == columns[i]);
        if exists|i: int| 0 <= i < columns.len() && head(#[trigger] columns[i]) == Some(t) {
            let i = choose|i: int| 0 <= i < columns.len() && head(#[trigger] columns[i]) == Some(t);
            if i < init.len() {
                assert(head(init[i]) == Some(t));
            }
        }
    }
}


/// The sample columns of `blocks`, in the same order.
pub open spec fn columns_of(blocks: Seq<BlockView>) -> Seq<Seq<Cell>> {
    Seq::new(blocks.len(), |i: int| blocks[i].cells)
}

/// The merge of `blocks`: a block of the first block's type that holds
/// the merge of their columns.
pub open spec fn merge_views(blocks: Seq<BlockView>) -> BlockView
    recommends
        blocks.len() > 0,
{
    BlockView {
        field_type: blocks[0].field_type,
        cells: merge_cells(columns_of(blocks), blocks[0].field_type),
    }
}

/// What is left of `columns` once the first `offsets[i]` samples of each
/// column `i` are gone.
pub open spec fn skip_all(columns: Seq<Seq<Cell>>, offsets: Seq<usize>) -> Seq<Seq<Cell>> {
    Seq::new(columns.len(), |i: int| columns[i].skip(offsets[i] as int))
}


/// Merging a single column of the block's type gives the column back.
pub proof fn lemma_merge_single(column: Seq<Cell>, field_type: ValueType)
    requires
        forall|i: int| 0 <= i < column.len() ==> (#[trigger] column[i]).value_type() == field_type,
    ensures
        merge_cells(seq![column], field_type) == column,
    decreases column.len(),
{
    let columns = seq![column];
    assert(columns.drop_last() =~= Seq::<Seq<Cell>>::empty());
    assert(columns.last() == column);
    assert(min_head(columns.drop_last()) is None);
    assert(min_head(columns) == head(column));
    if column.len() > 0 {
        let t = column[0].ts;
        assert(last_with_head(columns, t) == 0);
        assert(pop_heads(columns, t) =~= seq![column.drop_first()]);
        lemma_merge_single(column.drop_first(), field_type);
        assert(seq![column[0]] + column.drop_first() =~= column);
    } else {
        assert(column =~= Seq::<Cell>::empty());
    }
}


/// A column is strictly ascending when each sample is later than all
/// samples before it.
pub open spec fn strictly_ascending(column: Seq<Cell>) -> bool {
    forall|i: int, j: int| 0 <= i < j < column.len() ==> column[i].ts < column[j].ts
}

/// The value that `column` holds at timestamp `t`: that of the last sample
/// with this timestamp, `None` when there is no such sample.
pub open spec fn value_at(column: Seq<Cell>, t: i64) -> Option<Payload>
    decreases column.len(),
{
    if column.len() == 0 {
        None
    } else if column.last().ts == t {
        Some(column.last().val)
    } else {
        value_at(column.drop_last(), t)
    }
}

/// The value at timestamp `t` in the last of `columns` that holds one;
/// `None` when none of them does.
pub open spec fn last_value_at(columns: Seq<Seq<Cell>>, t: i64) -> Option<Payload>
    decreases columns.len(),
{
    if columns.len() == 0 {
        None
    } else {
        match value_at(columns.last(), t) {
            Some(v) => Some(v),
            None => last_value_at(columns.drop_last(), t),
        }
    }
}

/// `value_at` is `None` exactly when no sample has the timestamp.
pub proof fn lemma_value_at_none(column: Seq<Cell>, t: i64)
    ensures
        value_at(column, t) is None <==> forall|i: int|
            0 <= i < column.len() ==> (#[trigger] column[i]).ts != t,
    decreases column.len(),
{
    if column.len() > 0 {
        let init = column.drop_last();
        lemma_value_at_none(init, t);
        assert(forall|i: int| 0 <= i < init.len() ==> init[i] == column[i]);
        if column.last().ts == t {
            assert(column[column.len() - 1].ts == t);
        } else if value_at(init, t) is None {
            assert forall|i: int| 0 <= i < column.len() implies (#[trigger] column[i]).ts != t by {
                if i < init.len() {
                    assert(init[i].ts != t);
                }
            }
        } else {
            let i = choose|i: int| 0 <= i < init.len() && (#[trigger] init[i]).ts == t;
            assert(column[i].ts == t);
        }
    }
}

/// In a strictly ascending column, `value_at` is the value of the one
/// sample with the timestamp.
pub proof fn lemma_value_at_unique(column: Seq<Cell>, i: int)
    requires
        strictly_ascending(column),
        0 <= i < column.len(),
    ensures
        value_at(column, column[i].ts) == Some(column[i].val),
    decreases column.len(),
{
    if i < column.len() - 1 {
        let init = column.drop_last();
        assert(forall|k: int| 0 <= k < init.len() ==> init[k] == column[k]);
        assert(column[i].ts < column[column.len() - 1].ts);
        lemma_value_at_unique(init, i);
    }
}

/// A sample put in front of a column is seen only where the column holds
/// nothing.
pub proof fn lemma_value_at_prepend(first: Cell, column: Seq<Cell>, t: i64)
    ensures
        value_at(seq![first] + column, t) == match value_at(column, t) {
            Some(v) => Some(v),
            None => if first.ts == t {
                Some(first.val)
            } else {
                None
            },
        },
    decreases column.len(),
{
    let whole = seq![first] + column;
    if column.len() == 0 {
        assert(whole.drop_last() =~= Seq::<Cell>::empty());
        assert(value_at(whole.drop_last(), t) is None);
    } else {
        assert(whole.drop_last() =~= seq![first] + column.drop_last());
        assert(whole.last() == column.last());
        lemma_value_at_prepend(first, column.drop_last(), t);
    }
}

/// What taking the head off does to one strictly ascending column whose
/// head is not earlier than `t0`.
proof fn lemma_pop_head_values(column: Seq<Cell>, t0: i64, t: i64)
    requires
        strictly_ascending(column),
        column.len() > 0 ==> t0 <= column[0].ts,
    ensures
        ({
            let popped = if head(column) == Some(t0) {
                column.drop_first()
            } else {
                column
            };
            &&& strictly_ascending(popped)
            &&& t != t0 ==> value_at(popped, t) == value_at(column, t)
            &&& t <= t0 ==> value_at(popped, t) is None
            &&& value_at(column, t0) == if head(column) == Some(t0) {
                Some(column[0].val)
            } else {
                None
            }
        }),
{
    let popped = if head(column) == Some(t0) {
        column.drop_first()
    } else {
        column
    };
    lemma_value_at_none(column, t);
    lemma_value_at_none(popped, t);
    lemma_value_at_none(column, t0);
    assert forall|i: int| 0 < i < column.len() implies t0 < (#[trigger] column[i]).ts by {
        assert(column[0].ts < column[i].ts);
    }
    if head(column) == Some(t0) {
        assert(forall|i: int| 0 <= i < popped.len() ==> popped[i] == column[i + 1]);
        lemma_value_at_unique(column, 0);
        if t != t0 {
            if value_at(column, t) is Some {
                let i = choose|i: int| 0 <= i < column.len() && (#[trigger] column[i]).ts == t;
                lemma_value_at_unique(column, i);
                assert(popped[i - 1] == column[i]);
                lemma_value_at_unique(popped, i - 1);
            } else {
                assert forall|i: int| 0 <= i < popped.len() implies (#[trigger] popped[i]).ts
                    != t by {
                    assert(column[i + 1].ts != t);
                }
            }
        }
        assert forall|i: int| 0 <= i < popped.len() implies t0 < (#[trigger] popped[i]).ts by {
            assert(popped[i] == column[i + 1]);
        }
    } else {
        assert forall|i: int| 0 <= i < column.len() implies (#[trigger] column[i]).ts != t0 by {
            if i == 0 {
            } else {
                assert(t0 < column[i].ts);
            }
        }
    }
}

/// What taking the heads with the least timestamp `t0` off does to the
/// values that strictly ascending columns hold.
proof fn lemma_pop_heads_values(columns: Seq<Seq<Cell>>, t0: i64, t: i64)
    requires
        forall|i: int| 0 <= i < columns.len() ==> strictly_ascending(#[trigger] columns[i]),
        forall|i: int|
            0 <= i < columns.len() && (#[trigger] columns[i]).len() > 0 ==> t0 <= columns[i][0].ts,
    ensures
        forall|i: int|
            0 <= i < columns.len() ==> strictly_ascending(#[trigger] pop_heads(columns, t0)[i]),
        t != t0 ==> last_value_at(pop_heads(columns, t0), t) == last_value_at(columns, t),
        t <= t0 ==> last_value_at(pop_heads(columns, t0), t) is None,
        last_value_at(columns, t0) == if last_with_head(columns, t0) >= 0 {
            Some(columns[last_with_head(columns, t0)][0].val)
        } else {
            None
        },
    decreases columns.len(),
{
    if columns.len() > 0 {
        let init = columns.drop_last();
        let popped = pop_heads(columns, t0);
        assert(forall|i: int| 0 <= i < init.len() ==> init[i] == columns[i]);
        assert(popped.drop_last() =~= pop_heads(init, t0));
        lemma_pop_heads_values(init, t0, t);
        lemma_pop_head_values(columns.last(), t0, t);
        lemma_last_with_head(init, t0);
        assert forall|i: int| 0 <= i < columns.len() implies strictly_ascending(
            #[trigger] pop_heads(columns, t0)[i],
        ) by {
            if i < init.len() {
                assert(pop_heads(init, t0)[i] == popped[i]);
            }
        }
    }
}

/// Empty columns hold no value.
proof fn lemma_last_value_at_empty(columns: Seq<Seq<Cell>>, t: i64)
    requires
        forall|i: int| 0 <= i < columns.len() ==> (#[trigger] columns[i]).len() == 0,
    ensures
        last_value_at(columns, t) is None,
    decreases columns.len(),
{
    if columns.len() > 0 {
        let init = columns.drop_last();
        assert(forall|i: int| 0 <= i < init.len() ==> init[i] == columns[i]);
        lemma_last_value_at_empty(init, t);
    }
}

/// The merge lets the last writer win. When every column is strictly
/// ascending and holds samples of the block's type only, the merge is
/// strictly ascending too, and at every timestamp it holds the value of
/// the last column that has a sample there, and nothing where no column
/// has one.
pub proof fn lemma_merge_last_wins(columns: Seq<Seq<Cell>>, field_type: ValueType)
    requires
        forall|i: int| 0 <= i < columns.len() ==> strictly_ascending(#[trigger] columns[i]),
        forall|i: int, j: int|
            0 <= i < columns.len() && 0 <= j < columns[i].len() ==> (
            #[trigger] columns[i][j]).value_type() == field_type,
    ensures
        strictly_ascending(merge_cells(columns, field_type)),
        forall|t: i64|
            value_at(merge_cells(columns, field_type), t) == #[trigger] last_value_at(columns, t),
    decreases total_len(columns),
{
    let merged = merge_cells(columns, field_type);
    lemma_min_head(columns);
    match min_head(columns) {
        None => {
            assert forall|t: i64|
                value_at(merged, t) == #[trigger] last_value_at(columns, t) by {
                lemma_last_value_at_empty(columns, t);
            }
        },
        Some(t0) => {
            let w = last_with_head(columns, t0);
            let popped = pop_heads(columns, t0);
            let rest = merge_cells(popped, field_type);
            lemma_last_with_head(columns, t0);
            lemma_pop_heads_shrinks(columns, t0);
            lemma_pop_heads_values(columns, t0, t0);
            assert(w >= 0);
            let kept = columns[w][0];
            assert(kept.value_type() == field_type);
            assert(merged == seq![kept] + rest);
            assert forall|i: int, j: int|
                0 <= i < popped.len() && 0 <= j < popped[i].len() implies (
            #[trigger] popped[i][j]).value_type() == field_type by {
                if head(columns[i]) == Some(t0) {
                    assert(popped[i][j] == columns[i][j + 1]);
                } else {
                    assert(popped[i][j] == columns[i][j]);
                }
            }
            lemma_merge_last_wins(popped, field_type);
            assert forall|j: int| 0 <= j < rest.len() implies t0 < (#[trigger] rest[j]).ts by {
                let tj = rest[j].ts;
                lemma_value_at_unique(rest, j);
                assert(value_at(rest, tj) == last_value_at(popped, tj));
                lemma_pop_heads_values(columns, t0, tj);
            }
            assert forall|i: int, j: int| 0 <= i < j < merged.len() implies merged[i].ts
                < merged[j].ts by {
                if i == 0 {
                    assert(merged[j] == rest[j - 1]);
                } else {
                    assert(merged[i] == rest[i - 1]);
                    assert(merged[j] == rest[j - 1]);
                }
            }
            assert forall|t: i64|
                value_at(merged, t) == #[trigger] last_value_at(columns, t) by {
                lemma_value_at_prepend(kept, rest, t);
                lemma_pop_heads_values(columns, t0, t);
                assert(value_at(rest, t) == last_value_at(popped, t));
            }
        },
    }
}

/// The merge of two blocks, in the words of the law above: at a
/// timestamp where the second column has a sample the merge holds that
/// sample's value, elsewhere that of the first column.
pub proof fn lemma_merge_two_last_wins(a: Seq<Cell>, b: Seq<Cell>, field_type: ValueType, t: i64)
    requires
        strictly_ascending(a),
        strictly_ascending(b),
        forall|i: int| 0 <= i < a.len() ==> (#[trigger] a[i]).value_type() == field_type,
        forall|i: int| 0 <= i < b.len() ==> (#[trigger] b[i]).value_type() == field_type,
    ensures
        strictly_ascending(merge_cells(seq![a, b], field_type)),
        value_at(merge_cells(seq![a, b], field_type), t) == match value_at(b, t) {
            Some(v) => Some(v),
            None => value_at(a, t),
        },
{
    let columns = seq![a, b];
    lemma_merge_last_wins(columns, field_type);
    assert(columns.last() == b);
    assert(columns.drop_last() =~= seq![a]);
    assert(seq![a].last() == a);
    assert(seq![a].drop_last() =~= Seq::<Seq<Cell>>::empty());
    assert(last_value_at(seq![a].drop_last(), t) is None);
    assert(last_value_at(seq![a], t) == value_at(a, t));
    assert(last_value_at(columns, t) == match value_at(b, t) {
        Some(v) => Some(v),
        None => value_at(a, t),
    });
}

} // verus!
