//! Sequences of samples: deletion by time range and ordering by time,
//! with the laws that the caches rely on.

use vstd::prelude::*;
use crate::memcache::Cell;
use crate::tseries_family::TimeRange;

verus! {

/// The samples that lie outside the closed range `r`.
pub open spec fn outside(r: TimeRange) -> spec_fn(Cell) -> bool {
    |c: Cell| c.ts < r.min_ts || c.ts > r.max_ts
}

/// The samples that lie inside the closed range `r`.
pub open spec fn inside(r: TimeRange) -> spec_fn(Cell) -> bool {
    |c: Cell| r.min_ts <= c.ts && c.ts <= r.max_ts
}

/// The samples at timestamp `t`.
pub open spec fn at(t: i64) -> spec_fn(Cell) -> bool {
    |c: Cell| c.ts == t
}

/// What is left of `cells` once the samples inside `r` are deleted, in
/// the order they had.
pub open spec fn delete_range(cells: Seq<Cell>, r: TimeRange) -> Seq<Cell> {
    cells.filter(outside(r))
}

/// The samples of `cells` inside `r`, in the order they have.
pub open spec fn read_range(cells: Seq<Cell>, r: TimeRange) -> Seq<Cell> {
    cells.filter(inside(r))
}

/// Whether no sample comes before an earlier one.
pub open spec fn sorted_by_ts(cells: Seq<Cell>) -> bool {
    forall|i: int, j: int| 0 <= i <= j < cells.len() ==> cells[i].ts <= cells[j].ts
}

/// Every sample of a filtered sequence is a sample of the sequence and
/// meets the filter.
pub proof fn lemma_filter_members(cells: Seq<Cell>, pred: spec_fn(Cell) -> bool)
    ensures
        forall|i: int|
            0 <= i < cells.filter(pred).len() ==> pred(#[trigger] cells.filter(pred)[i])
                && cells.contains(cells.filter(pred)[i]),
    decreases cells.len(),
{
    reveal(Seq::filter);
    if cells.len() > 0 {
        let init = cells.drop_last();
        lemma_filter_members(init, pred);
        assert forall|i: int| 0 <= i < cells.filter(pred).len() implies pred(
            #[trigger] cells.filter(pred)[i],
        ) && cells.contains(cells.filter(pred)[i]) by {
            if i < init.filter(pred).len() {
                let c = init.filter(pred)[i];
                assert(init.contains(c));
                let k = choose|k: int| 0 <= k < init.len() && init[k] == c;
                assert(cells[k] == c);
            } else {
                assert(cells[cells.len() - 1] == cells.last());
            }
        }
    }
}

/// Filtering a sequence whose samples all meet the filter changes nothing.
pub proof fn lemma_filter_all(cells: Seq<Cell>, pred: spec_fn(Cell) -> bool)
    requires
        forall|i: int| 0 <= i < cells.len() ==> pred(#[trigger] cells[i]),
    ensures
        cells.filter(pred) == cells,
    decreases cells.len(),
{
    reveal(Seq::filter);
    if cells.len() > 0 {
        let init = cells.drop_last();
        assert(forall|i: int| 0 <= i < init.len() ==> init[i] == cells[i]);
        lemma_filter_all(init, pred);
        assert(init.push(cells.last()) =~= cells);
    }
}

/// Filtering keeps the order, so a sorted sequence stays sorted.
pub proof fn lemma_filter_sorted(cells: Seq<Cell>, pred: spec_fn(Cell) -> bool)
    requires
        sorted_by_ts(cells),
    ensures
        sorted_by_ts(cells.filter(pred)),
    decreases cells.len(),
{
    reveal(Seq::filter);
    if cells.len() > 0 {
        let init = cells.drop_last();
        assert(forall|i: int| 0 <= i < init.len() ==> init[i] == cells[i]);
        lemma_filter_sorted(init, pred);
        lemma_filter_members(init, pred);
        let kept = cells.filter(pred);
        assert forall|i: int, j: int| 0 <= i <= j < kept.len() implies kept[i].ts
            <= kept[j].ts by {
            if j >= init.filter(pred).len() && i < j {
                let c = init.filter(pred)[i];
                assert(init.contains(c));
                let k = choose|k: int| 0 <= k < init.len() && init[k] == c;
                assert(cells[k].ts <= cells[cells.len() - 1].ts);
            }
        }
    }
}

/// Deleting a range twice leaves what deleting it once leaves.
pub proof fn lemma_delete_range_idempotent(cells: Seq<Cell>, r: TimeRange)
    ensures
        delete_range(delete_range(cells, r), r) == delete_range(cells, r),
{
    lemma_filter_members(cells, outside(r));
    lemma_filter_all(delete_range(cells, r), outside(r));
}

/// After a deletion no sample lies inside the range, every sample left
/// was there before, and the order is kept.
pub proof fn lemma_delete_range_result(cells: Seq<Cell>, r: TimeRange)
    ensures
        forall|i: int|
            0 <= i < delete_range(cells, r).len() ==> {
                let c = #[trigger] delete_range(cells, r)[i];
                (c.ts < r.min_ts || c.ts > r.max_ts) && cells.contains(c)
            },
        delete_range(cells, r).len() + read_range(cells, r).len() == cells.len(),
        sorted_by_ts(cells) ==> sorted_by_ts(delete_range(cells, r)),
    decreases cells.len(),
{
    lemma_filter_members(cells, outside(r));
    if sorted_by_ts(cells) {
        lemma_filter_sorted(cells, outside(r));
    }
    lemma_filter_split(cells, r);
}

/// Each sample is either inside a range or outside it.
proof fn lemma_filter_split(cells: Seq<Cell>, r: TimeRange)
    ensures
        cells.filter(outside(r)).len() + cells.filter(inside(r)).len() == cells.len(),
    decreases cells.len(),
{
    reveal(Seq::filter);
    if cells.len() > 0 {
        lemma_filter_split(cells.drop_last(), r);
    }
}

/// A range that holds none of the samples deletes nothing.
pub proof fn lemma_delete_range_disjoint(cells: Seq<Cell>, r: TimeRange)
    requires
        forall|i: int|
            0 <= i < cells.len() ==> (#[trigger] cells[i]).ts < r.min_ts || cells[i].ts > r.max_ts,
    ensures
        delete_range(cells, r) == cells,
{
    lemma_filter_all(cells, outside(r));
}


/// `sorted` with `c` put in behind the last sample that is not later
/// than `c`.
pub open spec fn insert_by_ts(sorted: Seq<Cell>, c: Cell) -> Seq<Cell>
    decreases sorted.len(),
{
    if sorted.len() == 0 || sorted.last().ts <= c.ts {
        sorted.push(c)
    } else {
        insert_by_ts(sorted.drop_last(), c).push(sorted.last())
    }
}

/// `cells` in ascending order of time, samples of equal time in the order
/// they had.
pub open spec fn sort_by_ts(cells: Seq<Cell>) -> Seq<Cell>
    decreases cells.len(),
{
    if cells.len() == 0 {
        cells
    } else {
        insert_by_ts(sort_by_ts(cells.drop_last()), cells.last())
    }
}

/// Whether `out` is `inp` sorted by time without reordering samples of
/// equal time: `out` is sorted, and at each timestamp it holds the samples
/// that `inp` holds there, in the same order.
pub open spec fn is_stable_sort_of(out: Seq<Cell>, inp: Seq<Cell>) -> bool {
    &&& sorted_by_ts(out)
    &&& forall|t: i64| #[trigger] out.filter(at(t)) == inp.filter(at(t))
}

/// What `insert_by_ts` does to a sorted sequence.
pub proof fn lemma_insert_by_ts(sorted: Seq<Cell>, c: Cell)
    requires
        sorted_by_ts(sorted),
    ensures
        sorted_by_ts(insert_by_ts(sorted, c)),
        insert_by_ts(sorted, c).len() == sorted.len() + 1,
        forall|t: i64|
            #[trigger] insert_by_ts(sorted, c).filter(at(t)) == sorted.push(c).filter(at(t)),
        forall|i: int|
            0 <= i < insert_by_ts(sorted, c).len() ==> {
                let x = #[trigger] insert_by_ts(sorted, c)[i];
                x == c || sorted.contains(x)
            },
        forall|x: Cell| sorted.contains(x) ==> insert_by_ts(sorted, c).contains(x),
        insert_by_ts(sorted, c).contains(c),
    decreases sorted.len(),
{
    let out = insert_by_ts(sorted, c);
    if sorted.len() == 0 || sorted.last().ts <= c.ts {
        assert forall|i: int| 0 <= i < out.len() implies {
            let x = #[trigger] out[i];
            x == c || sorted.contains(x)
        } by {
            if i < sorted.len() {
                assert(sorted[i] == out[i]);
            }
        }
        assert forall|x: Cell| sorted.contains(x) implies out.contains(x) by {
            let k = choose|k: int| 0 <= k < sorted.len() && sorted[k] == x;
            assert(out[k] == x);
        }
        assert(out[sorted.len() as int] == c);
    } else {
        let init = sorted.drop_last();
        let last = sorted.last();
        assert(forall|i: int| 0 <= i < init.len() ==> init[i] == sorted[i]);
        lemma_insert_by_ts(init, c);
        let inner = insert_by_ts(init, c);
        assert(init.push(last) =~= sorted);
        assert forall|i: int| 0 <= i < out.len() implies {
            let x = #[trigger] out[i];
            x == c || sorted.contains(x)
        } by {
            if i < inner.len() {
                let x = inner[i];
                if x != c {
                    let k = choose|k: int| 0 <= k < init.len() && init[k] == x;
                    assert(sorted[k] == x);
                }
            } else {
                assert(sorted[sorted.len() - 1] == last);
            }
        }
        assert forall|i: int, j: int| 0 <= i <= j < out.len() implies out[i].ts <= out[j].ts by {
            if j == inner.len() && i < j {
                let x = inner[i];
                if x != c {
                    let k = choose|k: int| 0 <= k < init.len() && init[k] == x;
                    assert(sorted[k].ts <= sorted[sorted.len() - 1].ts);
                }
            }
        }
        assert forall|t: i64| #[trigger] out.filter(at(t)) == sorted.push(c).filter(at(t)) by {
            inner.lemma_filter_push(last, at(t));
            init.lemma_filter_push(c, at(t));
            init.lemma_filter_push(last, at(t));
            sorted.lemma_filter_push(c, at(t));
        }
        assert forall|x: Cell| sorted.contains(x) implies out.contains(x) by {
            let k = choose|k: int| 0 <= k < sorted.len() && sorted[k] == x;
            if k < init.len() {
                assert(init.contains(init[k]));
                let m = choose|m: int| 0 <= m < inner.len() && inner[m] == x;
                assert(out[m] == x);
            } else {
                assert(out[inner.len() as int] == x);
            }
        }
        let m = choose|m: int| 0 <= m < inner.len() && inner[m] == c;
        assert(out[m] == c);
    }
}

/// `sort_by_ts` sorts without reordering samples of equal time, and keeps
/// the samples: none is lost, none is new.
pub proof fn lemma_sort_by_ts(cells: Seq<Cell>)
    ensures
        is_stable_sort_of(sort_by_ts(cells), cells),
        sort_by_ts(cells).len() == cells.len(),
        forall|i: int|
            0 <= i < sort_by_ts(cells).len() ==> cells.contains(#[trigger] sort_by_ts(cells)[i]),
        forall|i: int| 0 <= i < cells.len() ==> sort_by_ts(cells).contains(#[trigger] cells[i]),
    decreases cells.len(),
{
    let out = sort_by_ts(cells);
    if cells.len() == 0 {
        assert(sorted_by_ts(out));
    } else {
        let init = cells.drop_last();
        let last = cells.last();
        let inner = sort_by_ts(init);
        assert(forall|i: int| 0 <= i < init.len() ==> init[i] == cells[i]);
        assert(init.push(last) =~= cells);
        lemma_sort_by_ts(init);
        lemma_insert_by_ts(inner, last);
        assert forall|t: i64| #[trigger] out.filter(at(t)) == cells.filter(at(t)) by {
            assert(out.filter(at(t)) == inner.push(last).filter(at(t)));
            inner.lemma_filter_push(last, at(t));
            init.lemma_filter_push(last, at(t));
            assert(inner.filter(at(t)) == init.filter(at(t)));
        }
        assert forall|i: int| 0 <= i < out.len() implies cells.contains(#[trigger] out[i]) by {
            let x = out[i];
            if x == last {
                assert(cells[cells.len() - 1] == x);
            } else {
                assert(inner.contains(x));
                let m = choose|m: int| 0 <= m < inner.len() && inner[m] == x;
                assert(init.contains(inner[m]));
                let k = choose|k: int| 0 <= k < init.len() && init[k] == x;
                assert(cells[k] == x);
            }
        }
        assert forall|i: int| 0 <= i < cells.len() implies out.contains(#[trigger] cells[i]) by {
            if i < init.len() {
                assert(inner.contains(init[i]));
            }
        }
    }
}

/// A sample at timestamp `t` shows in the filter for `t`.
proof fn lemma_filter_at_last(cells: Seq<Cell>)
    requires
        cells.len() > 0,
    ensures
        cells.filter(at(cells.last().ts)) == cells.drop_last().filter(at(cells.last().ts)).push(
            cells.last(),
        ),
        forall|t: i64|
            t != cells.last().ts ==> #[trigger] cells.filter(at(t)) == cells.drop_last().filter(
                at(t),
            ),
{
    reveal(Seq::filter);
}

/// Two sorted sequences that hold the same samples in the same order at
/// each timestamp are equal.
pub proof fn lemma_stable_sort_unique(a: Seq<Cell>, b: Seq<Cell>)
    requires
        sorted_by_ts(a),
        sorted_by_ts(b),
        forall|t: i64| #[trigger] a.filter(at(t)) == b.filter(at(t)),
    ensures
        a == b,
    decreases a.len(),
{
    if a.len() == 0 {
        if b.len() > 0 {
            lemma_filter_at_last(b);
            assert(a.filter(at(b.last().ts)) == b.filter(at(b.last().ts)));
            reveal(Seq::filter);
        }
        assert(a =~= b);
    } else {
        lemma_filter_at_last(a);
        let ta = a.last().ts;
        assert(a.filter(at(ta)) == b.filter(at(ta)));
        if b.len() == 0 {
            reveal(Seq::filter);
        }
        lemma_filter_at_last(b);
        let tb = b.last().ts;
        assert(a.filter(at(tb)) == b.filter(at(tb)));
        lemma_filter_members(a, at(tb));
        lemma_filter_members(b, at(ta));
        if ta < tb {
            let x = a.filter(at(tb))[a.filter(at(tb)).len() - 1];
            assert(a.contains(x));
            let k = choose|k: int| 0 <= k < a.len() && a[k] == x;
            assert(a[k].ts <= a[a.len() - 1].ts);
        }
        if tb < ta {
            let x = b.filter(at(ta))[b.filter(at(ta)).len() - 1];
            assert(b.contains(x));
            let k = choose|k: int| 0 <= k < b.len() && b[k] == x;
            assert(b[k].ts <= b[b.len() - 1].ts);
        }
        assert(ta == tb);
        let fa = a.drop_last().filter(at(ta));
        let fb = b.drop_last().filter(at(ta));
        assert(fa.push(a.last()) == fb.push(b.last()));
        assert(fa.push(a.last()).last() == a.last());
        assert(fb.push(b.last()).last() == b.last());
        assert(fa.push(a.last()).drop_last() =~= fa);
        assert(fb.push(b.last()).drop_last() =~= fb);
        let ia = a.drop_last();
        let ib = b.drop_last();
        assert(forall|i: int| 0 <= i < ia.len() ==> ia[i] == a[i]);
        assert(forall|i: int| 0 <= i < ib.len() ==> ib[i] == b[i]);
        assert forall|t: i64| #[trigger] ia.filter(at(t)) == ib.filter(at(t)) by {
            if t != ta {
                assert(a.filter(at(t)) == b.filter(at(t)));
            }
        }
        lemma_stable_sort_unique(ia, ib);
        assert(ia.push(a.last()) =~= a);
        assert(ib.push(b.last()) =~= b);
    }
}

/// Sorting a sorted sequence changes nothing.
pub proof fn lemma_sort_by_ts_sorted(cells: Seq<Cell>)
    requires
        sorted_by_ts(cells),
    ensures
        sort_by_ts(cells) == cells,
{
    lemma_sort_by_ts(cells);
    lemma_stable_sort_unique(sort_by_ts(cells), cells);
}

/// Whatever sorts `cells` by time without reordering samples of equal
/// time yields `sort_by_ts(cells)`.
pub proof fn lemma_stable_sort_is_sort_by_ts(out: Seq<Cell>, cells: Seq<Cell>)
    requires
        is_stable_sort_of(out, cells),
    ensures
        out == sort_by_ts(cells),
{
    lemma_sort_by_ts(cells);
    assert forall|t: i64| #[trigger] out.filter(at(t)) == sort_by_ts(cells).filter(at(t)) by {
        assert(out.filter(at(t)) == cells.filter(at(t)));
        assert(sort_by_ts(cells).filter(at(t)) == cells.filter(at(t)));
    }
    lemma_stable_sort_unique(out, sort_by_ts(cells));
}

} // verus!
