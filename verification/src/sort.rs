//! A merge sort of samples by time that keeps samples of equal time in
//! the order they had. Samples are moved, never copied.

use vstd::prelude::*;
use crate::cells::{
    at, lemma_sort_by_ts, lemma_sort_by_ts_sorted, lemma_stable_sort_is_sort_by_ts, sort_by_ts,
    sorted_by_ts,
};
use crate::memcache::{cell_views, Cell, DataType};

verus! {

/// The samples of `v` in opposite order.
fn reverse_cells(v: Vec<DataType>) -> (r: Vec<DataType>)
    ensures
        r.len() == v.len(),
        forall|k: int| 0 <= k < r.len() ==> #[trigger] r[k] == v[v.len() - 1 - k],
{
    let ghost whole = v@;
    let mut v = v;
    let mut r: Vec<DataType> = Vec::new();
    while v.len() > 0
        invariant
            v.len() + r.len() == whole.len(),
            v@ == whole.take(v.len() as int),
            forall|k: int| 0 <= k < r.len() ==> #[trigger] r[k] == whole[whole.len() - 1 - k],
        decreases v.len(),
    {
        let ghost n = v.len();
        let last = v.pop();
        if let Some(x) = last {
            r.push(x);
        }
        assert(v@ =~= whole.take(n - 1));
    }
    r
}

/// What holds while two sorted sequences `a0` and `b0` are merged from
/// their ends: `s` is the merge of what was taken so far, the last
/// `a0.len() - i` samples of `a0` and the last `b0.len() - j` of `b0`.
spec fn merge_inv(a0: Seq<Cell>, b0: Seq<Cell>, i: int, j: int, s: Seq<Cell>) -> bool {
    &&& 0 <= i <= a0.len()
    &&& 0 <= j <= b0.len()
    &&& sorted_by_ts(s)
    &&& forall|t: i64| #[trigger]
        s.filter(at(t)) == a0.skip(i).filter(at(t)) + b0.skip(j).filter(at(t))
    &&& s.len() > 0 ==> forall|k: int| 0 <= k < i ==> (#[trigger] a0[k]).ts <= s[0].ts
    &&& s.len() > 0 ==> forall|k: int| 0 <= k < j ==> (#[trigger] b0[k]).ts <= s[0].ts
    &&& forall|ii: int, jj: int|
        i <= ii < a0.len() && 0 <= jj < j ==> (#[trigger] a0[ii]).ts > (#[trigger] b0[jj]).ts
}

proof fn lemma_merge_start(a0: Seq<Cell>, b0: Seq<Cell>)
    ensures
        merge_inv(a0, b0, a0.len() as int, b0.len() as int, Seq::empty()),
{
    let s = Seq::<Cell>::empty();
    assert forall|t: i64| #[trigger]
        s.filter(at(t)) == a0.skip(a0.len() as int).filter(at(t)) + b0.skip(
            b0.len() as int,
        ).filter(at(t)) by {
        reveal(Seq::filter);
        assert(a0.skip(a0.len() as int) =~= s);
        assert(b0.skip(b0.len() as int) =~= s);
        assert(s.filter(at(t)) =~= s.filter(at(t)) + s.filter(at(t)));
    }
}

proof fn lemma_prepend_sorted(x: Cell, s: Seq<Cell>)
    requires
        sorted_by_ts(s),
        s.len() > 0 ==> x.ts <= s[0].ts,
    ensures
        sorted_by_ts(seq![x] + s),
{
    let r = seq![x] + s;
    assert forall|k: int, m: int| 0 <= k <= m < r.len() implies r[k].ts <= r[m].ts by {
        if k == 0 && m > 0 {
            assert(r[m] == s[m - 1]);
            assert(s[0].ts <= s[m - 1].ts);
        } else if k > 0 {
            assert(r[k] == s[k - 1] && r[m] == s[m - 1]);
        }
    }
}

proof fn lemma_filter_one(x: Cell, t: i64)
    ensures
        seq![x].filter(at(t)) == if x.ts == t {
            seq![x]
        } else {
            Seq::<Cell>::empty()
        },
{
    reveal(Seq::filter);
    assert(seq![x].drop_last() =~= Seq::<Cell>::empty());
    assert(seq![x].drop_last().filter(at(t)) =~= Seq::<Cell>::empty());
    if x.ts == t {
        assert(Seq::<Cell>::empty().push(x) =~= seq![x]);
    }
}

proof fn lemma_merge_take_a(a0: Seq<Cell>, b0: Seq<Cell>, i: int, j: int, s: Seq<Cell>)
    requires
        sorted_by_ts(a0),
        sorted_by_ts(b0),
        merge_inv(a0, b0, i, j, s),
        i > 0,
        j == 0 || a0[i - 1].ts > b0[j - 1].ts,
    ensures
        merge_inv(a0, b0, i - 1, j, seq![a0[i - 1]] + s),
{
    let x = a0[i - 1];
    let r = seq![x] + s;
    lemma_prepend_sorted(x, s);
    assert(a0.skip(i - 1) =~= seq![x] + a0.skip(i));
    assert forall|t: i64| #[trigger]
        r.filter(at(t)) == a0.skip(i - 1).filter(at(t)) + b0.skip(j).filter(at(t)) by {
        Seq::filter_distributes_over_add(seq![x], s, at(t));
        Seq::filter_distributes_over_add(seq![x], a0.skip(i), at(t));
        let fx = seq![x].filter(at(t));
        let fa = a0.skip(i).filter(at(t));
        let fb = b0.skip(j).filter(at(t));
        assert(s.filter(at(t)) == fa + fb);
        assert(fx + (fa + fb) =~= (fx + fa) + fb);
    }
    assert(r[0] == x);
    assert forall|k: int| 0 <= k < j implies (#[trigger] b0[k]).ts <= r[0].ts by {
        assert(b0[k].ts <= b0[j - 1].ts);
    }
    assert forall|k: int| 0 <= k < i - 1 implies (#[trigger] a0[k]).ts <= r[0].ts by {
        assert(a0[k].ts <= a0[i - 1].ts);
    }
    assert forall|ii: int, jj: int| i - 1 <= ii < a0.len() && 0 <= jj < j implies (
    #[trigger] a0[ii]).ts > (#[trigger] b0[jj]).ts by {
        if ii == i - 1 {
            assert(b0[jj].ts <= b0[j - 1].ts);
        }
    }
}

proof fn lemma_merge_take_b(a0: Seq<Cell>, b0: Seq<Cell>, i: int, j: int, s: Seq<Cell>)
    requires
        sorted_by_ts(a0),
        sorted_by_ts(b0),
        merge_inv(a0, b0, i, j, s),
        j > 0,
        i == 0 || a0[i - 1].ts <= b0[j - 1].ts,
    ensures
        merge_inv(a0, b0, i, j - 1, seq![b0[j - 1]] + s),
{
    let y = b0[j - 1];
    let r = seq![y] + s;
    lemma_prepend_sorted(y, s);
    assert(b0.skip(j - 1) =~= seq![y] + b0.skip(j));
    let consumed = a0.skip(i);
    assert forall|t: i64| #[trigger]
        r.filter(at(t)) == a0.skip(i).filter(at(t)) + b0.skip(j - 1).filter(at(t)) by {
        Seq::filter_distributes_over_add(seq![y], s, at(t));
        Seq::filter_distributes_over_add(seq![y], b0.skip(j), at(t));
        lemma_filter_one(y, t);
        let fy = seq![y].filter(at(t));
        let fa = consumed.filter(at(t));
        let fb = b0.skip(j).filter(at(t));
        assert(s.filter(at(t)) == fa + fb);
        if y.ts == t {
            assert forall|k: int| 0 <= k < consumed.len() implies !at(t)(
                #[trigger] consumed[k],
            ) by {
                assert(consumed[k] == a0[i + k]);
                assert(a0[i + k].ts > b0[j - 1].ts);
            }
            consumed.lemma_all_neg_filter_empty(at(t));
            assert(fa =~= Seq::<Cell>::empty());
        }
        assert(fy + (fa + fb) =~= fa + (fy + fb));
    }
    assert(r[0] == y);
    assert forall|k: int| 0 <= k < j - 1 implies (#[trigger] b0[k]).ts <= r[0].ts by {
        assert(b0[k].ts <= b0[j - 1].ts);
    }
    assert forall|k: int| 0 <= k < i implies (#[trigger] a0[k]).ts <= r[0].ts by {
        assert(a0[k].ts <= a0[i - 1].ts);
    }
}

/// One sorted sequence out of two: the samples of `a` and `b` in
/// ascending order of time, where of two samples of equal time the one
/// of `a` comes first.
fn merge_sorted(a: Vec<DataType>, b: Vec<DataType>) -> (out: Vec<DataType>)
    requires
        sorted_by_ts(cell_views(a@)),
        sorted_by_ts(cell_views(b@)),
    ensures
        sorted_by_ts(cell_views(out@)),
        forall|t: i64| #[trigger]
            cell_views(out@).filter(at(t)) == cell_views(a@).filter(at(t)) + cell_views(
                b@,
            ).filter(at(t)),
{
    let ghost a0 = cell_views(a@);
    let ghost b0 = cell_views(b@);
    let mut a = a;
    let mut b = b;
    let mut rev: Vec<DataType> = Vec::new();
    let ghost mut s: Seq<Cell> = Seq::empty();
    proof {
        assert(cell_views(a@) =~= a0.take(a.len() as int));
        assert(cell_views(b@) =~= b0.take(b.len() as int));
        lemma_merge_start(a0, b0);
    }
    while a.len() > 0 || b.len() > 0
        invariant
            sorted_by_ts(a0),
            sorted_by_ts(b0),
            cell_views(a@) == a0.take(a.len() as int),
            cell_views(b@) == b0.take(b.len() as int),
            s.len() == rev.len(),
            forall|k: int| 0 <= k < s.len() ==> #[trigger] s[k] == rev[rev.len() - 1 - k]@,
            merge_inv(a0, b0, a.len() as int, b.len() as int, s),
        decreases a.len() + b.len(),
    {
        let ghost i = a.len() as int;
        let ghost j = b.len() as int;
        let ghost s_old = s;
        let from_a = if a.len() == 0 {
            false
        } else if b.len() == 0 {
            true
        } else {
            assert(cell_views(a@)[i - 1] == a0[i - 1]);
            assert(cell_views(b@)[j - 1] == b0[j - 1]);
            a[a.len() - 1].timestamp() > b[b.len() - 1].timestamp()
        };
        if from_a {
            assert(cell_views(a@)[i - 1] == a0[i - 1]);
            let taken = a.pop();
            if let Some(d) = taken {
                rev.push(d);
            }
            proof {
                s = seq![a0[i - 1]] + s_old;
                assert(cell_views(a@) =~= a0.take(i - 1));
                lemma_merge_take_a(a0, b0, i, j, s_old);
            }
        } else {
            assert(cell_views(b@)[j - 1] == b0[j - 1]);
            let taken = b.pop();
            if let Some(d) = taken {
                rev.push(d);
            }
            proof {
                s = seq![b0[j - 1]] + s_old;
                assert(cell_views(b@) =~= b0.take(j - 1));
                lemma_merge_take_b(a0, b0, i, j, s_old);
            }
        }
        assert forall|k: int| 0 <= k < s.len() implies #[trigger] s[k] == rev[rev.len() - 1
            - k]@ by {
            if k > 0 {
                assert(s[k] == s_old[k - 1]);
            }
        }
    }
    let out = reverse_cells(rev);
    proof {
        assert(cell_views(out@) =~= s);
        assert(a0.skip(0) =~= a0);
        assert(b0.skip(0) =~= b0);
    }
    out
}

/// Sorts `v` by time; samples of equal time keep their order.
pub fn sort_cells(v: Vec<DataType>) -> (out: Vec<DataType>)
    ensures
        cell_views(out@) == sort_by_ts(cell_views(v@)),
    decreases v.len(),
{
    let ghost whole = cell_views(v@);
    if v.len() <= 1 {
        proof {
            assert(sorted_by_ts(whole));
            lemma_sort_by_ts_sorted(whole);
        }
        return v;
    }
    let mid: usize = v.len() / 2;
    let mut left = v;
    let right = left.split_off(mid);
    let ghost l0 = cell_views(left@);
    let ghost r0 = cell_views(right@);
    assert(l0 + r0 =~= whole);
    let left = sort_cells(left);
    let right = sort_cells(right);
    proof {
        lemma_sort_by_ts(l0);
        lemma_sort_by_ts(r0);
    }
    let out = merge_sorted(left, right);
    proof {
        assert forall|t: i64| #[trigger] cell_views(out@).filter(at(t)) == whole.filter(at(t)) by {
            Seq::filter_distributes_over_add(l0, r0, at(t));
            assert(sort_by_ts(l0).filter(at(t)) == l0.filter(at(t)));
            assert(sort_by_ts(r0).filter(at(t)) == r0.filter(at(t)));
        }
        lemma_stable_sort_is_sort_by_ts(cell_views(out@), whole);
    }
    out
}

} // verus!
