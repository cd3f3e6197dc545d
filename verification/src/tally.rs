//! What an accumulator is of the values that went into it, and how many rows
//! stand behind it.
use crate::engine::values::Acc as RowAcc;
use crate::kernel::{acc_of, grouped, keyed_rows, picked, Acc, Keyed};
use vstd::arithmetic::div_mod::lemma_mod_add_multiples_vanish;
use vstd::prelude::*;

verus! {

/// The sum of some integers.
pub open spec fn total(v: Seq<i64>) -> int
    decreases v.len(),
{
    if v.len() == 0 { 0 } else { v[0] + total(v.skip(1)) }
}

/// Whether two integers are the same modulo `2^64`.
pub open spec fn same_word(a: int, b: int) -> bool {
    (a - b) % 0x1_0000_0000_0000_0000 == 0
}

/// Whether `lo` and `hi` are the least and the greatest of some values, or the
/// ends of the type where there is none.
pub open spec fn spans(lo: i64, hi: i64, v: Seq<i64>) -> bool {
    &&& forall|i: int| 0 <= i < v.len() ==> lo <= #[trigger] v[i] && v[i] <= hi
    &&& if v.len() > 0 {
        v.contains(lo) && v.contains(hi)
    } else {
        lo == i64::MAX && hi == i64::MIN
    }
}

/// Whether an accumulator stands for `n` rows, of which some have these values.
pub open spec fn tallies(a: RowAcc, n: int, v: Seq<i64>) -> bool {
    &&& same_word(a.count as int, n)
    &&& same_word(a.sum as int, total(v))
    &&& spans(a.min, a.max, v)
}

/// Whether a kernel's accumulator stands for these values.
pub open spec fn sums_up(a: Acc, v: Seq<i64>) -> bool {
    &&& same_word(a.count as int, v.len() as int)
    &&& same_word(a.sum as int, total(v))
    &&& spans(a.min, a.max, v)
}

pub proof fn total_concat(a: Seq<i64>, b: Seq<i64>)
    ensures
        total(a + b) == total(a) + total(b),
    decreases a.len(),
{
    if a.len() == 0 {
        assert(a + b =~= b);
    } else {
        assert((a + b).skip(1) =~= a.skip(1) + b);
        total_concat(a.skip(1), b);
    }
}

proof fn total_push(a: Seq<i64>, x: i64)
    ensures
        total(a.push(x)) == total(a) + x,
{
    assert(a.push(x) =~= a + seq![x]);
    total_concat(a, seq![x]);
    assert(seq![x].skip(1) =~= Seq::<i64>::empty());
    assert(total(seq![x]) == x + total(seq![x].skip(1)));
}

/// Adding on both sides, with any number of turns, keeps words the same.
proof fn words_add(a: int, b: int, c: int, d: int, s: int)
    requires
        same_word(a, b),
        same_word(c, d),
        s == a + c || s == a + c - 0x1_0000_0000_0000_0000 || s == a + c + 0x1_0000_0000_0000_0000,
    ensures
        same_word(s, b + d),
{
    let m = 0x1_0000_0000_0000_0000int;
    vstd::arithmetic::div_mod::lemma_add_mod_noop(a - b, c - d, m);
    let x = (a - b) + (c - d);
    assert(x % m == 0);
    lemma_mod_add_multiples_vanish(x, m);
    lemma_mod_add_multiples_vanish(x - m, m);
}

proof fn spans_push(lo: i64, hi: i64, v: Seq<i64>, x: i64)
    requires
        spans(lo, hi, v),
    ensures
        spans(if x < lo { x } else { lo }, if x > hi { x } else { hi }, v.push(x)),
{
    let w = v.push(x);
    assert(w[v.len() as int] == x);
    if v.len() > 0 {
        let i = choose|i: int| 0 <= i < v.len() && v[i] == lo;
        let j = choose|j: int| 0 <= j < v.len() && v[j] == hi;
        assert(w[i] == lo && w[j] == hi);
    }
    assert forall|i: int| 0 <= i < w.len() implies (if x < lo { x } else { lo }) <= #[trigger] w[i]
        && w[i] <= (if x > hi { x } else { hi }) by {
        if i < v.len() {
            assert(w[i] == v[i]);
        }
    }
}

proof fn spans_concat(a: i64, b: i64, v: Seq<i64>, c: i64, d: i64, w: Seq<i64>)
    requires
        spans(a, b, v),
        spans(c, d, w),
    ensures
        spans(if c < a { c } else { a }, if d > b { d } else { b }, v + w),
{
    let u = v + w;
    if v.len() > 0 {
        let i = choose|i: int| 0 <= i < v.len() && v[i] == a;
        let j = choose|j: int| 0 <= j < v.len() && v[j] == b;
        assert(u[i] == a && u[j] == b);
    }
    if w.len() > 0 {
        let i = choose|i: int| 0 <= i < w.len() && w[i] == c;
        let j = choose|j: int| 0 <= j < w.len() && w[j] == d;
        assert(u[v.len() + i] == c && u[v.len() + j] == d);
    }
    assert forall|i: int| 0 <= i < u.len() implies (if c < a { c } else { a }) <= #[trigger] u[i]
        && u[i] <= (if d > b { d } else { b }) by {
        if i < v.len() {
            assert(u[i] == v[i]);
        } else {
            assert(u[i] == w[i - v.len()]);
        }
    }
}

/// An accumulator starts with no rows, counts every value and every row that
/// is added to it, and stands for the rows of both after a merge.
pub proof fn row_acc_tallies(a: RowAcc, n: int, v: Seq<i64>, b: RowAcc, m: int, w: Seq<i64>, x: i64)
    requires
        tallies(a, n, v),
        tallies(b, m, w),
    ensures
        tallies(RowAcc::empty(), 0, Seq::empty()),
        tallies(a.added(x), n + 1, v.push(x)),
        tallies(a.counted(), n + 1, v),
        tallies(a.merged(b), n + m, v + w),
{
    total_push(v, x);
    total_concat(v, w);
    words_add(a.sum as int, total(v), x as int, x as int, a.added(x).sum as int);
    words_add(a.count as int, n, 1, 1, a.added(x).count as int);
    words_add(a.count as int, n, 1, 1, a.counted().count as int);
    words_add(a.sum as int, total(v), b.sum as int, total(w), a.merged(b).sum as int);
    words_add(a.count as int, n, b.count as int, m, a.merged(b).count as int);
    spans_push(a.min, a.max, v, x);
    spans_concat(a.min, a.max, v, b.min, b.max, w);
}

/// A kernel's accumulator starts with nothing, stands for every value that was
/// pushed, and for those of both after a merge.
pub proof fn acc_sums_up(a: Acc, v: Seq<i64>, b: Acc, w: Seq<i64>, x: i64)
    requires
        sums_up(a, v),
        sums_up(b, w),
    ensures
        sums_up(Acc::none(), Seq::empty()),
        sums_up(a.with(x), v.push(x)),
        sums_up(a.merged(b), v + w),
{
    total_push(v, x);
    total_concat(v, w);
    words_add(a.sum as int, total(v), x as int, x as int, a.with(x).sum as int);
    words_add(a.count as int, v.len() as int, 1, 1, a.with(x).count as int);
    words_add(a.sum as int, total(v), b.sum as int, total(w), a.merged(b).sum as int);
    words_add(
        a.count as int,
        v.len() as int,
        b.count as int,
        w.len() as int,
        a.merged(b).count as int,
    );
    spans_push(a.min, a.max, v, x);
    spans_concat(a.min, a.max, v, b.min, b.max, w);
}

/// The accumulator of a column sums, counts and bounds its values.
pub proof fn column_sums_up(v: Seq<i64>)
    ensures
        sums_up(acc_of(v), v),
    decreases v.len(),
{
    if v.len() > 0 {
        column_sums_up(v.drop_last());
        let none = Acc::none();
        assert(sums_up(none, Seq::empty()));
        acc_sums_up(acc_of(v.drop_last()), v.drop_last(), none, Seq::empty(), v.last());
        assert(v.drop_last().push(v.last()) =~= v);
    }
}

/// The accumulator of a selection is that of the values at its rows.
pub proof fn selection_sums_up(data: Seq<i64>, sel: Seq<u32>)
    ensures
        sums_up(acc_of(picked(data, sel)), Seq::new(sel.len(), |i: int| data[sel[i] as int])),
{
    column_sums_up(picked(data, sel));
    assert(picked(data, sel) =~= Seq::new(sel.len(), |i: int| data[sel[i] as int]));
}

/// The values of the rows with a key, in order.
pub open spec fn of_key(rows: Seq<Keyed>, k: i64) -> Seq<i64> {
    rows.filter(|r: Keyed| r.key == k).map_values(|r: Keyed| r.val)
}

/// Grouping gives every key that occurs, and no other, the accumulator of the
/// values of its rows.
pub proof fn every_key_sums_up(rows: Seq<Keyed>, k: i64)
    ensures
        grouped(rows).contains_key(k) <==> exists|i: int|
            0 <= i < rows.len() && (#[trigger] rows[i]).key == k,
        grouped(rows).contains_key(k) ==> sums_up(grouped(rows)[k], of_key(rows, k)),
    decreases rows.len(),
{
    reveal(Seq::filter);
    let f = |r: Keyed| r.key == k;
    let g = |r: Keyed| r.val;
    if rows.len() > 0 {
        let d = rows.drop_last();
        let x = rows.last();
        every_key_sums_up(d, k);
        assert(x == rows[rows.len() - 1]);
        if exists|i: int| 0 <= i < rows.len() && (#[trigger] rows[i]).key == k {
            let i = choose|i: int| 0 <= i < rows.len() && (#[trigger] rows[i]).key == k;
            if i < d.len() {
                assert(d[i].key == k);
            }
        }
        if exists|i: int| 0 <= i < d.len() && (#[trigger] d[i]).key == k {
            let i = choose|i: int| 0 <= i < d.len() && (#[trigger] d[i]).key == k;
            assert(rows[i].key == k);
        }
        if x.key == k {
            let a = if grouped(d).contains_key(k) { grouped(d)[k] } else { Acc::none() };
            if !grouped(d).contains_key(k) {
                key_absent(d, k);
            }
            assert(sums_up(a, of_key(d, k)));
            acc_sums_up(a, of_key(d, k), a, of_key(d, k), x.val);
            assert(of_key(rows, k) =~= of_key(d, k).push(x.val));
        } else {
            assert(rows.filter(f) =~= d.filter(f));
        }
    }
}

proof fn key_absent(rows: Seq<Keyed>, k: i64)
    requires
        forall|i: int| 0 <= i < rows.len() ==> (#[trigger] rows[i]).key != k,
    ensures
        of_key(rows, k) == Seq::<i64>::empty(),
    decreases rows.len(),
{
    reveal(Seq::filter);
    if rows.len() > 0 {
        assert forall|i: int| 0 <= i < rows.drop_last().len() implies (
        #[trigger] rows.drop_last()[i]).key != k by {
            assert(rows[i].key != k);
        }
        key_absent(rows.drop_last(), k);
        assert(rows.last() == rows[rows.len() - 1]);
    }
    assert(of_key(rows, k) =~= Seq::<i64>::empty());
}

/// The rows that are grouped pair each key with the value at the same row.
pub proof fn keyed_rows_pair_up(keys: Seq<i64>, vals: Seq<i64>, sel: Option<Seq<u32>>)
    ensures
        match sel {
            None => keyed_rows(keys, vals, sel).len() == keys.len() && forall|i: int|
                0 <= i < keys.len() ==> (#[trigger] keyed_rows(keys, vals, sel)[i]).key == keys[i]
                    && keyed_rows(keys, vals, sel)[i].val == vals[i],
            Some(s) => keyed_rows(keys, vals, sel).len() == s.len() && forall|i: int|
                0 <= i < s.len() ==> (#[trigger] keyed_rows(keys, vals, sel)[i]).key
                    == keys[s[i] as int] && keyed_rows(keys, vals, sel)[i].val == vals[s[i] as int],
        },
{
}

} // verus!
