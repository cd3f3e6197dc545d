//! What a table's files, bounds and snapshots say of its rows.
use crate::avro::ValueView;
use crate::format::meta::{holds, range_prunes_exactly, CmpOp, ColumnView, DataType, LitView};
use crate::iceberg::integer::{half_even, saturated};
use crate::iceberg::manifest::{entry_files, file_in, files_in, int_or, list_of};
use crate::iceberg::table::{
    appended, bound_of, bound_prunes, long_of, long_read_back, metadata_path_of, prunes, BoundView,
    FileView, SnapshotRef, TableView,
};
use crate::iceberg::warehouse::{
    bound_pushed, column_bounds, cut, cut_all, greatest, groups_from, least, no_bound, rows_total,
    sink_file, sink_files, BatchView,
};
use crate::relations::a_zone_spans_its_values;
use crate::text::{dec, dec_value, path_join, text_lt};
use crate::wire::le_i64;
use vstd::prelude::*;

verus! {

// ---------------------------------------------------------------------------
// Bounds
// ---------------------------------------------------------------------------

/// The bounds of an integer column are its least and its greatest value: both
/// occur. A column without rows is bounded by zero.
pub proof fn bounds_are_tight(cols: Seq<ColumnView>, ids: Seq<i32>, k: int, i: int)
    requires
        0 <= i < k <= cols.len(),
        forall|j: int| 0 <= j < k && j != i ==> #[trigger] ids[j] != ids[i],
        cols[i] is Int64,
    ensures
        ({
            let v = cols[i]->Int64_0;
            bound_of(column_bounds(cols, ids, k), ids[i]) matches Some(b) && {
                &&& v.len() > 0 ==> v.contains(long_of(b.lower)) && v.contains(long_of(b.upper))
                &&& forall|r: int|
                    0 <= r < v.len() ==> long_of(b.lower) <= #[trigger] v[r] <= long_of(b.upper)
                &&& v.len() == 0 ==> long_of(b.lower) == 0 && long_of(b.upper) == 0
            }
        }),
    decreases k,
{
    if i == k - 1 {
        let v = cols[i]->Int64_0;
        no_bound(cols, ids, k - 1, ids[i]);
        let x = BoundView { id: ids[i], lower: le_i64(least(v)), upper: le_i64(greatest(v)) };
        bound_pushed(column_bounds(cols, ids, k - 1), x, ids[i]);
        long_read_back(least(v));
        long_read_back(greatest(v));
        a_zone_spans_its_values(v);
    } else {
        bounds_are_tight(cols, ids, k - 1, i);
        if let ColumnView::Int64(v) = cols[k - 1] {
            let x = BoundView {
                id: ids[k - 1],
                lower: le_i64(least(v)),
                upper: le_i64(greatest(v)),
            };
            bound_pushed(column_bounds(cols, ids, k - 1), x, ids[i]);
        }
    }
}

/// Only integer columns are bounded.
pub proof fn texts_are_not_bounded(cols: Seq<ColumnView>, ids: Seq<i32>, k: int, i: int)
    requires
        0 <= i < k <= cols.len(),
        forall|j: int| 0 <= j < k && j != i ==> #[trigger] ids[j] != ids[i],
        cols[i] is Utf8,
    ensures
        bound_of(column_bounds(cols, ids, k), ids[i]) is None,
    decreases k,
{
    if i == k - 1 {
        no_bound(cols, ids, k - 1, ids[i]);
    } else {
        texts_are_not_bounded(cols, ids, k - 1, i);
        if let ColumnView::Int64(v) = cols[k - 1] {
            let x = BoundView {
                id: ids[k - 1],
                lower: le_i64(least(v)),
                upper: le_i64(greatest(v)),
            };
            bound_pushed(column_bounds(cols, ids, k - 1), x, ids[i]);
        }
    }
}

/// A file is ruled out for an integer exactly where it has bounds on the field
/// and no value between them satisfies the predicate.
pub proof fn a_file_is_ruled_out_exactly(f: FileView, id: i32, op: CmpOp, l: i64)
    requires
        bound_of(f.bounds, id) matches Some(b) ==> long_of(b.lower) <= long_of(b.upper),
    ensures
        prunes(f, id, DataType::Int64, op, LitView::Int(l)) <==> (bound_of(f.bounds, id) matches Some(
            b,
        ) && forall|v: i64|
            long_of(b.lower) <= v <= long_of(b.upper) ==> !#[trigger] holds(op, v, l)),
{
    if let Some(b) = bound_of(f.bounds, id) {
        range_prunes_exactly(op, long_of(b.lower), long_of(b.upper), l);
    }
}

/// Texts rule a file out for equality alone, where the literal lies outside
/// the bounds; a literal of another type than the field never does.
pub proof fn texts_rule_out_what_lies_outside(
    b: BoundView,
    op: CmpOp,
    s: Seq<char>,
    l: i64,
    lo: Seq<char>,
    hi: Seq<char>,
)
    ensures
        bound_prunes(b, DataType::Utf8, CmpOp::Eq, LitView::Str(s), lo, hi) <==> text_lt(s, lo)
            || text_lt(hi, s),
        op != CmpOp::Eq ==> !bound_prunes(b, DataType::Utf8, op, LitView::Str(s), lo, hi),
        !bound_prunes(b, DataType::Utf8, op, LitView::Int(l), lo, hi),
        !bound_prunes(b, DataType::Int64, op, LitView::Str(s), lo, hi),
{
}

// ---------------------------------------------------------------------------
// Row groups
// ---------------------------------------------------------------------------

/// The rows of one column over some row groups, end to end.
pub open spec fn over_groups(groups: Seq<Seq<ColumnView>>, i: int) -> ColumnView
    decreases groups.len(),
{
    if groups.len() == 0 {
        ColumnView::Int64(Seq::empty())
    } else {
        match (groups[0][i], over_groups(groups.skip(1), i)) {
            (ColumnView::Int64(a), ColumnView::Int64(b)) => ColumnView::Int64(a + b),
            (ColumnView::Utf8(a), ColumnView::Utf8(b)) => ColumnView::Utf8(a + b),
            (c, _) => c,
        }
    }
}

/// Row groups hold the rows of each column once and in order; each holds as
/// many as it should, and only the last may hold fewer.
pub proof fn row_groups_hold_each_row_once(cols: Seq<ColumnView>, n: int, start: int, step: int, i: int)
    requires
        0 <= start < n,
        step > 0,
        0 <= i < cols.len(),
        cols[i].len() >= n,
    ensures
        ({
            let g = groups_from(cols, n, start, step);
            &&& g.len() > 0
            &&& over_groups(g, i) == cut(cols[i], start, n)
            &&& forall|k: int|
                0 <= k < g.len() ==> 0 < (#[trigger] g[k])[i].len() <= step && (k < g.len() - 1
                    ==> g[k][i].len() == step)
        }),
    decreases n - start,
{
    let g = groups_from(cols, n, start, step);
    let end = if n - start <= step {
        n
    } else {
        start + step
    };
    let t = groups_from(cols, n, end, step);
    assert(g.skip(1) =~= t);
    assert(g[0] == cut_all(cols, start, end));
    assert(g[0][i] == cut(cols[i], start, end));
    if end < n {
        row_groups_hold_each_row_once(cols, n, end, step, i);
        match cols[i] {
            ColumnView::Int64(v) => {
                assert(v.subrange(start, end) + v.subrange(end, n) =~= v.subrange(start, n));
            },
            ColumnView::Utf8(v) => {
                assert(v.subrange(start, end) + v.subrange(end, n) =~= v.subrange(start, n));
            },
        }
        assert forall|k: int| 0 <= k < g.len() implies 0 < (#[trigger] g[k])[i].len() <= step && (k
            < g.len() - 1 ==> g[k][i].len() == step) by {
            if k > 0 {
                assert(g[k] == t[k - 1]);
            }
        }
    } else {
        assert(t.len() == 0);
        match cols[i] {
            ColumnView::Int64(v) => {
                assert(v.subrange(start, end) + Seq::<i64>::empty() =~= v.subrange(start, n));
            },
            ColumnView::Utf8(v) => {},
        }
    }
}

// ---------------------------------------------------------------------------
// Snapshots
// ---------------------------------------------------------------------------

/// A snapshot's list is that of the first snapshot with its number.
pub proof fn a_snapshot_is_found_by_its_number(s: Seq<SnapshotRef>, id: i64)
    ensures
        list_of(s, id) matches Some(p) ==> exists|i: int|
            0 <= i < s.len() && (#[trigger] s[i]).id == id && s[i].manifest_list == p && forall|j: int|
                0 <= j < i ==> (#[trigger] s[j]).id != id,
        list_of(s, id) is None ==> forall|j: int| 0 <= j < s.len() ==> (#[trigger] s[j]).id != id,
    decreases s.len(),
{
    if s.len() > 0 {
        let t = s.skip(1);
        a_snapshot_is_found_by_its_number(t, id);
        assert forall|j: int| 0 < j < s.len() implies #[trigger] s[j] == t[j - 1] by {}
        if s[0].id == id {
        } else if let Some(p) = list_of(s, id) {
            let i = choose|i: int|
                0 <= i < t.len() && (#[trigger] t[i]).id == id && t[i].manifest_list == p && forall|
                    j: int,
                |
                    0 <= j < i ==> (#[trigger] t[j]).id != id;
            assert(s[i + 1] == t[i]);
            assert forall|j: int| 0 <= j < i + 1 implies (#[trigger] s[j]).id != id by {
                if j > 0 {
                    assert(s[j] == t[j - 1]);
                }
            }
        }
    }
}

/// After an append the new snapshot is current and its list is found; older
/// snapshots, the schema and the place of the table stay, and the sequence
/// number goes up by one.
pub proof fn an_append_makes_its_snapshot_current(t: TableView, id: i64, list: Seq<char>)
    requires
        t.last_sequence_number < i64::MAX,
        forall|j: int| 0 <= j < t.snapshots.len() ==> (#[trigger] t.snapshots[j]).id != id,
    ensures
        ({
            let n = appended(t, id, list);
            &&& n.current_snapshot == Some(id)
            &&& list_of(n.snapshots, id) == Some(list)
            &&& forall|k: i64| k != id ==> #[trigger] list_of(n.snapshots, k) == list_of(t.snapshots, k)
            &&& n.last_sequence_number == t.last_sequence_number + 1
            &&& n.fields == t.fields && n.location == t.location && n.uuid == t.uuid
            &&& n.snapshots.len() == t.snapshots.len() + 1
        }),
{
    let x = SnapshotRef { id, manifest_list: list };
    list_pushed(t.snapshots, x, id);
    a_snapshot_is_found_by_its_number(t.snapshots, id);
    assert forall|k: i64| k != id implies #[trigger] list_of(appended(t, id, list).snapshots, k)
        == list_of(t.snapshots, k) by {
        list_pushed(t.snapshots, x, k);
    }
}

proof fn list_pushed(s: Seq<SnapshotRef>, x: SnapshotRef, id: i64)
    ensures
        list_of(s.push(x), id) == (match list_of(s, id) {
            Some(p) => Some(p),
            None => if x.id == id {
                Some(x.manifest_list)
            } else {
                None
            },
        }),
    decreases s.len(),
{
    let c = s.push(x);
    if s.len() > 0 {
        assert(c.skip(1) =~= s.skip(1).push(x));
        list_pushed(s.skip(1), x, id);
    } else {
        assert(c.skip(1) =~= Seq::empty());
        assert(list_of(c.skip(1), id) is None);
    }
}

/// Versions of a table's metadata are kept in different files.
pub proof fn versions_have_their_own_files(location: Seq<char>, a: u32, b: u32)
    requires
        metadata_path_of(location, a) == metadata_path_of(location, b),
    ensures
        a == b,
{
    let dir = path_join(location, "metadata"@);
    reveal_strlit("metadata");
    let (x, y) = (dec(a as nat), dec(b as nat));
    let end = ".metadata.json"@;
    let (n, m) = ("v"@ + x + end, "v"@ + y + end);
    let (p, q) = (path_join(dir, n), path_join(dir, m));
    let k = p.len() - n.len();
    assert(p.skip(k) =~= n);
    assert(k == q.len() - m.len());
    assert(q.skip(k) =~= m);
    assert(n == m);
    assert(x.len() == y.len());
    let v = "v"@.len() as int;
    assert(n.subrange(v, v + x.len()) =~= x);
    assert(m.subrange(v, v + x.len()) =~= y);
    dec_value(a as nat);
    dec_value(b as nat);
}

/// The rows of a manifest are those of its files together.
pub proof fn rows_of_files_add_up(files: Seq<FileView>, k: int)
    requires
        0 <= k < files.len(),
    ensures
        rows_total(files, 0) == 0,
        rows_total(files, k + 1) == rows_total(files, k) + files[k].record_count,
{
}

/// An epoch adds one file for each batch that holds anything, in order, each
/// with as many rows as its batch has keys.
pub proof fn a_batch_is_written_once(wh: Seq<char>, epoch_id: u64, b: Seq<BatchView>, k: int)
    requires
        0 <= k <= b.len(),
    ensures
        sink_files(wh, epoch_id, b, k) == b.take(k).filter(
            |x: BatchView| x.keys.len() > 0,
        ).map_values(|x: BatchView| sink_file(wh, epoch_id, x)),
        forall|x: BatchView|
            x.keys.len() <= i64::MAX ==> (#[trigger] sink_file(wh, epoch_id, x)).record_count
                == x.keys.len(),
    decreases k,
{
    reveal(Seq::filter);
    let f = |x: BatchView| x.keys.len() > 0;
    let g = |x: BatchView| sink_file(wh, epoch_id, x);
    if k > 0 {
        a_batch_is_written_once(wh, epoch_id, b, k - 1);
        assert(b.take(k).drop_last() =~= b.take(k - 1));
        assert(b.take(k).last() == b[k - 1]);
        let d = b.take(k - 1).filter(f);
        assert(d.push(b[k - 1]).map_values(g) =~= d.map_values(g).push(g(b[k - 1])));
    } else {
        assert(b.take(0) =~= Seq::empty());
        assert(Seq::<BatchView>::empty().filter(f) =~= Seq::empty());
        assert(sink_files(wh, epoch_id, b, 0) =~= Seq::<BatchView>::empty().map_values(g));
    }
}

// ---------------------------------------------------------------------------
// Rounding
// ---------------------------------------------------------------------------

/// A quotient is rounded to the nearest whole number, and a half to the even
/// one.
pub proof fn a_quotient_is_rounded_to_the_nearest(n: nat, d: nat)
    requires
        d > 0,
    ensures
        ({
            let q = half_even(n, d) as int;
            &&& -(d as int) <= 2 * (n - q * d) <= d
            &&& 2 * (n - q * d) == d || 2 * (n - q * d) == -(d as int) ==> q % 2 == 0
        }),
{
    let (a, r) = ((n / d) as int, (n % d) as int);
    vstd::arithmetic::div_mod::lemma_fundamental_div_mod(n as int, d as int);
    let q = half_even(n, d) as int;
    assert(n - a * d == r) by (nonlinear_arith)
        requires
            n as int == d * a + r,
    ;
    assert((a + 1) * d == a * d + d) by (nonlinear_arith);
}

/// A whole number keeps its sign and value, or becomes the end of the range
/// that it lies beyond.
pub proof fn a_number_is_kept_or_cut_to_the_range(negative: bool, v: nat)
    ensures
        v <= i64::MAX ==> saturated(negative, v) == if negative { -(v as int) } else { v as int },
        v > i64::MAX ==> saturated(negative, v) == if negative { i64::MIN } else { i64::MAX },
{
}

// ---------------------------------------------------------------------------
// Manifests
// ---------------------------------------------------------------------------

/// An entry adds its file, unless its status says that the file was deleted.
pub proof fn a_deleted_file_is_left_out(e: ValueView)
    ensures
        e.at("status"@) matches Some(st) ==> {
            &&& int_or(st, 1) == 2 ==> entry_files(e) == Some(Seq::<FileView>::empty())
            &&& int_or(st, 1) != 2 ==> (entry_files(e) matches Some(f) ==> f.len() == 1)
            &&& int_or(st, 1) != 2 ==> (e.at("data_file"@) matches Some(df) ==> (file_in(df) matches Some(
                f,
            ) ==> entry_files(e) == Some(seq![f])))
        },
        e.at("status"@) is None ==> entry_files(e) is None,
{
}

/// The files of a manifest are those of its entries one after another.
pub proof fn files_of_entries_follow_each_other(rows: Seq<ValueView>, k: int)
    requires
        0 <= k < rows.len(),
    ensures
        files_in(rows, 0) == Some(Seq::<FileView>::empty()),
        match (files_in(rows, k), entry_files(rows[k])) {
            (Some(a), Some(b)) => files_in(rows, k + 1) == Some(a + b),
            _ => files_in(rows, k + 1) is None,
        },
{
}

} // verus!
