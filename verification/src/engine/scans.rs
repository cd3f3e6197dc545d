//! What scans read, said of the rows that were written.
use crate::engine::execute::{file_rows, group_rows, scan_rows, ReaderView};
use crate::engine::scan::{common, scan_fits};
use crate::engine::scan_laws::{group_sound, passes, passing, preds_typed, scan_finds_exactly_the_matches};
use crate::engine::values::{cell_of, CellView};
use crate::format::meta::{CmpOp, ColumnView, FieldView, LitView, RowGroupView};
use crate::format::reader::Counters;
use crate::format::roundtrip::{column_at, file_image, group_metas};
use crate::plan::physical::{BoundPredView, ScanView};
use vstd::prelude::*;

verus! {

/// The common members of two ascending lists are those that are in both, in
/// order.
pub proof fn common_members_are_in_both(a: Seq<u32>, b: Seq<u32>, x: u32)
    requires
        forall|i: int, j: int| 0 <= i < j < a.len() ==> a[i] < a[j],
        forall|i: int, j: int| 0 <= i < j < b.len() ==> b[i] < b[j],
    ensures
        common(a, b).contains(x) <==> a.contains(x) && b.contains(x),
        forall|i: int, j: int| 0 <= i < j < common(a, b).len() ==> common(a, b)[i] < common(a, b)[j],
        forall|i: int|
            0 <= i < common(a, b).len() ==> a.len() > 0 && b.len() > 0 && #[trigger] common(a, b)[i]
                >= a[0] && common(a, b)[i] >= b[0],
    decreases a.len() + b.len(),
{
    if a.len() > 0 && b.len() > 0 {
        let (s, t) = (a.skip(1), b.skip(1));
        let c = common(a, b);
        assert(a.contains(x) <==> a[0] == x || s.contains(x)) by {
            front_or_rest(a, x);
        }
        assert(b.contains(x) <==> b[0] == x || t.contains(x)) by {
            front_or_rest(b, x);
        }
        if a[0] < b[0] {
            common_members_are_in_both(s, b, x);
            if b.contains(x) {
                let i = choose|i: int| 0 <= i < b.len() && b[i] == x;
                assert(b[i] >= b[0]);
            }
            assert forall|i: int| 0 <= i < c.len() implies #[trigger] c[i] >= a[0] && c[i] >= b[0] by {
                assert(c[i] >= s[0]);
            }
        } else if a[0] > b[0] {
            common_members_are_in_both(a, t, x);
            if a.contains(x) {
                let i = choose|i: int| 0 <= i < a.len() && a[i] == x;
                assert(a[i] >= a[0]);
            }
            assert forall|i: int| 0 <= i < c.len() implies #[trigger] c[i] >= a[0] && c[i] >= b[0] by {
                assert(c[i] >= t[0]);
            }
        } else {
            common_members_are_in_both(s, t, x);
            let d = common(s, t);
            assert(c == seq![a[0]] + d);
            front_or_rest(c, x);
            assert(c.skip(1) =~= d);
            if s.contains(x) {
                let i = choose|i: int| 0 <= i < s.len() && s[i] == x;
                assert(a[i + 1] > a[0]);
            }
            if t.contains(x) {
                let i = choose|i: int| 0 <= i < t.len() && t[i] == x;
                assert(b[i + 1] > b[0]);
            }
            assert forall|i: int| 0 <= i < c.len() implies #[trigger] c[i] >= a[0] && c[i] >= b[0] by {
                if i > 0 {
                    assert(c[i] == d[i - 1]);
                    assert(d[i - 1] >= s[0]);
                }
            }
            assert forall|i: int, j: int| 0 <= i < j < c.len() implies c[i] < c[j] by {
                assert(c[j] == d[j - 1]);
                if i > 0 {
                    assert(c[i] == d[i - 1]);
                } else {
                    assert(d[j - 1] >= s[0]);
                    assert(s[0] == a[1]);
                    assert(a[0] < a[1]);
                }
            }
        }
    }
}

proof fn front_or_rest(s: Seq<u32>, x: u32)
    requires
        s.len() > 0,
    ensures
        s.contains(x) <==> s[0] == x || s.skip(1).contains(x),
{
    let t = s.skip(1);
    if s.contains(x) {
        let i = choose|i: int| 0 <= i < s.len() && s[i] == x;
        if i > 0 {
            assert(t[i - 1] == x);
        }
    }
    if t.contains(x) {
        let i = choose|i: int| 0 <= i < t.len() && t[i] == x;
        assert(s[i + 1] == x);
    }
}

/// The rows that pass are exactly those that satisfy every predicate: an
/// integer by the relation that the operator is written as, a text by being
/// the literal.
pub proof fn rows_pass_by_every_predicate(
    cols: Seq<ColumnView>,
    preds: Seq<BoundPredView>,
    n: nat,
    x: u32,
)
    requires
        n <= u32::MAX,
    ensures
        passing(cols, preds, n).contains(x) <==> x < n && forall|k: int|
            0 <= k < preds.len() ==> meets(#[trigger] preds[k], cols[preds[k].col_idx], x as int),
        forall|i: int, j: int|
            0 <= i < j < passing(cols, preds, n).len() ==> passing(cols, preds, n)[i] < passing(
                cols,
                preds,
                n,
            )[j],
        forall|i: int| 0 <= i < passing(cols, preds, n).len() ==> #[trigger] passing(cols, preds, n)[i] < n,
    decreases n,
{
    if n > 0 {
        let m = (n - 1) as nat;
        rows_pass_by_every_predicate(cols, preds, m, x);
        let p = passing(cols, preds, m);
        let q = passing(cols, preds, n);
        if q.contains(x) {
            let i = choose|i: int| 0 <= i < q.len() && q[i] == x;
            if i < p.len() {
                assert(p[i] == x);
            } else {
                assert(x == m);
            }
        }
        if p.contains(x) {
            let i = choose|i: int| 0 <= i < p.len() && p[i] == x;
            assert(q[i] == x);
        }
        if passes(cols, preds, m as int) {
            assert(q[p.len() as int] == m as u32);
            if x == m {
                assert(q.contains(x));
                assert forall|k: int| 0 <= k < preds.len() implies meets(
                    #[trigger] preds[k],
                    cols[preds[k].col_idx],
                    x as int,
                ) by {
                    assert(crate::engine::scan_laws::holds_at(
                        cols[preds[k].col_idx],
                        preds[k].op,
                        preds[k].lit,
                        x as int,
                    ));
                }
            }
        } else if x == m {
            let k = choose|k: int|
                0 <= k < preds.len() && !crate::engine::scan_laws::holds_at(
                    cols[(#[trigger] preds[k]).col_idx],
                    preds[k].op,
                    preds[k].lit,
                    m as int,
                );
            assert(!meets(preds[k], cols[preds[k].col_idx], x as int));
        }
    }
}

/// Whether a value of a column satisfies a predicate, written out.
pub open spec fn meets(p: BoundPredView, col: ColumnView, r: int) -> bool {
    match (col, p.lit) {
        (ColumnView::Int64(v), LitView::Int(l)) => match p.op {
            CmpOp::Gt => v[r] > l,
            CmpOp::Lt => v[r] < l,
            CmpOp::Ge => v[r] >= l,
            CmpOp::Le => v[r] <= l,
            CmpOp::Eq => v[r] == l,
        },
        (ColumnView::Utf8(v), LitView::Str(s)) => v[r] == s,
        _ => false,
    }
}

/// A scan of a row group that was written gives, for each row that passes, the
/// cells of the columns asked for.
pub proof fn a_written_group_is_scanned(
    schema: Seq<FieldView>,
    groups: Seq<Seq<ColumnView>>,
    g: int,
    scan: ScanView,
    c: Counters,
)
    requires
        file_image(schema, groups).len() <= u64::MAX,
        0 <= g < groups.len(),
        groups[g].len() > 0,
        group_sound(groups[g], groups[g][0].len()),
        preds_typed(groups[g], scan.preds),
        forall|k: int|
            0 <= k < scan.cols.len() ==> 0 <= (#[trigger] scan.cols[k]).idx < groups[g].len(),
        scan_fits(group_metas(groups)[g], scan),
    ensures
        ({
            let cols = groups[g];
            let keep = passing(cols, scan.preds, cols[0].len());
            group_rows(file_image(schema, groups), group_metas(groups)[g], scan, c) matches Some(
                (rows, _),
            ) && {
                &&& rows.len() == keep.len()
                &&& forall|r: int|
                    #![trigger rows[r]]
                    0 <= r < rows.len() ==> rows[r].len() == scan.cols.len() && forall|k: int|
                        0 <= k < scan.cols.len() ==> #[trigger] rows[r][k] == (
                        match cols[scan.cols[k].idx] {
                            ColumnView::Int64(v) => CellView::I(v[keep[r] as int]),
                            ColumnView::Utf8(v) => CellView::S(v[keep[r] as int]),
                        })
            }
        }),
{
    let cols = groups[g];
    let keep = passing(cols, scan.preds, cols[0].len());
    scan_finds_exactly_the_matches(schema, groups, g, scan, c);
    let (rows, d) = group_rows(file_image(schema, groups), group_metas(groups)[g], scan, c)->0;
    assert forall|r: int|
        #![trigger rows[r]]
        0 <= r < rows.len() implies rows[r].len() == scan.cols.len() && forall|k: int|
        0 <= k < scan.cols.len() ==> #[trigger] rows[r][k] == (match cols[scan.cols[k].idx] {
            ColumnView::Int64(v) => CellView::I(v[keep[r] as int]),
            ColumnView::Utf8(v) => CellView::S(v[keep[r] as int]),
        }) by {
        assert forall|k: int| 0 <= k < scan.cols.len() implies #[trigger] rows[r][k] == (
        match cols[scan.cols[k].idx] {
            ColumnView::Int64(v) => CellView::I(v[keep[r] as int]),
            ColumnView::Utf8(v) => CellView::S(v[keep[r] as int]),
        }) by {
            assert(rows[r][k] == cell_of(column_at(cols[scan.cols[k].idx], keep), r));
        }
    }
}

/// The rows of a file are those of its row groups one after another; a group
/// that cannot be read spoils all.
pub proof fn rows_of_groups_follow_each_other(
    file: Seq<u8>,
    rgs: Seq<RowGroupView>,
    g: RowGroupView,
    scan: ScanView,
    c: Counters,
)
    ensures
        file_rows(file, Seq::empty(), scan, c) == Some((Seq::<Seq<CellView>>::empty(), c)),
        match file_rows(file, rgs, scan, c) {
            None => file_rows(file, rgs.push(g), scan, c) is None,
            Some((rows, d)) => match group_rows(file, g, scan, d) {
                None => file_rows(file, rgs.push(g), scan, c) is None,
                Some((more, e)) => file_rows(file, rgs.push(g), scan, c) == Some((rows + more, e)),
            },
        },
{
    assert(rgs.push(g).drop_last() =~= rgs);
    assert(rgs.push(g).last() == g);
}

/// The rows of a scan are those of its files one after another; a file that
/// cannot be read spoils all.
pub proof fn rows_of_files_follow_each_other(
    readers: Seq<ReaderView>,
    r: ReaderView,
    scan: ScanView,
)
    ensures
        scan_rows(Seq::empty(), scan) == Some(Seq::<Seq<CellView>>::empty()),
        match scan_rows(readers, scan) {
            None => scan_rows(readers.push(r), scan) is None,
            Some(rows) => match file_rows(r.file, r.rowgroups, scan, r.counters) {
                None => scan_rows(readers.push(r), scan) is None,
                Some((more, _)) => scan_rows(readers.push(r), scan) == Some(rows + more),
            },
        },
{
    assert(readers.push(r).drop_last() =~= readers);
    assert(readers.push(r).last() == r);
}

} // verus!
