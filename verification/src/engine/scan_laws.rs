//! Scanning a written file finds exactly the rows that satisfy every
//! predicate, whatever zone maps let it skip.
use crate::engine::scan::{common, gathered_all, scanned, selected, BatchView};
use crate::format::meta::{holds, ChunkView, CmpOp, ColumnView, FieldView, LitView, RowGroupView};
use crate::format::reader::{
    all_rows, evaluated, gathered, hits, pred_typed, Counters,
};
use crate::format::roundtrip::{
    ascending, column_at, file_image, group_metas, rows_where, written_file_reads_back,
};
use crate::format::writer::column_fits;
use crate::plan::physical::{BoundPredView, ColView, ScanView};
use vstd::prelude::*;

verus! {

/// Whether a column satisfies a predicate at a row.
pub open spec fn holds_at(col: ColumnView, op: CmpOp, lit: LitView, i: int) -> bool {
    match (col, lit) {
        (ColumnView::Int64(v), LitView::Int(l)) => holds(op, v[i], l),
        (ColumnView::Utf8(v), LitView::Str(s)) => v[i] == s,
        _ => false,
    }
}

/// Whether a row satisfies all predicates.
pub open spec fn passes(cols: Seq<ColumnView>, preds: Seq<BoundPredView>, i: int) -> bool {
    forall|k: int|
        0 <= k < preds.len() ==> holds_at(
            cols[(#[trigger] preds[k]).col_idx],
            preds[k].op,
            preds[k].lit,
            i,
        )
}

/// The rows below `n` that satisfy all predicates, in order.
pub open spec fn passing(cols: Seq<ColumnView>, preds: Seq<BoundPredView>, n: nat) -> Seq<u32>
    decreases n,
{
    if n == 0 {
        Seq::empty()
    } else {
        let p = passing(cols, preds, (n - 1) as nat);
        if passes(cols, preds, n - 1) { p.push((n - 1) as u32) } else { p }
    }
}

spec fn strict(s: Seq<u32>) -> bool {
    forall|i: int, j: int| 0 <= i < j < s.len() ==> s[i] < s[j]
}

/// Ascending lists with the same members are the same.
proof fn strict_unique(a: Seq<u32>, b: Seq<u32>)
    requires
        strict(a),
        strict(b),
        forall|x: u32| a.contains(x) <==> b.contains(x),
    ensures
        a == b,
    decreases a.len(),
{
    if a.len() == 0 {
        if b.len() > 0 {
            assert(b.contains(b[0]));
        }
        assert(a =~= b);
    } else {
        assert(a.contains(a[0]));
        assert(b.contains(a[0]));
        assert(b.len() > 0);
        assert(b.contains(b[0]));
        assert(a.contains(b[0]));
        let i = choose|i: int| 0 <= i < a.len() && a[i] == b[0];
        let j = choose|j: int| 0 <= j < b.len() && b[j] == a[0];
        assert(a[0] == b[0]);
        let a1 = a.skip(1);
        let b1 = b.skip(1);
        assert forall|x: u32| a1.contains(x) <==> b1.contains(x) by {
            if a1.contains(x) {
                let k = choose|k: int| 0 <= k < a1.len() && a1[k] == x;
                assert(a[k + 1] == x);
                assert(a.contains(x));
                let l = choose|l: int| 0 <= l < b.len() && b[l] == x;
                assert(a[0] < a[k + 1]);
                assert(b1[l - 1] == x);
            }
            if b1.contains(x) {
                let k = choose|k: int| 0 <= k < b1.len() && b1[k] == x;
                assert(b[k + 1] == x);
                assert(b.contains(x));
                let l = choose|l: int| 0 <= l < a.len() && a[l] == x;
                assert(b[0] < b[k + 1]);
                assert(a1[l - 1] == x);
            }
        }
        strict_unique(a1, b1);
        assert(a =~= seq![a[0]] + a1);
        assert(b =~= seq![b[0]] + b1);
    }
}

proof fn push_members(s: Seq<u32>, v: u32, x: u32)
    ensures
        s.push(v).contains(x) <==> s.contains(x) || x == v,
{
    let t = s.push(v);
    if s.contains(x) {
        let k = choose|k: int| 0 <= k < s.len() && s[k] == x;
        assert(t[k] == x);
    }
    assert(t[s.len() as int] == v);
    if t.contains(x) {
        let k = choose|k: int| 0 <= k < t.len() && t[k] == x;
        if k < s.len() {
            assert(s[k] == x);
        }
    }
}

proof fn hits_members<T>(vals: Seq<T>, hit: spec_fn(T) -> bool)
    requires
        vals.len() <= u32::MAX,
    ensures
        strict(hits(vals, 0, hit)),
        forall|x: u32|
            hits(vals, 0, hit).contains(x) <==> x < vals.len() && hit(#[trigger] vals[x as int]),
        forall|i: int| 0 <= i < hits(vals, 0, hit).len() ==> (#[trigger] hits(vals, 0, hit)[i])
            < vals.len(),
    decreases vals.len(),
{
    if vals.len() > 0 {
        let d = vals.drop_last();
        let h = hits(d, 0, hit);
        let n = (vals.len() - 1) as u32;
        hits_members(d, hit);
        assert forall|x: u32|
            hits(vals, 0, hit).contains(x) <==> x < vals.len() && hit(
                #[trigger] vals[x as int],
            ) by {
            if x < d.len() {
                assert(d[x as int] == vals[x as int]);
            }
            push_members(h, n, x);
            assert(h.contains(x) <==> x < d.len() && hit(d[x as int]));
        }
    }
}

proof fn passing_members(cols: Seq<ColumnView>, preds: Seq<BoundPredView>, n: nat)
    requires
        n <= u32::MAX,
    ensures
        strict(passing(cols, preds, n)),
        forall|x: u32|
            passing(cols, preds, n).contains(x) <==> x < n && #[trigger] passes(
                cols,
                preds,
                x as int,
            ),
        forall|i: int|
            0 <= i < passing(cols, preds, n).len() ==> (#[trigger] passing(cols, preds, n)[i]) < n,
    decreases n,
{
    if n > 0 {
        let p = passing(cols, preds, (n - 1) as nat);
        passing_members(cols, preds, (n - 1) as nat);
        assert forall|x: u32|
            passing(cols, preds, n).contains(x) <==> x < n && #[trigger] passes(
                cols,
                preds,
                x as int,
            ) by {
            push_members(p, (n - 1) as u32, x);
            assert(p.contains(x) <==> x < n - 1 && passes(cols, preds, x as int));
        }
    }
}

/// Walking two ascending lists finds their common members.
proof fn common_members(a: Seq<u32>, b: Seq<u32>)
    requires
        strict(a),
        strict(b),
    ensures
        strict(common(a, b)),
        forall|x: u32| #[trigger] common(a, b).contains(x) <==> a.contains(x) && b.contains(x),
    decreases a.len() + b.len(),
{
    if a.len() > 0 && b.len() > 0 {
        let a1 = a.skip(1);
        let b1 = b.skip(1);
        assert(a =~= seq![a[0]] + a1);
        assert(b =~= seq![b[0]] + b1);
        assert forall|x: u32| a.contains(x) <==> x == a[0] || a1.contains(x) by {
            skip_members(a, x);
        }
        assert forall|x: u32| b.contains(x) <==> x == b[0] || b1.contains(x) by {
            skip_members(b, x);
        }
        if a[0] < b[0] {
            common_members(a1, b);
            assert(!b.contains(a[0])) by {
                if b.contains(a[0]) {
                    let k = choose|k: int| 0 <= k < b.len() && b[k] == a[0];
                    assert(b[0] <= b[k]);
                }
            }
        } else if a[0] > b[0] {
            common_members(a, b1);
            assert(!a.contains(b[0])) by {
                if a.contains(b[0]) {
                    let k = choose|k: int| 0 <= k < a.len() && a[k] == b[0];
                    assert(a[0] <= a[k]);
                }
            }
        } else {
            common_members(a1, b1);
            let t = common(a1, b1);
            let c = seq![a[0]] + t;
            assert forall|x: u32| #[trigger] c.contains(x) <==> x == a[0] || t.contains(x) by {
                assert(c.skip(1) =~= t);
                skip_members(c, x);
            }
            assert forall|i: int, j: int| 0 <= i < j < c.len() implies c[i] < c[j] by {
                if i == 0 {
                    assert(t[j - 1] == c[j]);
                    assert(t.contains(c[j]));
                    assert(a1.contains(c[j]));
                    let k = choose|k: int| 0 <= k < a1.len() && a1[k] == c[j];
                    assert(a[0] < a[k + 1]);
                } else {
                    assert(t[i - 1] < t[j - 1]);
                }
            }
        }
    }
}

proof fn skip_members(s: Seq<u32>, x: u32)
    requires
        s.len() > 0,
    ensures
        s.contains(x) <==> x == s[0] || s.skip(1).contains(x),
{
    let t = s.skip(1);
    if s.contains(x) {
        let k = choose|k: int| 0 <= k < s.len() && s[k] == x;
        if k > 0 {
            assert(t[k - 1] == x);
        }
    }
    if t.contains(x) {
        let k = choose|k: int| 0 <= k < t.len() && t[k] == x;
        assert(s[k + 1] == x);
    }
}

proof fn rows_where_members(col: ColumnView, op: CmpOp, lit: LitView)
    requires
        col.len() <= u32::MAX,
        pred_typed(col.dtype(), op, lit),
    ensures
        strict(rows_where(col, op, lit)),
        forall|x: u32|
            rows_where(col, op, lit).contains(x) <==> x < col.len() && #[trigger] holds_at(
                col,
                op,
                lit,
                x as int,
            ),
{
    match (col, lit) {
        (ColumnView::Int64(v), LitView::Int(l)) => {
            let hit = |x: i64| holds(op, x, l);
            hits_members(v, hit);
            assert forall|x: u32|
                rows_where(col, op, lit).contains(x) <==> x < col.len() && #[trigger] holds_at(
                    col,
                    op,
                    lit,
                    x as int,
                ) by {
                assert(hits(v, 0, hit).contains(x) <==> x < v.len() && hit(v[x as int]));
            }
        },
        (ColumnView::Utf8(v), LitView::Str(s)) => {
            let hit = |x: Seq<char>| x == s;
            hits_members(v, hit);
            assert forall|x: u32|
                rows_where(col, op, lit).contains(x) <==> x < col.len() && #[trigger] holds_at(
                    col,
                    op,
                    lit,
                    x as int,
                ) by {
                assert(hits(v, 0, hit).contains(x) <==> x < v.len() && hit(v[x as int]));
            }
        },
        _ => {},
    }
}

proof fn rows_where_has(col: ColumnView, op: CmpOp, lit: LitView, x: u32)
    requires
        col.len() <= u32::MAX,
        pred_typed(col.dtype(), op, lit),
    ensures
        rows_where(col, op, lit).contains(x) <==> x < col.len() && holds_at(col, op, lit, x as int),
{
    rows_where_members(col, op, lit);
    let h = holds_at(col, op, lit, x as int);
}

/// A written row group whose columns have one length and fit their length
/// fields.
pub open spec fn group_sound(cols: Seq<ColumnView>, n: nat) -> bool {
    &&& n <= u32::MAX
    &&& forall|i: int|
        0 <= i < cols.len() ==> (#[trigger] cols[i]).len() == n && column_fits(cols[i])
}

pub open spec fn preds_typed(cols: Seq<ColumnView>, preds: Seq<BoundPredView>) -> bool {
    forall|k: int|
        0 <= k < preds.len() ==> 0 <= (#[trigger] preds[k]).col_idx < cols.len() && pred_typed(
            cols[preds[k].col_idx].dtype(),
            preds[k].op,
            preds[k].lit,
        )
}

/// Whether the chunks of a file read as some columns: searching one finds the
/// rows that satisfy the predicate, and gathering gives the values.
pub open spec fn reads_as(file: Seq<u8>, chunks: Seq<ChunkView>, cols: Seq<ColumnView>) -> bool {
    &&& forall|i: int, op: CmpOp, lit: LitView, c: Counters|
        0 <= i < cols.len() && pred_typed(cols[i].dtype(), op, lit) ==> (#[trigger] evaluated(
            file,
            chunks[i],
            op,
            lit,
            c,
        ) matches Some((s, _)) && s == rows_where(cols[i], op, lit))
    &&& forall|i: int, sel: Seq<u32>, c: Counters|
        0 <= i < cols.len() && ascending(sel) && (forall|k: int|
            0 <= k < sel.len() ==> (#[trigger] sel[k]) < cols[i].len()) ==> (#[trigger] gathered(
            file,
            chunks[i],
            sel,
            c,
        ) matches Some((v, _)) && v == column_at(cols[i], sel))
}

proof fn written_group_reads_as(schema: Seq<FieldView>, groups: Seq<Seq<ColumnView>>, g: int, n: nat)
    requires
        file_image(schema, groups).len() <= u64::MAX,
        0 <= g < groups.len(),
        group_sound(groups[g], n),
    ensures
        reads_as(file_image(schema, groups), group_metas(groups)[g].chunks, groups[g]),
{
    let file = file_image(schema, groups);
    let chunks = group_metas(groups)[g].chunks;
    let cols = groups[g];
    assert forall|i: int, op: CmpOp, lit: LitView, c: Counters|
        0 <= i < cols.len() && pred_typed(cols[i].dtype(), op, lit) implies (#[trigger] evaluated(
        file,
        chunks[i],
        op,
        lit,
        c,
    ) matches Some((s, _)) && s == rows_where(cols[i], op, lit)) by {
        written_file_reads_back(schema, groups, g, i, Seq::empty(), op, lit, c);
    }
    assert forall|i: int, sel: Seq<u32>, c: Counters|
        0 <= i < cols.len() && ascending(sel) && (forall|k: int|
            0 <= k < sel.len() ==> (#[trigger] sel[k]) < cols[i].len()) implies (
    #[trigger] gathered(file, chunks[i], sel, c) matches Some((v, _)) && v == column_at(
        cols[i],
        sel,
    )) by {
        written_file_reads_back(schema, groups, g, i, sel, CmpOp::Eq, LitView::Int(0), c);
    }
}

proof fn selected_passes(
    file: Seq<u8>,
    chunks: Seq<ChunkView>,
    cols: Seq<ColumnView>,
    n: nat,
    done: Seq<BoundPredView>,
    preds: Seq<BoundPredView>,
    sel: Option<Seq<u32>>,
    c: Counters,
)
    requires
        reads_as(file, chunks, cols),
        group_sound(cols, n),
        preds_typed(cols, preds),
        sel is None ==> done.len() == 0,
        sel matches Some(s) ==> s == passing(cols, done, n),
    ensures
        selected(file, chunks, preds, sel, c) matches Some((r, _)) && match r {
            Some(s) => s == passing(cols, done + preds, n),
            None => sel is None && preds.len() == 0,
        },
    decreases preds.len(),
{
    if preds.len() == 0 {
        assert(done + preds =~= done);
    } else {
        let p = preds[0];
        let rest = preds.skip(1);
        let done2 = done.push(p);
        assert(0 <= p.col_idx < cols.len());
        assert(cols[p.col_idx].len() == n);
        assert(done2 + rest =~= done + preds);
        assert(preds_typed(cols, rest)) by {
            assert forall|k: int| 0 <= k < rest.len() implies 0 <= (#[trigger] rest[k]).col_idx
                < cols.len() && pred_typed(
                cols[rest[k].col_idx].dtype(),
                rest[k].op,
                rest[k].lit,
            ) by {
                assert(rest[k] == preds[k + 1]);
            }
        }
        let found = evaluated(file, chunks[p.col_idx], p.op, p.lit, c);
        let (s, c2) = found->0;
        let t = match sel {
            None => s,
            Some(prev) => common(prev, s),
        };
        narrowed(cols, done, p, n, sel);
        if t.len() == 0 {
            assert((done + preds).take(done2.len() as int) =~= done2);
            none_left(cols, done2, done + preds, n);
        } else {
            selected_passes(file, chunks, cols, n, done2, rest, Some(t), c2);
        }
    }
}

/// One predicate more leaves the rows that satisfy it too.
proof fn narrowed(
    cols: Seq<ColumnView>,
    done: Seq<BoundPredView>,
    p: BoundPredView,
    n: nat,
    sel: Option<Seq<u32>>,
)
    requires
        n <= u32::MAX,
        cols[p.col_idx].len() == n,
        pred_typed(cols[p.col_idx].dtype(), p.op, p.lit),
        sel is None ==> done.len() == 0,
        sel matches Some(s) ==> s == passing(cols, done, n),
    ensures
        (match sel {
            None => rows_where(cols[p.col_idx], p.op, p.lit),
            Some(prev) => common(prev, rows_where(cols[p.col_idx], p.op, p.lit)),
        }) == passing(cols, done.push(p), n),
{
    let col = cols[p.col_idx];
    let s = rows_where(col, p.op, p.lit);
    let done2 = done.push(p);
    let t = match sel {
        None => s,
        Some(prev) => common(prev, s),
    };
    rows_where_members(col, p.op, p.lit);
    passing_members(cols, done, n);
    passing_members(cols, done2, n);
    if sel is Some {
        common_members(sel->0, s);
    }
    assert forall|x: int| #[trigger] passes(cols, done2, x) <==> passes(cols, done, x) && holds_at(
        cols[p.col_idx],
        p.op,
        p.lit,
        x,
    ) by {
        if passes(cols, done2, x) {
            assert(done2[done.len() as int] == p);
            assert forall|k: int| 0 <= k < done.len() implies holds_at(
                cols[(#[trigger] done[k]).col_idx],
                done[k].op,
                done[k].lit,
                x,
            ) by {
                assert(done2[k] == done[k]);
            }
        }
    }
    assert forall|x: u32| t.contains(x) <==> passing(cols, done2, n).contains(x) by {
        assert(passing(cols, done2, n).contains(x) <==> x < n && passes(cols, done2, x as int));
        assert(passing(cols, done, n).contains(x) <==> x < n && passes(cols, done, x as int));
        rows_where_has(col, p.op, p.lit, x);
    }
    strict_unique(t, passing(cols, done2, n));
}

/// Where no row satisfies some predicates, none satisfies more.
proof fn none_left(
    cols: Seq<ColumnView>,
    some: Seq<BoundPredView>,
    all: Seq<BoundPredView>,
    n: nat,
)
    requires
        n <= u32::MAX,
        some.len() <= all.len(),
        all.take(some.len() as int) == some,
        passing(cols, some, n).len() == 0,
    ensures
        passing(cols, all, n) == Seq::<u32>::empty(),
{
    passing_members(cols, some, n);
    passing_members(cols, all, n);
    let r = passing(cols, all, n);
    if r.len() > 0 {
        let x = r[0];
        assert(r.contains(x));
        assert(passes(cols, all, x as int));
        assert forall|k: int| 0 <= k < some.len() implies holds_at(
            cols[(#[trigger] some[k]).col_idx],
            some[k].op,
            some[k].lit,
            x as int,
        ) by {
            assert(all[k] == some[k]);
        }
        assert(passes(cols, some, x as int));
        assert(passing(cols, some, n).contains(x));
    }
    assert(r =~= Seq::<u32>::empty());
}

proof fn gathered_at(
    file: Seq<u8>,
    chunks: Seq<ChunkView>,
    data: Seq<ColumnView>,
    n: nat,
    cols: Seq<ColView>,
    sel: Seq<u32>,
    c: Counters,
)
    requires
        reads_as(file, chunks, data),
        group_sound(data, n),
        forall|k: int| 0 <= k < cols.len() ==> 0 <= (#[trigger] cols[k]).idx < data.len(),
        strict(sel),
        forall|i: int| 0 <= i < sel.len() ==> (#[trigger] sel[i]) < n,
    ensures
        gathered_all(file, chunks, cols, sel, c) matches Some((v, _)) && v == Seq::new(
            cols.len(),
            |k: int| column_at(data[cols[k].idx], sel),
        ),
    decreases cols.len(),
{
    let want = Seq::new(cols.len(), |k: int| column_at(data[cols[k].idx], sel));
    if cols.len() == 0 {
        assert(want =~= Seq::<ColumnView>::empty());
    } else {
        let d = cols.drop_last();
        assert forall|k: int| 0 <= k < d.len() implies 0 <= (#[trigger] d[k]).idx < data.len() by {
            assert(d[k] == cols[k]);
        }
        gathered_at(file, chunks, data, n, d, sel, c);
        let (vs, c2) = gathered_all(file, chunks, d, sel, c)->0;
        let i = cols.last().idx;
        assert(cols[cols.len() - 1].idx == i);
        assert(data[i].len() == n);
        assert(ascending(sel));
        assert(gathered(file, chunks[i], sel, c2) is Some);
        assert(column_at(data[i], sel).len() == sel.len());
        assert(vs.push(column_at(data[i], sel)) =~= want);
    }
}

/// Scanning a row group of a written file returns the projected columns at
/// exactly the rows that satisfy every predicate, and nothing if there are
/// none.
pub proof fn scan_finds_exactly_the_matches(
    schema: Seq<FieldView>,
    groups: Seq<Seq<ColumnView>>,
    g: int,
    scan: ScanView,
    c: Counters,
)
    requires
        file_image(schema, groups).len() <= u64::MAX,
        0 <= g < groups.len(),
        groups[g].len() > 0,
        group_sound(groups[g], groups[g][0].len()),
        preds_typed(groups[g], scan.preds),
        forall|k: int|
            0 <= k < scan.cols.len() ==> 0 <= (#[trigger] scan.cols[k]).idx < groups[g].len(),
    ensures
        ({
            let cols = groups[g];
            let keep = passing(cols, scan.preds, cols[0].len());
            scanned(
                file_image(schema, groups),
                group_metas(groups)[g],
                scan,
                c,
            ) matches Some((b, _)) && b == (if keep.len() == 0 {
                None
            } else {
                Some(
                    BatchView {
                        cols: Seq::new(
                            scan.cols.len(),
                            |k: int| column_at(cols[scan.cols[k].idx], keep),
                        ),
                        rows: keep.len(),
                    },
                )
            })
        }),
{
    let file = file_image(schema, groups);
    let rg = group_metas(groups)[g];
    written_group_reads_as(schema, groups, g, groups[g][0].len());
    assert(rg.rows == groups[g][0].len());
    scan_of_columns(file, rg, groups[g], scan, c);
}

proof fn scan_of_columns(
    file: Seq<u8>,
    rg: RowGroupView,
    cols: Seq<ColumnView>,
    scan: ScanView,
    c: Counters,
)
    requires
        cols.len() > 0,
        reads_as(file, rg.chunks, cols),
        rg.rows == cols[0].len(),
        group_sound(cols, cols[0].len()),
        preds_typed(cols, scan.preds),
        forall|k: int|
            0 <= k < scan.cols.len() ==> 0 <= (#[trigger] scan.cols[k]).idx < cols.len(),
    ensures
        ({
            let keep = passing(cols, scan.preds, cols[0].len());
            scanned(file, rg, scan, c) matches Some((b, _)) && b == (if keep.len() == 0 {
                None
            } else {
                Some(
                    BatchView {
                        cols: Seq::new(
                            scan.cols.len(),
                            |k: int| column_at(cols[scan.cols[k].idx], keep),
                        ),
                        rows: keep.len(),
                    },
                )
            })
        }),
{
    let n = cols[0].len();
    let none = Seq::<BoundPredView>::empty();
    let keep = passing(cols, scan.preds, n);
    selected_passes(file, rg.chunks, cols, n, none, scan.preds, None, c);
    assert(none + scan.preds =~= scan.preds);
    let (sel, c2) = selected(file, rg.chunks, scan.preds, None, c)->0;
    passing_members(cols, scan.preds, n);
    if sel is None {
        let all = all_rows(n);
        assert forall|x: u32| all.contains(x) <==> keep.contains(x) by {
            assert(keep.contains(x) <==> x < n && passes(cols, scan.preds, x as int));
            if x < n {
                assert(all[x as int] == x);
            }
        }
        strict_unique(all, keep);
    }
    if keep.len() > 0 {
        gathered_at(file, rg.chunks, cols, n, scan.cols, keep, c2);
    }
}

} // verus!
