//! Scanning a row group: predicates first, then only the rows that passed and
//! only the columns that are needed.
use crate::engine::values::{cell_at, cell_of, cell_rows, cells, Cell, CellView};
use crate::format::meta::{ChunkView, ColumnData, ColumnView, RowGroupMeta, RowGroupView};
use crate::format::reader::{all_rows, evaluated, gathered, pred_typed, Counters, Reader};
use crate::format::writer::column_views;
use crate::plan::physical::{BoundPred, BoundPredView, ColView, ScanNode, ScanView};
use vstd::prelude::*;

verus! {

/// The common elements of two ascending lists, by walking both.
pub open spec fn common(a: Seq<u32>, b: Seq<u32>) -> Seq<u32>
    decreases a.len() + b.len(),
{
    if a.len() == 0 || b.len() == 0 {
        Seq::empty()
    } else if a[0] < b[0] {
        common(a.skip(1), b)
    } else if a[0] > b[0] {
        common(a, b.skip(1))
    } else {
        seq![a[0]] + common(a.skip(1), b.skip(1))
    }
}

pub fn intersect_sorted(a: &[u32], b: &[u32]) -> (out: Vec<u32>)
    ensures
        out@ == common(a@, b@),
{
    let mut out: Vec<u32> = Vec::new();
    let mut i: usize = 0;
    let mut j: usize = 0;
    assert(a@.skip(0) =~= a@);
    assert(b@.skip(0) =~= b@);
    assert(out@ + common(a@, b@) =~= common(a@, b@));
    while i < a.len() && j < b.len()
        invariant
            i <= a@.len(),
            j <= b@.len(),
            out@ + common(a@.skip(i as int), b@.skip(j as int)) == common(a@, b@),
        decreases a@.len() - i + b@.len() - j,
    {
        let ghost x = a@.skip(i as int);
        let ghost y = b@.skip(j as int);
        let ghost before = out@;
        assert(x.skip(1) =~= a@.skip(i + 1));
        assert(y.skip(1) =~= b@.skip(j + 1));
        if a[i] < b[j] {
            i += 1;
        } else if a[i] > b[j] {
            j += 1;
        } else {
            out.push(a[i]);
            i += 1;
            j += 1;
            proof {
                let t = common(x.skip(1), y.skip(1));
                assert(before + (seq![x[0]] + t) =~= out@ + t);
            }
        }
    }
    assert(out@ + Seq::<u32>::empty() =~= out@);
    out
}

/// The rows that all predicates select, and the counters afterwards. The
/// search ends when none is left. Nothing where a page is not sound.
pub open spec fn selected(
    file: Seq<u8>,
    chunks: Seq<ChunkView>,
    preds: Seq<BoundPredView>,
    sel: Option<Seq<u32>>,
    c: Counters,
) -> Option<(Option<Seq<u32>>, Counters)>
    decreases preds.len(),
{
    if preds.len() == 0 {
        Some((sel, c))
    } else {
        match evaluated(file, chunks[preds[0].col_idx], preds[0].op, preds[0].lit, c) {
            None => None,
            Some((s, c)) => {
                let t = match sel {
                    None => s,
                    Some(prev) => common(prev, s),
                };
                if t.len() == 0 {
                    Some((Some(t), c))
                } else {
                    selected(file, chunks, preds.skip(1), Some(t), c)
                }
            },
        }
    }
}

/// The values of some columns at rows `sel`.
pub open spec fn gathered_all(
    file: Seq<u8>,
    chunks: Seq<ChunkView>,
    cols: Seq<ColView>,
    sel: Seq<u32>,
    c: Counters,
) -> Option<(Seq<ColumnView>, Counters)>
    decreases cols.len(),
{
    if cols.len() == 0 {
        Some((Seq::empty(), c))
    } else {
        match gathered_all(file, chunks, cols.drop_last(), sel, c) {
            None => None,
            Some((vs, c)) => match gathered(file, chunks[cols.last().idx], sel, c) {
                None => None,
                Some((v, c)) => if v.len() != sel.len() {
                    None
                } else {
                    Some((vs.push(v), c))
                },
            },
        }
    }
}

#[verifier::ext_equal]
pub struct BatchView {
    pub cols: Seq<ColumnView>,
    pub rows: nat,
}

/// What scanning a row group gives: the rows that pass, if any.
pub open spec fn scanned(file: Seq<u8>, rg: RowGroupView, scan: ScanView, c: Counters) -> Option<
    (Option<BatchView>, Counters),
> {
    match selected(file, rg.chunks, scan.preds, None, c) {
        None => None,
        Some((sel, c)) => {
            let s = match sel {
                Some(s) => s,
                None => all_rows(rg.rows as nat),
            };
            if s.len() == 0 {
                Some((None, c))
            } else {
                match gathered_all(file, rg.chunks, scan.cols, s, c) {
                    None => None,
                    Some((cols, c)) => Some((Some(BatchView { cols, rows: s.len() }), c)),
                }
            }
        },
    }
}

/// Whether a scan's columns and predicates fit a row group.
pub open spec fn scan_fits(rg: RowGroupView, scan: ScanView) -> bool {
    &&& rg.rows <= u32::MAX
    &&& forall|k: int|
        0 <= k < scan.preds.len() ==> 0 <= (#[trigger] scan.preds[k]).col_idx < rg.chunks.len()
            && pred_typed(
            rg.chunks[scan.preds[k].col_idx].dtype,
            scan.preds[k].op,
            scan.preds[k].lit,
        )
    &&& forall|k: int|
        0 <= k < scan.cols.len() ==> 0 <= (#[trigger] scan.cols[k]).idx < rg.chunks.len()
}

/// The rows of one row group that passed, column by column.
#[derive(Debug)]
pub struct ScanBatch {
    pub cols: Vec<ColumnData>,
    pub rows: usize,
}

impl View for ScanBatch {
    type V = BatchView;

    open spec fn view(&self) -> BatchView {
        BatchView { cols: column_views(self.cols@), rows: self.rows as nat }
    }
}

/// Tests whether a scan's columns and predicates fit a row group.
pub fn check_scan(rg: &RowGroupMeta, scan: &ScanNode) -> (r: bool)
    ensures
        r == scan_fits(rg@, scan@),
{
    if rg.rows > 0xffff_ffff {
        return false;
    }
    let mut k: usize = 0;
    while k < scan.preds.len()
        invariant
            k <= scan.preds@.len(),
            rg.rows <= u32::MAX,
            forall|j: int|
                0 <= j < k ==> 0 <= (#[trigger] scan@.preds[j]).col_idx < rg@.chunks.len()
                    && pred_typed(
                    rg@.chunks[scan@.preds[j].col_idx].dtype,
                    scan@.preds[j].op,
                    scan@.preds[j].lit,
                ),
        decreases scan.preds@.len() - k,
    {
        let p: &BoundPred = &scan.preds[k];
        assert(scan@.preds[k as int] == p@);
        if p.col_idx >= rg.chunks.len() {
            return false;
        }
        assert(rg@.chunks[p.col_idx as int] == rg.chunks@[p.col_idx as int]@);
        if !typed(rg.chunks[p.col_idx].dtype, p) {
            return false;
        }
        k += 1;
    }
    let mut j: usize = 0;
    while j < scan.cols.len()
        invariant
            j <= scan.cols@.len(),
            forall|i: int| 0 <= i < j ==> 0 <= (#[trigger] scan@.cols[i]).idx < rg@.chunks.len(),
        decreases scan.cols@.len() - j,
    {
        assert(scan@.cols[j as int].idx == scan.cols@[j as int].0);
        if scan.cols[j].0 >= rg.chunks.len() {
            return false;
        }
        j += 1;
    }
    true
}

fn typed(t: crate::format::meta::DataType, p: &BoundPred) -> (r: bool)
    ensures
        r == pred_typed(t, p.op, p.lit@),
{
    match &p.lit {
        crate::format::meta::Literal::Int(_) => t == crate::format::meta::DataType::Int64,
        crate::format::meta::Literal::Str(_) => t == crate::format::meta::DataType::Utf8 && p.op
            == crate::format::meta::CmpOp::Eq,
    }
}

/// Evaluates all predicates on one row group, then gathers the projected
/// columns at the rows that are left.
pub fn scan_rowgroup(reader: &mut Reader, scan: &ScanNode, rg: usize) -> (r: Option<
    Option<ScanBatch>,
>)
    requires
        rg < old(reader).meta.rowgroups@.len(),
        scan_fits(old(reader).meta.rowgroups@[rg as int]@, scan@),
    ensures
        final(reader).file == old(reader).file,
        final(reader).meta == old(reader).meta,
        match scanned(
            old(reader).file@,
            old(reader).meta.rowgroups@[rg as int]@,
            scan@,
            old(reader).counters,
        ) {
            None => r is None,
            Some((b, c)) => final(reader).counters == c && match b {
                None => r == Some(None::<ScanBatch>),
                Some(v) => r matches Some(Some(x)) && x@ == v,
            },
        },
{
    let ghost file = reader.file@;
    let ghost g = reader.meta.rowgroups@[rg as int]@;
    let ghost c0 = reader.counters;
    let ghost want = selected(file, g.chunks, scan@.preds, None, c0);
    let total: usize = reader.meta.rowgroups[rg].rows;
    let mut sel: Option<Vec<u32>> = None;
    let mut k: usize = 0;
    let mut stop: bool = false;
    assert(scan@.preds.skip(0) =~= scan@.preds);
    while k < scan.preds.len() && !stop
        invariant
            k <= scan.preds@.len(),
            reader.file == old(reader).file,
            reader.meta == old(reader).meta,
            rg < reader.meta.rowgroups@.len(),
            file == reader.file@,
            g == reader.meta.rowgroups@[rg as int]@,
            c0 == old(reader).counters,
            scan_fits(g, scan@),
            want == selected(file, g.chunks, scan@.preds, None, c0),
            !stop ==> want == selected(
                file,
                g.chunks,
                scan@.preds.skip(k as int),
                opt_rows(sel),
                reader.counters,
            ),
            stop ==> want == Some((opt_rows(sel), reader.counters)) && opt_rows(sel) is Some
                && opt_rows(sel)->0.len() == 0,
        decreases scan.preds@.len() - k,
    {
        let p: &BoundPred = &scan.preds[k];
        proof {
            assert(scan@.preds.skip(k as int)[0] == p@);
            assert(scan@.preds[k as int] == p@);
            assert(scan@.preds.skip(k as int).skip(1) =~= scan@.preds.skip(k + 1));
            assert(g.chunks[p.col_idx as int] == reader.meta.rowgroups@[rg as int].chunks@[
            p.col_idx as int]@);
        }
        let s: Vec<u32> = match reader.eval_pred(rg, p.col_idx, p.op, &p.lit) {
            Some(s) => s,
            None => {
                return None;
            },
        };
        let t: Vec<u32> = match &sel {
            None => s,
            Some(prev) => intersect_sorted(prev.as_slice(), s.as_slice()),
        };
        if t.len() == 0 {
            stop = true;
        }
        sel = Some(t);
        k += 1;
    }
    let rows: Vec<u32> = match sel {
        Some(s) => s,
        None => number_rows(total),
    };
    if rows.len() == 0 {
        return Some(None);
    }
    let ghost c1 = reader.counters;
    let ghost cv = scan@.cols;
    let mut cols: Vec<ColumnData> = Vec::new();
    let mut j: usize = 0;
    assert(cv.take(0) =~= Seq::<ColView>::empty());
    assert(column_views(cols@) =~= Seq::<ColumnView>::empty());
    while j < scan.cols.len()
        invariant
            j <= scan.cols@.len(),
            reader.file == old(reader).file,
            reader.meta == old(reader).meta,
            rg < reader.meta.rowgroups@.len(),
            file == reader.file@,
            g == reader.meta.rowgroups@[rg as int]@,
            c0 == old(reader).counters,
            scan_fits(g, scan@),
            cv == scan@.cols,
            rows@.len() > 0,
            selected(file, g.chunks, scan@.preds, None, c0) matches Some((sl, cc)) && cc == c1
                && rows@ == (match sl {
                Some(s) => s,
                None => all_rows(g.rows as nat),
            }),
            gathered_all(file, g.chunks, cv.take(j as int), rows@, c1) == Some(
                (column_views(cols@), reader.counters),
            ),
        decreases scan.cols@.len() - j,
    {
        let idx: usize = scan.cols[j].0;
        proof {
            assert(cv[j as int].idx == idx);
            assert(cv.take(j + 1).drop_last() =~= cv.take(j as int));
            assert(cv.take(j + 1).last() == cv[j as int]);
            assert(g.chunks[idx as int] == reader.meta.rowgroups@[rg as int].chunks@[idx as int]@);
            if gathered_all(file, g.chunks, cv.take(j + 1), rows@, c1) is None {
                gathered_all_fails(file, g.chunks, cv, rows@, c1, j + 1);
            }
        }
        let col: ColumnData = match reader.gather(rg, idx, rows.as_slice()) {
            Some(v) => v,
            None => {
                return None;
            },
        };
        if col.len() != rows.len() {
            return None;
        }
        let ghost before = column_views(cols@);
        cols.push(col);
        assert(column_views(cols@) =~= before.push(col@));
        j += 1;
    }
    assert(cv.take(j as int) =~= cv);
    Some(Some(ScanBatch { cols, rows: rows.len() }))
}

pub open spec fn opt_rows(s: Option<Vec<u32>>) -> Option<Seq<u32>> {
    match s {
        None => None,
        Some(v) => Some(v@),
    }
}

proof fn gathered_all_fails(
    file: Seq<u8>,
    chunks: Seq<ChunkView>,
    cols: Seq<ColView>,
    sel: Seq<u32>,
    c: Counters,
    k: int,
)
    requires
        0 <= k <= cols.len(),
        gathered_all(file, chunks, cols.take(k), sel, c) is None,
    ensures
        gathered_all(file, chunks, cols, sel, c) is None,
    decreases cols.len(),
{
    if k == cols.len() {
        assert(cols.take(k) =~= cols);
    } else {
        assert(cols.drop_last().take(k) =~= cols.take(k));
        gathered_all_fails(file, chunks, cols.drop_last(), sel, c, k);
    }
}

fn number_rows(n: usize) -> (r: Vec<u32>)
    requires
        n <= u32::MAX,
    ensures
        r@ == all_rows(n as nat),
{
    let mut out: Vec<u32> = Vec::new();
    let mut i: usize = 0;
    while i < n
        invariant
            i <= n <= u32::MAX,
            out@ == all_rows(i as nat),
        decreases n - i,
    {
        out.push(i as u32);
        i += 1;
        assert(out@ =~= all_rows(i as nat));
    }
    out
}

/// Row `i` of some columns.
pub open spec fn row_of(cols: Seq<ColumnView>, i: int) -> Seq<CellView> {
    Seq::new(cols.len(), |c: int| cell_of(cols[c], i))
}

/// The rows of a batch.
pub open spec fn rows_of(b: BatchView) -> Seq<Seq<CellView>> {
    Seq::new(b.rows, |i: int| row_of(b.cols, i))
}

/// A batch turned into rows.
pub fn batch_rows(b: &ScanBatch) -> (r: Vec<Vec<Cell>>)
    requires
        forall|c: int| 0 <= c < b.cols@.len() ==> (#[trigger] b.cols@[c])@.len() >= b.rows,
    ensures
        cell_rows(r@) == rows_of(b@),
{
    let ghost cv = column_views(b.cols@);
    let mut out: Vec<Vec<Cell>> = Vec::new();
    let mut i: usize = 0;
    while i < b.rows
        invariant
            i <= b.rows,
            cv == column_views(b.cols@),
            forall|c: int| 0 <= c < b.cols@.len() ==> (#[trigger] b.cols@[c])@.len() >= b.rows,
            out@.len() == i,
            forall|k: int| 0 <= k < i ==> cells((#[trigger] out@[k])@) == row_of(cv, k),
        decreases b.rows - i,
    {
        let mut row: Vec<Cell> = Vec::new();
        let mut c: usize = 0;
        while c < b.cols.len()
            invariant
                c <= b.cols@.len(),
                i < b.rows,
                cv == column_views(b.cols@),
                forall|c: int| 0 <= c < b.cols@.len() ==> (#[trigger] b.cols@[c])@.len() >= b.rows,
                row@.len() == c,
                forall|k: int| 0 <= k < c ==> (#[trigger] row@[k])@ == cell_of(cv[k], i as int),
            decreases b.cols@.len() - c,
        {
            assert(b.cols@[c as int]@.len() >= b.rows);
            row.push(cell_at(&b.cols[c], i));
            c += 1;
        }
        assert(cells(row@) =~= row_of(cv, i as int));
        out.push(row);
        i += 1;
    }
    assert(cell_rows(out@) =~= rows_of(b@));
    out
}

/// A batch that a scan returned can be turned into rows.
pub proof fn scanned_batch_is_full(
    file: Seq<u8>,
    rg: RowGroupView,
    scan: ScanView,
    c: Counters,
    b: BatchView,
    c2: Counters,
)
    requires
        scanned(file, rg, scan, c) == Some((Some(b), c2)),
    ensures
        b.cols.len() == scan.cols.len(),
        forall|i: int| 0 <= i < b.cols.len() ==> (#[trigger] b.cols[i]).len() == b.rows,
{
    let (sel, c1) = selected(file, rg.chunks, scan.preds, None, c)->0;
    let s = match sel {
        Some(s) => s,
        None => all_rows(rg.rows as nat),
    };
    gathered_full(file, rg.chunks, scan.cols, s, c1);
}

proof fn gathered_full(
    file: Seq<u8>,
    chunks: Seq<ChunkView>,
    cols: Seq<ColView>,
    sel: Seq<u32>,
    c: Counters,
)
    ensures
        gathered_all(file, chunks, cols, sel, c) matches Some((vs, _)) ==> vs.len() == cols.len()
            && forall|i: int| 0 <= i < vs.len() ==> (#[trigger] vs[i]).len() == sel.len(),
    decreases cols.len(),
{
    if cols.len() > 0 {
        gathered_full(file, chunks, cols.drop_last(), sel, c);
    }
}

} // verus!
