//! Physical plans: binding names, pushing predicates down, pruning columns and
//! files, and choosing how to join.
use crate::format::meta::{CmpOp, DataType, LitView, Literal};
use crate::iceberg::table::{file_views, DataFile, FieldSpec, FileView, TableMeta, TableView};
use crate::plan::ast::{AggFn, AstView, ItemView, JoinView, NameView, PredView};
use vstd::prelude::*;

verus! {

#[derive(Clone, Copy, Debug, PartialEq, Eq, Structural)]
pub enum JoinStrategy {
    Broadcast,
    Shuffle { partitions: usize },
}

#[derive(Clone, Debug)]
pub struct BoundPred {
    /// Index in the table's schema.
    pub col_idx: usize,
    pub field_id: i32,
    pub op: CmpOp,
    pub lit: Literal,
}

#[verifier::ext_equal]
pub struct BoundPredView {
    pub col_idx: int,
    pub field_id: i32,
    pub op: CmpOp,
    pub lit: LitView,
}

impl View for BoundPred {
    type V = BoundPredView;

    open spec fn view(&self) -> BoundPredView {
        BoundPredView {
            col_idx: self.col_idx as int,
            field_id: self.field_id,
            op: self.op,
            lit: self.lit@,
        }
    }
}

pub open spec fn bound_preds(v: Seq<BoundPred>) -> Seq<BoundPredView> {
    Seq::new(v.len(), |i: int| v[i]@)
}

#[verifier::ext_equal]
pub struct ColView {
    pub idx: int,
    pub name: Seq<char>,
    pub dtype: DataType,
}

pub open spec fn col_views(v: Seq<(usize, String, DataType)>) -> Seq<ColView> {
    Seq::new(v.len(), |i: int| ColView { idx: v[i].0 as int, name: v[i].1@, dtype: v[i].2 })
}

#[derive(Debug)]
pub struct ScanNode {
    pub table: String,
    pub alias: String,
    pub meta: TableMeta,
    /// Columns this scan produces: schema index, name and type.
    pub cols: Vec<(usize, String, DataType)>,
    pub preds: Vec<BoundPred>,
    /// The estimated number of rows, as the bits of a double that is not
    /// negative: bits order as the numbers do.
    pub est_rows: u64,
    pub total_rows: i128,
    pub files: Vec<DataFile>,
    pub files_pruned: usize,
}

#[verifier::ext_equal]
pub struct ScanView {
    pub table: Seq<char>,
    pub alias: Seq<char>,
    pub meta: TableView,
    pub cols: Seq<ColView>,
    pub preds: Seq<BoundPredView>,
    pub est_rows: u64,
    pub total_rows: int,
    pub files: Seq<FileView>,
    pub files_pruned: int,
}

impl View for ScanNode {
    type V = ScanView;

    open spec fn view(&self) -> ScanView {
        ScanView {
            table: self.table@,
            alias: self.alias@,
            meta: self.meta@,
            cols: col_views(self.cols@),
            preds: bound_preds(self.preds@),
            est_rows: self.est_rows,
            total_rows: self.total_rows as int,
            files: file_views(self.files@),
            files_pruned: self.files_pruned as int,
        }
    }
}

pub open spec fn scan_views(v: Seq<ScanNode>) -> Seq<ScanView> {
    Seq::new(v.len(), |i: int| v[i]@)
}

#[derive(Clone, Copy, Debug, PartialEq, Eq, Structural)]
pub struct JoinNode {
    pub build: usize,
    pub probe: usize,
    /// Positions within the columns of those scans.
    pub build_key: usize,
    pub probe_key: usize,
    pub strategy: JoinStrategy,
}

/// A scan and a position within its columns, or an aggregate of one; the
/// position `usize::MAX` counts rows.
#[derive(Clone, Copy, Debug, PartialEq, Eq, Structural)]
pub enum OutExpr {
    Col(usize, usize),
    Agg(AggFn, usize, usize),
}

#[derive(Debug)]
pub struct PhysicalPlan {
    pub scans: Vec<ScanNode>,
    pub join: Option<JoinNode>,
    pub output: Vec<OutExpr>,
    pub group_by: Vec<(usize, usize)>,
    pub order_by: Option<(usize, bool)>,
    pub limit: Option<usize>,
    pub two_phase_agg: bool,
}

/// The join keys: scan and column position on each side.
#[derive(Clone, Copy, Debug, PartialEq, Eq, Structural)]
pub struct JoinKeys {
    pub lscan: usize,
    pub lpos: usize,
    pub rscan: usize,
    pub rpos: usize,
}

/// A plan whose join strategy is still open.
#[derive(Debug)]
pub struct BoundPlan {
    pub scans: Vec<ScanNode>,
    pub join: Option<JoinKeys>,
    pub output: Vec<OutExpr>,
    pub group_by: Vec<(usize, usize)>,
    pub order_by: Option<(usize, bool)>,
    pub limit: Option<usize>,
    pub two_phase_agg: bool,
}

#[verifier::ext_equal]
pub struct BoundView {
    pub scans: Seq<ScanView>,
    pub join: Option<JoinKeys>,
    pub output: Seq<OutExpr>,
    pub group_by: Seq<(usize, usize)>,
    pub order_by: Option<(usize, bool)>,
    pub limit: Option<usize>,
    pub two_phase_agg: bool,
}

impl View for BoundPlan {
    type V = BoundView;

    open spec fn view(&self) -> BoundView {
        BoundView {
            scans: scan_views(self.scans@),
            join: self.join,
            output: self.output@,
            group_by: self.group_by@,
            order_by: self.order_by,
            limit: self.limit,
            two_phase_agg: self.two_phase_agg,
        }
    }
}

/// A table as the catalog has it.
#[derive(Debug)]
pub struct CatalogTable {
    pub name: String,
    pub meta: TableMeta,
    pub files: Vec<DataFile>,
}

/// The tables a statement may name.
#[derive(Debug)]
pub struct Catalog {
    pub tables: Vec<CatalogTable>,
}

#[verifier::ext_equal]
pub struct CatalogTableView {
    pub name: Seq<char>,
    pub meta: TableView,
    pub files: Seq<FileView>,
}

impl View for Catalog {
    type V = Seq<CatalogTableView>;

    open spec fn view(&self) -> Seq<CatalogTableView> {
        Seq::new(
            self.tables@.len(),
            |i: int|
                CatalogTableView {
                    name: self.tables@[i].name@,
                    meta: self.tables@[i].meta@,
                    files: file_views(self.tables@[i].files@),
                },
        )
    }
}

// ---------------------------------------------------------------------------
// Binding
// ---------------------------------------------------------------------------

/// A table of the catalog by name.
pub open spec fn load(c: Seq<CatalogTableView>, name: Seq<char>) -> Option<CatalogTableView>
    decreases c.len(),
{
    if c.len() == 0 {
        None
    } else if c[0].name == name {
        Some(c[0])
    } else {
        load(c.skip(1), name)
    }
}

/// The rows that files say they hold.
pub open spec fn row_total(files: Seq<FileView>) -> int
    decreases files.len(),
{
    if files.len() == 0 {
        0
    } else {
        row_total(files.drop_last()) + files.last().record_count
    }
}

pub open spec fn first_scan(t: CatalogTableView, name: Seq<char>, alias: Seq<char>) -> ScanView {
    ScanView {
        table: name,
        alias,
        meta: t.meta,
        cols: Seq::empty(),
        preds: Seq::empty(),
        est_rows: 0,
        total_rows: row_total(t.files),
        files: t.files,
        files_pruned: 0,
    }
}

/// Steps taken one after another until one fails.
pub open spec fn fold_steps<S, T>(
    start: S,
    items: Seq<T>,
    step: spec_fn(S, T) -> Result<S, Seq<char>>,
) -> Result<S, Seq<char>>
    decreases items.len(),
{
    if items.len() == 0 {
        Ok(start)
    } else {
        match fold_steps(start, items.drop_last(), step) {
            Err(e) => Err(e),
            Ok(s) => step(s, items.last()),
        }
    }
}

/// A failure among the first items is the failure of all.
pub proof fn fold_steps_fails<S, T>(
    start: S,
    items: Seq<T>,
    step: spec_fn(S, T) -> Result<S, Seq<char>>,
    k: int,
    e: Seq<char>,
)
    requires
        0 <= k <= items.len(),
        fold_steps(start, items.take(k), step) == Err::<S, Seq<char>>(e),
    ensures
        fold_steps(start, items, step) == Err::<S, Seq<char>>(e),
    decreases items.len(),
{
    if k == items.len() {
        assert(items.take(k) =~= items);
    } else {
        assert(items.drop_last().take(k) =~= items.take(k));
        fold_steps_fails(start, items.drop_last(), step, k, e);
    }
}

/// One step more.
pub proof fn fold_steps_next<S, T>(
    start: S,
    items: Seq<T>,
    step: spec_fn(S, T) -> Result<S, Seq<char>>,
    k: int,
)
    requires
        0 <= k < items.len(),
    ensures
        fold_steps(start, items.take(k + 1), step) == (match fold_steps(
            start,
            items.take(k),
            step,
        ) {
            Err(e) => Err(e),
            Ok(s) => step(s, items[k]),
        }),
{
    assert(items.take(k + 1).drop_last() =~= items.take(k));
    assert(items.take(k + 1).last() == items[k]);
}

pub open spec fn bind_table(
    c: Seq<CatalogTableView>,
    scans: Seq<ScanView>,
    t: (Seq<char>, Seq<char>),
) -> Result<Seq<ScanView>, Seq<char>> {
    match load(c, t.0) {
        None => Err("table "@ + t.0 + " not found in catalog"@),
        Some(x) => Ok(scans.push(first_scan(x, t.0, t.1))),
    }
}

/// The tables of a statement with their aliases, in order.
pub open spec fn named_tables(ast: AstView) -> Seq<(Seq<char>, Seq<char>)> {
    seq![(ast.table, ast.alias)] + Seq::new(
        ast.joins.len(),
        |i: int| (ast.joins[i].table, ast.joins[i].alias),
    )
}

/// The position of the first field with a name.
pub open spec fn field_index(fields: Seq<FieldSpec>, name: Seq<char>) -> Option<int>
    decreases fields.len(),
{
    if fields.len() == 0 {
        None
    } else if fields[0].name == name {
        Some(0)
    } else {
        match field_index(fields.skip(1), name) {
            Some(i) => Some(i + 1),
            None => None,
        }
    }
}

/// The first scan whose alias or table has a name.
pub open spec fn alias_index(scans: Seq<ScanView>, qual: Seq<char>) -> Option<int>
    decreases scans.len(),
{
    if scans.len() == 0 {
        None
    } else if scans[0].alias == qual || scans[0].table == qual {
        Some(0)
    } else {
        match alias_index(scans.skip(1), qual) {
            Some(i) => Some(i + 1),
            None => None,
        }
    }
}

pub open spec fn has_field(s: ScanView, col: Seq<char>) -> bool {
    field_index(s.meta.fields, col) is Some
}

/// How many scans have a column.
pub open spec fn holders(scans: Seq<ScanView>, col: Seq<char>) -> nat
    decreases scans.len(),
{
    if scans.len() == 0 {
        0
    } else {
        (if has_field(scans[0], col) { 1nat } else { 0 }) + holders(scans.skip(1), col)
    }
}

/// The first scan that has a column.
pub open spec fn holder(scans: Seq<ScanView>, col: Seq<char>) -> int
    decreases scans.len(),
{
    if scans.len() == 0 || has_field(scans[0], col) { 0 } else { 1 + holder(scans.skip(1), col) }
}

/// The scan a name belongs to: by its qualifier, or the only one that has the
/// column.
pub open spec fn find_scan(scans: Seq<ScanView>, n: NameView) -> Result<int, Seq<char>> {
    if n.qual.len() > 0 {
        match alias_index(scans, n.qual) {
            Some(i) => Ok(i),
            None => Err("unknown table alias "@ + n.qual),
        }
    } else if holders(scans, n.col) == 1 {
        Ok(holder(scans, n.col))
    } else if holders(scans, n.col) == 0 {
        Err("column "@ + n.col + " not found"@)
    } else {
        Err("column "@ + n.col + " is ambiguous; qualify it"@)
    }
}

pub open spec fn col_meta(s: ScanView, col: Seq<char>) -> Result<int, Seq<char>> {
    match field_index(s.meta.fields, col) {
        Some(i) => Ok(i),
        None => Err("column "@ + col + " not in "@ + s.table),
    }
}

/// A name's scan and its field in that scan's schema.
pub open spec fn resolve(scans: Seq<ScanView>, n: NameView) -> Result<(int, int), Seq<char>> {
    match find_scan(scans, n) {
        Err(e) => Err(e),
        Ok(si) => match col_meta(scans[si], n.col) {
            Err(e) => Err(e),
            Ok(ci) => Ok((si, ci)),
        },
    }
}

/// Where a schema index stands among a scan's columns.
pub open spec fn col_position(cols: Seq<ColView>, idx: int) -> Option<int>
    decreases cols.len(),
{
    if cols.len() == 0 {
        None
    } else if cols[0].idx == idx {
        Some(0)
    } else {
        match col_position(cols.skip(1), idx) {
            Some(i) => Some(i + 1),
            None => None,
        }
    }
}

/// The columns of a scan once it produces field `ci`, and its position. A
/// column is read once, however often it is named.
pub open spec fn with_col(s: ScanView, ci: int, name: Seq<char>) -> (ScanView, int) {
    match col_position(s.cols, ci) {
        Some(p) => (s, p),
        None => (
            ScanView {
                cols: s.cols.push(ColView { idx: ci, name, dtype: s.meta.fields[ci].dtype }),
                ..s
            },
            s.cols.len() as int,
        ),
    }
}

/// The scans once one produces a name's column, and the column's position.
pub open spec fn need(scans: Seq<ScanView>, si: int, ci: int, name: Seq<char>) -> (
    Seq<ScanView>,
    int,
) {
    let (s, p) = with_col(scans[si], ci, name);
    (scans.update(si, s), p)
}

/// Pushes a predicate down into the scan its column belongs to. The column is
/// not projected for it.
pub open spec fn bind_pred(scans: Seq<ScanView>, p: PredView) -> Result<Seq<ScanView>, Seq<char>> {
    match resolve(scans, p.name) {
        Err(e) => Err(e),
        Ok((si, ci)) => {
            let s = scans[si];
            Ok(
                scans.update(
                    si,
                    ScanView {
                        preds: s.preds.push(
                            BoundPredView {
                                col_idx: ci,
                                field_id: s.meta.fields[ci].id,
                                op: p.op,
                                lit: p.lit,
                            },
                        ),
                        ..s
                    },
                ),
            )
        },
    }
}

/// Binds the join, if there is one.
pub open spec fn bind_join(scans: Seq<ScanView>, joins: Seq<JoinView>) -> Result<
    (Seq<ScanView>, Option<JoinKeys>),
    Seq<char>,
> {
    if joins.len() == 0 {
        Ok((scans, None))
    } else if joins.len() > 1 {
        Err("one join per query in this version"@)
    } else {
        let j = joins[0];
        match find_scan(scans, j.left) {
            Err(e) => Err(e),
            Ok(ls) => match find_scan(scans, j.right) {
                Err(e) => Err(e),
                Ok(rs) => match col_meta(scans[ls], j.left.col) {
                    Err(e) => Err(e),
                    Ok(lc) => match col_meta(scans[rs], j.right.col) {
                        Err(e) => Err(e),
                        Ok(rc) => if scans[ls].meta.fields[lc].dtype != DataType::Int64
                            || scans[rs].meta.fields[rc].dtype != DataType::Int64 {
                            Err("join keys must be Int64"@)
                        } else {
                            let (s1, lp) = need(scans, ls, lc, j.left.col);
                            let (s2, rp) = need(s1, rs, rc, j.right.col);
                            Ok(
                                (
                                    s2,
                                    Some(
                                        JoinKeys {
                                            lscan: ls as usize,
                                            lpos: lp as usize,
                                            rscan: rs as usize,
                                            rpos: rp as usize,
                                        },
                                    ),
                                ),
                            )
                        },
                    },
                },
            },
        }
    }
}

/// Binds one select item onto the scans and the output so far.
pub open spec fn bind_item(st: (Seq<ScanView>, Seq<OutExpr>), it: ItemView) -> Result<
    (Seq<ScanView>, Seq<OutExpr>),
    Seq<char>,
> {
    match it {
        ItemView::Col(n) => match resolve(st.0, n) {
            Err(e) => Err(e),
            Ok((si, ci)) => {
                let (scans, p) = need(st.0, si, ci, n.col);
                Ok((scans, st.1.push(OutExpr::Col(si as usize, p as usize))))
            },
        },
        ItemView::Agg(f, n) => if n.col == "*"@ {
            Ok((st.0, st.1.push(OutExpr::Agg(f, 0, usize::MAX))))
        } else {
            match resolve(st.0, n) {
                Err(e) => Err(e),
                Ok((si, ci)) => if st.0[si].meta.fields[ci].dtype != DataType::Int64 {
                    Err("aggregates require Int64 columns"@)
                } else {
                    let (scans, p) = need(st.0, si, ci, n.col);
                    Ok((scans, st.1.push(OutExpr::Agg(f, si as usize, p as usize))))
                },
            }
        },
    }
}

/// Binds one grouping column.
pub open spec fn bind_group(st: (Seq<ScanView>, Seq<(usize, usize)>), n: NameView) -> Result<
    (Seq<ScanView>, Seq<(usize, usize)>),
    Seq<char>,
> {
    match resolve(st.0, n) {
        Err(e) => Err(e),
        Ok((si, ci)) => {
            let (scans, p) = need(st.0, si, ci, n.col);
            Ok((scans, st.1.push((si as usize, p as usize))))
        },
    }
}

pub open spec fn is_agg(it: ItemView) -> bool {
    it is Agg
}

pub open spec fn has_agg(select: Seq<ItemView>) -> bool {
    exists|i: int| 0 <= i < select.len() && is_agg(#[trigger] select[i])
}

/// The scans once tables are bound and predicates pushed down.
pub open spec fn bind_scans(ast: AstView, c: Seq<CatalogTableView>) -> Result<
    Seq<ScanView>,
    Seq<char>,
> {
    match fold_steps(
        Seq::<ScanView>::empty(),
        named_tables(ast),
        |s: Seq<ScanView>, t: (Seq<char>, Seq<char>)| bind_table(c, s, t),
    ) {
        Err(e) => Err(e),
        Ok(scans) => fold_steps(
            scans,
            ast.preds,
            |s: Seq<ScanView>, p: PredView| bind_pred(s, p),
        ),
    }
}

/// Output and groups on bound scans.
pub open spec fn bind_output(ast: AstView, scans: Seq<ScanView>) -> Result<
    (Seq<ScanView>, Seq<OutExpr>, Seq<(usize, usize)>),
    Seq<char>,
> {
    match fold_steps(
        (scans, Seq::<OutExpr>::empty()),
        ast.select,
        |s: (Seq<ScanView>, Seq<OutExpr>), it: ItemView| bind_item(s, it),
    ) {
        Err(e) => Err(e),
        Ok((scans, output)) => match fold_steps(
            (scans, Seq::<(usize, usize)>::empty()),
            ast.group_by,
            |s: (Seq<ScanView>, Seq<(usize, usize)>), n: NameView| bind_group(s, n),
        ) {
            Err(e) => Err(e),
            Ok((scans, group_by)) => Ok((scans, output, group_by)),
        },
    }
}

/// A statement bound against a catalog.
pub open spec fn bound(ast: AstView, c: Seq<CatalogTableView>) -> Result<BoundView, Seq<char>> {
    match bind_scans(ast, c) {
        Err(e) => Err(e),
        Ok(scans) => match bind_join(scans, ast.joins) {
            Err(e) => Err(e),
            Ok((scans, join)) => match bind_output(ast, scans) {
                Err(e) => Err(e),
                Ok((scans, output, group_by)) => Ok(
                    BoundView {
                        scans,
                        join,
                        output,
                        group_by,
                        order_by: ast.order_by,
                        limit: ast.limit,
                        two_phase_agg: has_agg(ast.select),
                    },
                ),
            },
        },
    }
}

} // verus!
