//! What a bound statement means: which tables, columns and predicates its
//! names stand for.
use crate::format::meta::{CmpOp, DataType, LitView};
use crate::iceberg::table::{bound_of, long_of, BoundView as FileBound, FieldSpec, FileView};
use crate::plan::ast::{AstView, ItemView, JoinView, NameView, PredView};
use crate::plan::optimize::{
    domain, dtype_of, join_choice, kept_files, op_text, pruned, scan_prunes, share, Estimate,
    Selectivity,
};
use crate::plan::physical::{
    alias_index, bind_group, bind_item, bind_join, bind_pred, bind_scans, bind_table, bound,
    col_position, field_index, find_scan, fold_steps, has_field, holder, holders, load,
    named_tables, need, resolve, row_total, BoundPredView, BoundView, CatalogTableView, ColView, JoinKeys,
    OutExpr, ScanView,
};
use crate::plan::prepare::plan_pruned;
use crate::plan::print::op_word;
use vstd::prelude::*;

verus! {

// ---------------------------------------------------------------------------
// Names
// ---------------------------------------------------------------------------

/// A table is the first of the catalog with its name, and is not found where
/// none has it.
pub proof fn a_table_is_found_by_its_name(c: Seq<CatalogTableView>, name: Seq<char>)
    ensures
        load(c, name) matches Some(t) ==> exists|i: int|
            0 <= i < c.len() && #[trigger] c[i] == t && t.name == name && forall|j: int|
                0 <= j < i ==> (#[trigger] c[j]).name != name,
        load(c, name) is None ==> forall|j: int| 0 <= j < c.len() ==> (#[trigger] c[j]).name != name,
    decreases c.len(),
{
    if c.len() > 0 {
        let t = c.skip(1);
        a_table_is_found_by_its_name(t, name);
        assert forall|j: int| 0 < j < c.len() implies #[trigger] c[j] == t[j - 1] by {}
        if c[0].name == name {
            assert(c[0] == load(c, name)->0);
        } else if let Some(x) = load(c, name) {
            let i = choose|i: int|
                0 <= i < t.len() && #[trigger] t[i] == x && forall|j: int|
                    0 <= j < i ==> (#[trigger] t[j]).name != name;
            assert(c[i + 1] == x);
            assert forall|j: int| 0 <= j < i + 1 implies (#[trigger] c[j]).name != name by {
                if j > 0 {
                    assert(c[j] == t[j - 1]);
                }
            }
        }
    }
}

/// A field is the first with its name, and is not found where none has it.
pub proof fn a_field_is_found_by_its_name(f: Seq<FieldSpec>, name: Seq<char>)
    ensures
        field_index(f, name) matches Some(i) ==> 0 <= i < f.len() && f[i].name == name && forall|
            j: int,
        |
            0 <= j < i ==> (#[trigger] f[j]).name != name,
        field_index(f, name) is None ==> forall|j: int|
            0 <= j < f.len() ==> (#[trigger] f[j]).name != name,
    decreases f.len(),
{
    if f.len() > 0 {
        let t = f.skip(1);
        a_field_is_found_by_its_name(t, name);
        assert forall|j: int| 0 < j < f.len() implies #[trigger] f[j] == t[j - 1] by {}
    }
}

/// A field's type is that of the first with its number.
pub proof fn a_type_is_found_by_its_field(f: Seq<FieldSpec>, id: i32)
    ensures
        dtype_of(f, id) matches Some(d) ==> exists|i: int|
            0 <= i < f.len() && (#[trigger] f[i]).id == id && f[i].dtype == d && forall|j: int|
                0 <= j < i ==> (#[trigger] f[j]).id != id,
        dtype_of(f, id) is None ==> forall|j: int| 0 <= j < f.len() ==> (#[trigger] f[j]).id != id,
    decreases f.len(),
{
    if f.len() > 0 {
        let t = f.skip(1);
        a_type_is_found_by_its_field(t, id);
        assert forall|j: int| 0 < j < f.len() implies #[trigger] f[j] == t[j - 1] by {}
        if f[0].id == id {
        } else if let Some(d) = dtype_of(f, id) {
            let i = choose|i: int|
                0 <= i < t.len() && (#[trigger] t[i]).id == id && t[i].dtype == d && forall|j: int|
                    0 <= j < i ==> (#[trigger] t[j]).id != id;
            assert(f[i + 1] == t[i]);
            assert forall|j: int| 0 <= j < i + 1 implies (#[trigger] f[j]).id != id by {
                if j > 0 {
                    assert(f[j] == t[j - 1]);
                }
            }
        }
    }
}

/// Whether a scan's table has a column.
pub open spec fn holds_col(s: ScanView, col: Seq<char>) -> bool {
    exists|f: int| 0 <= f < s.meta.fields.len() && (#[trigger] s.meta.fields[f]).name == col
}

/// Whether a scan goes by a name: its alias, or its table.
pub open spec fn goes_by(s: ScanView, q: Seq<char>) -> bool {
    s.alias == q || s.table == q
}

/// Whether a name stands for field `ci` of scan `si`: the first field with its
/// column, in the first scan that goes by its qualifier, or without one in the
/// only scan that has the column.
pub open spec fn names(scans: Seq<ScanView>, n: NameView, si: int, ci: int) -> bool {
    &&& 0 <= si < scans.len()
    &&& 0 <= ci < scans[si].meta.fields.len()
    &&& scans[si].meta.fields[ci].name == n.col
    &&& forall|j: int| 0 <= j < ci ==> (#[trigger] scans[si].meta.fields[j]).name != n.col
    &&& n.qual.len() > 0 ==> goes_by(scans[si], n.qual) && forall|j: int|
        0 <= j < si ==> !goes_by(#[trigger] scans[j], n.qual)
    &&& n.qual.len() == 0 ==> forall|j: int|
        0 <= j < scans.len() && j != si ==> !holds_col(#[trigger] scans[j], n.col)
}

proof fn alias_is_first(scans: Seq<ScanView>, q: Seq<char>)
    ensures
        alias_index(scans, q) matches Some(i) ==> 0 <= i < scans.len() && goes_by(scans[i], q)
            && forall|j: int| 0 <= j < i ==> !goes_by(#[trigger] scans[j], q),
        alias_index(scans, q) is None ==> forall|j: int|
            0 <= j < scans.len() ==> !goes_by(#[trigger] scans[j], q),
    decreases scans.len(),
{
    if scans.len() > 0 {
        let t = scans.skip(1);
        alias_is_first(t, q);
        assert forall|j: int| 0 < j < scans.len() implies #[trigger] scans[j] == t[j - 1] by {}
    }
}

proof fn has_is_holds(s: ScanView, col: Seq<char>)
    ensures
        has_field(s, col) == holds_col(s, col),
{
    a_field_is_found_by_its_name(s.meta.fields, col);
    if let Some(i) = field_index(s.meta.fields, col) {
        assert(s.meta.fields[i].name == col);
    }
}

proof fn holder_is_only(scans: Seq<ScanView>, col: Seq<char>)
    ensures
        holders(scans, col) == 0 <==> forall|j: int|
            0 <= j < scans.len() ==> !holds_col(#[trigger] scans[j], col),
        holders(scans, col) > 0 ==> 0 <= holder(scans, col) < scans.len() && holds_col(
            scans[holder(scans, col)],
            col,
        ),
        holders(scans, col) == 1 ==> forall|j: int|
            0 <= j < scans.len() && j != holder(scans, col) ==> !holds_col(#[trigger] scans[j], col),
        forall|i: int|
            0 <= i < scans.len() && holds_col(#[trigger] scans[i], col) && (forall|j: int|
                0 <= j < scans.len() && j != i ==> !holds_col(#[trigger] scans[j], col))
                ==> holders(scans, col) == 1,
    decreases scans.len(),
{
    if scans.len() > 0 {
        let t = scans.skip(1);
        holder_is_only(t, col);
        has_is_holds(scans[0], col);
        assert forall|j: int| 0 < j < scans.len() implies #[trigger] scans[j] == t[j - 1] by {}
        if holders(t, col) == 0 {
            assert forall|j: int| 0 < j < scans.len() implies !holds_col(#[trigger] scans[j], col) by {
                assert(!holds_col(t[j - 1], col));
            }
        }
        if holders(scans, col) == 0 {
            assert forall|j: int| 0 <= j < scans.len() implies !holds_col(
                #[trigger] scans[j],
                col,
            ) by {
                if j > 0 {
                    assert(!holds_col(t[j - 1], col));
                }
            }
        }
        if forall|j: int| 0 <= j < scans.len() ==> !holds_col(#[trigger] scans[j], col) {
            assert(!holds_col(scans[0], col));
            assert forall|j: int| 0 <= j < t.len() implies !holds_col(#[trigger] t[j], col) by {
                assert(t[j] == scans[j + 1]);
            }
        }
        if holders(scans, col) == 1 {
            let h = holder(scans, col);
            assert forall|j: int| 0 <= j < scans.len() && j != h implies !holds_col(
                #[trigger] scans[j],
                col,
            ) by {
                if j > 0 {
                    assert(scans[j] == t[j - 1]);
                    assert(!holds_col(t[j - 1], col));
                }
            }
        }
        assert forall|i: int|
            0 <= i < scans.len() && holds_col(#[trigger] scans[i], col) && (forall|j: int|
                0 <= j < scans.len() && j != i ==> !holds_col(
                    #[trigger] scans[j],
                    col,
                )) implies holders(scans, col) == 1 by {
            if i == 0 {
                assert forall|j: int| 0 <= j < t.len() implies !holds_col(#[trigger] t[j], col) by {
                    assert(t[j] == scans[j + 1]);
                }
            } else {
                assert(!holds_col(scans[0], col));
                assert(t[i - 1] == scans[i]);
                assert forall|j: int| 0 <= j < t.len() && j != i - 1 implies !holds_col(
                    #[trigger] t[j],
                    col,
                ) by {
                    assert(t[j] == scans[j + 1]);
                }
            }
        }
    }
}

/// A name resolves exactly to the field that it stands for, and fails where
/// there is none.
pub proof fn a_name_resolves_to_what_it_names(scans: Seq<ScanView>, n: NameView, si: int, ci: int)
    ensures
        resolve(scans, n) == Ok::<(int, int), Seq<char>>((si, ci)) <==> names(scans, n, si, ci),
{
    alias_is_first(scans, n.qual);
    holder_is_only(scans, n.col);
    if let Ok(i) = find_scan(scans, n) {
        a_field_is_found_by_its_name(scans[i].meta.fields, n.col);
    }
    if names(scans, n, si, ci) {
        assert(goes_by(scans[si], n.qual) || n.qual.len() == 0);
        assert(scans[si].meta.fields[ci].name == n.col);
        assert(holds_col(scans[si], n.col));
        if n.qual.len() == 0 {
            assert(holders(scans, n.col) == 1);
            let h = holder(scans, n.col);
            if h != si {
                assert(!holds_col(scans[h], n.col));
            }
        } else {
            let a = alias_index(scans, n.qual);
            assert(a is Some);
            if a->0 < si {
                assert(!goes_by(scans[a->0], n.qual));
            }
        }
        assert(find_scan(scans, n) == Ok::<int, Seq<char>>(si));
        let f = field_index(scans[si].meta.fields, n.col);
        assert(f is Some);
        if f->0 < ci {
            assert(scans[si].meta.fields[f->0].name != n.col);
        }
    }
}

// ---------------------------------------------------------------------------
// Binding
// ---------------------------------------------------------------------------

/// Whether two lists of scans are of the same tables under the same names.
spec fn same_tables(a: Seq<ScanView>, b: Seq<ScanView>) -> bool {
    &&& a.len() == b.len()
    &&& forall|k: int|
        #![trigger a[k]]
        #![trigger b[k]]
        0 <= k < a.len() ==> a[k].table == b[k].table && a[k].alias == b[k].alias && a[k].meta
            == b[k].meta && a[k].files == b[k].files
}

proof fn names_by_tables(a: Seq<ScanView>, b: Seq<ScanView>, n: NameView, si: int, ci: int)
    requires
        same_tables(a, b),
        names(a, n, si, ci),
    ensures
        names(b, n, si, ci),
{
    assert(a[si].meta == b[si].meta);
    assert forall|j: int| 0 <= j < si && n.qual.len() > 0 implies !goes_by(
        #[trigger] b[j],
        n.qual,
    ) by {
        assert(!goes_by(a[j], n.qual));
    }
    assert forall|j: int| 0 <= j < b.len() && j != si && n.qual.len() == 0 implies !holds_col(
        #[trigger] b[j],
        n.col,
    ) by {
        assert(!holds_col(a[j], n.col));
    }
}

/// Whether scans only gained columns, at their ends, and kept their predicates.
spec fn widened(a: Seq<ScanView>, b: Seq<ScanView>) -> bool {
    &&& same_tables(a, b)
    &&& forall|k: int|
        #![trigger a[k]]
        #![trigger b[k]]
        0 <= k < a.len() ==> a[k].preds == b[k].preds && a[k].cols.len() <= b[k].cols.len()
    &&& forall|k: int, p: int|
        0 <= k < a.len() && 0 <= p < a[k].cols.len() ==> #[trigger] b[k].cols[p] == a[k].cols[p]
}

proof fn col_at(cols: Seq<ColView>, idx: int)
    ensures
        col_position(cols, idx) matches Some(p) ==> 0 <= p < cols.len() && cols[p].idx == idx,
    decreases cols.len(),
{
    if cols.len() > 0 {
        col_at(cols.skip(1), idx);
    }
}

proof fn need_widens(scans: Seq<ScanView>, si: int, ci: int, name: Seq<char>)
    requires
        0 <= si < scans.len(),
    ensures
        ({
            let (t, p) = need(scans, si, ci, name);
            &&& widened(scans, t)
            &&& 0 <= p < t[si].cols.len()
            &&& t[si].cols[p].idx == ci
        }),
{
    col_at(scans[si].cols, ci);
    let t = need(scans, si, ci, name).0;
    assert forall|k: int, p: int|
        0 <= k < scans.len() && 0 <= p < scans[k].cols.len() implies #[trigger] t[k].cols[p]
        == scans[k].cols[p] by {
        if k != si {
            assert(t[k] == scans[k]);
        }
    }
}

proof fn widened_twice(a: Seq<ScanView>, b: Seq<ScanView>, c: Seq<ScanView>)
    requires
        widened(a, b),
        widened(b, c),
    ensures
        widened(a, c),
{
    assert forall|k: int| 0 <= k < a.len() implies a[k].preds == c[k].preds && a[k].cols.len()
        <= c[k].cols.len() && a[k].table == c[k].table && a[k].alias == c[k].alias && a[k].meta
        == c[k].meta && (#[trigger] a[k]).files == c[k].files by {
        assert(b[k].preds == c[k].preds);
    }
    assert forall|k: int, p: int| 0 <= k < a.len() && 0 <= p < a[k].cols.len() implies #[trigger] c[k].cols[p]
        == a[k].cols[p] by {
        assert(a[k].cols.len() <= b[k].cols.len());
        assert(b[k].cols[p] == a[k].cols[p]);
        assert(c[k].cols[p] == b[k].cols[p]);
    }
}

/// Whether a scan and a position in its columns give the column that a name
/// stands for.
pub open spec fn gives(scans: Seq<ScanView>, n: NameView, si: int, ci: int, p: int) -> bool {
    &&& names(scans, n, si, ci)
    &&& 0 <= p < scans[si].cols.len()
    &&& scans[si].cols[p].idx == ci
}

/// Whether an output column is what a select item asks for: the column that it
/// names, or the aggregate of it, or of all rows for `*`.
pub open spec fn selects(scans: Seq<ScanView>, o: OutExpr, it: ItemView) -> bool {
    match it {
        ItemView::Col(n) => exists|si: int, ci: int, p: int| #[trigger]
            gives(scans, n, si, ci, p) && o == OutExpr::Col(si as usize, p as usize),
        ItemView::Agg(f, n) => if n.col == "*"@ {
            o == OutExpr::Agg(f, 0, usize::MAX)
        } else {
            exists|si: int, ci: int, p: int| #[trigger]
                gives(scans, n, si, ci, p) && o == OutExpr::Agg(f, si as usize, p as usize)
                    && scans[si].meta.fields[ci].dtype == DataType::Int64
        },
    }
}

/// Whether a grouping column is the one that a name stands for.
pub open spec fn groups(scans: Seq<ScanView>, g: (usize, usize), n: NameView) -> bool {
    exists|si: int, ci: int, p: int| #[trigger]
        gives(scans, n, si, ci, p) && g == (si as usize, p as usize)
}

proof fn gives_on(a: Seq<ScanView>, b: Seq<ScanView>, n: NameView, si: int, ci: int, p: int)
    requires
        widened(a, b),
        gives(a, n, si, ci, p),
    ensures
        gives(b, n, si, ci, p),
{
    names_by_tables(a, b, n, si, ci);
    assert(b[si].cols[p] == a[si].cols[p]);
    assert(a[si].cols.len() <= b[si].cols.len());
}

proof fn selects_on(a: Seq<ScanView>, b: Seq<ScanView>, o: OutExpr, it: ItemView)
    requires
        widened(a, b),
        selects(a, o, it),
    ensures
        selects(b, o, it),
{
    match it {
        ItemView::Col(n) => {
            let (si, ci, p) = choose|si: int, ci: int, p: int| #[trigger]
                gives(a, n, si, ci, p) && o == OutExpr::Col(si as usize, p as usize);
            gives_on(a, b, n, si, ci, p);
        },
        ItemView::Agg(f, n) => {
            if n.col != "*"@ {
                let (si, ci, p) = choose|si: int, ci: int, p: int| #[trigger]
                    gives(a, n, si, ci, p) && o == OutExpr::Agg(f, si as usize, p as usize)
                        && a[si].meta.fields[ci].dtype == DataType::Int64;
                gives_on(a, b, n, si, ci, p);
                assert(a[si].meta == b[si].meta);
            }
        },
    }
}

proof fn resolved_need(scans: Seq<ScanView>, n: NameView)
    ensures
        resolve(scans, n) matches Ok((si, ci)) ==> ({
            let (t, p) = need(scans, si, ci, n.col);
            widened(scans, t) && gives(t, n, si, ci, p)
        }),
{
    if let Ok((si, ci)) = resolve(scans, n) {
        a_name_resolves_to_what_it_names(scans, n, si, ci);
        need_widens(scans, si, ci, n.col);
        names_by_tables(scans, need(scans, si, ci, n.col).0, n, si, ci);
    }
}

proof fn items_bound(scans: Seq<ScanView>, items: Seq<ItemView>)
    ensures
        fold_steps(
            (scans, Seq::<OutExpr>::empty()),
            items,
            |s: (Seq<ScanView>, Seq<OutExpr>), it: ItemView| bind_item(s, it),
        ) matches Ok((t, out)) ==> widened(scans, t) && out.len() == items.len() && forall|i: int|
            0 <= i < items.len() ==> selects(t, #[trigger] out[i], items[i]),
    decreases items.len(),
{
    let f = |s: (Seq<ScanView>, Seq<OutExpr>), it: ItemView| bind_item(s, it);
    let start = (scans, Seq::<OutExpr>::empty());
    if items.len() > 0 {
        let d = items.drop_last();
        items_bound(scans, d);
        if let Ok((t, out)) = fold_steps(start, items, f) {
            let (u, prev) = fold_steps(start, d, f)->Ok_0;
            let it = items.last();
            assert(bind_item((u, prev), it) == Ok::<(Seq<ScanView>, Seq<OutExpr>), Seq<char>>(
                (t, out),
            ));
            let n = match it {
                ItemView::Col(n) => n,
                ItemView::Agg(_, n) => n,
            };
            if it is Agg && n.col == "*"@ {
                assert(t == u);
            } else {
                resolved_need(u, n);
                let (si, ci) = resolve(u, n)->Ok_0;
                let (v, p) = need(u, si, ci, n.col);
                assert(t == v);
                assert(gives(t, n, si, ci, p));
                assert(u[si].meta == t[si].meta) by {
                    a_name_resolves_to_what_it_names(u, n, si, ci);
                }
                widened_twice(scans, u, t);
            }
            assert(selects(t, out[items.len() - 1], it));
            assert forall|i: int| 0 <= i < items.len() implies selects(
                t,
                #[trigger] out[i],
                items[i],
            ) by {
                if i < d.len() {
                    assert(out[i] == prev[i]);
                    assert(selects(u, prev[i], d[i]));
                    if t != u {
                        selects_on(u, t, prev[i], d[i]);
                    }
                }
            }
        }
    }
}

proof fn groups_bound(scans: Seq<ScanView>, items: Seq<NameView>)
    ensures
        fold_steps(
            (scans, Seq::<(usize, usize)>::empty()),
            items,
            |s: (Seq<ScanView>, Seq<(usize, usize)>), n: NameView| bind_group(s, n),
        ) matches Ok((t, out)) ==> widened(scans, t) && out.len() == items.len() && forall|i: int|
            0 <= i < items.len() ==> groups(t, #[trigger] out[i], items[i]),
    decreases items.len(),
{
    let f = |s: (Seq<ScanView>, Seq<(usize, usize)>), n: NameView| bind_group(s, n);
    let start = (scans, Seq::<(usize, usize)>::empty());
    if items.len() > 0 {
        let d = items.drop_last();
        groups_bound(scans, d);
        if let Ok((t, out)) = fold_steps(start, items, f) {
            let (u, prev) = fold_steps(start, d, f)->Ok_0;
            let n = items.last();
            assert(bind_group((u, prev), n) == Ok::<
                (Seq<ScanView>, Seq<(usize, usize)>),
                Seq<char>,
            >((t, out)));
            resolved_need(u, n);
            let (si, ci) = resolve(u, n)->Ok_0;
            let (v, p) = need(u, si, ci, n.col);
            assert(t == v);
            assert(gives(t, n, si, ci, p));
            widened_twice(scans, u, t);
            assert(groups(t, out[items.len() - 1], n));
            assert forall|i: int| 0 <= i < items.len() implies groups(
                t,
                #[trigger] out[i],
                items[i],
            ) by {
                if i < d.len() {
                    assert(out[i] == prev[i]);
                    assert(groups(u, prev[i], d[i]));
                    let (s2, c2, p2) = choose|s2: int, c2: int, p2: int| #[trigger]
                        gives(u, d[i], s2, c2, p2) && prev[i] == (s2 as usize, p2 as usize);
                    gives_on(u, t, d[i], s2, c2, p2);
                }
            }
        }
    }
}

/// Whether a predicate of the statement is tested by the scan that its name
/// stands for, with the same operator and literal.
pub open spec fn tests(scans: Seq<ScanView>, p: PredView, si: int, ci: int, k: int) -> bool {
    &&& names(scans, p.name, si, ci)
    &&& 0 <= k < scans[si].preds.len()
    &&& scans[si].preds[k].col_idx == ci
    &&& scans[si].preds[k].field_id == scans[si].meta.fields[ci].id
    &&& scans[si].preds[k].op == p.op
    &&& scans[si].preds[k].lit == p.lit
}

pub open spec fn is_tested(scans: Seq<ScanView>, p: PredView) -> bool {
    exists|si: int, ci: int, k: int| #[trigger] tests(scans, p, si, ci, k)
}

/// How many predicates some scans test.
pub open spec fn pred_total(scans: Seq<ScanView>) -> nat
    decreases scans.len(),
{
    if scans.len() == 0 {
        0
    } else {
        pred_total(scans.drop_last()) + scans.last().preds.len()
    }
}

proof fn pred_total_update(scans: Seq<ScanView>, i: int, s: ScanView)
    requires
        0 <= i < scans.len(),
    ensures
        pred_total(scans.update(i, s)) == pred_total(scans) - scans[i].preds.len() + s.preds.len(),
    decreases scans.len(),
{
    let u = scans.update(i, s);
    if i == scans.len() - 1 {
        assert(u.drop_last() =~= scans.drop_last());
    } else {
        assert(u.drop_last() =~= scans.drop_last().update(i, s));
        pred_total_update(scans.drop_last(), i, s);
    }
}

proof fn pred_total_same(a: Seq<ScanView>, b: Seq<ScanView>)
    requires
        widened(a, b),
    ensures
        pred_total(a) == pred_total(b),
    decreases a.len(),
{
    if a.len() > 0 {
        assert(a[a.len() - 1].preds == b[a.len() - 1].preds);
        assert forall|k: int| 0 <= k < a.len() - 1 implies a.drop_last()[k] == #[trigger] a[k] && b.drop_last()[k] == b[k] by {}
        assert(widened(a.drop_last(), b.drop_last()));
        pred_total_same(a.drop_last(), b.drop_last());
    }
}

proof fn preds_bound(scans: Seq<ScanView>, ps: Seq<PredView>)
    ensures
        fold_steps(scans, ps, |s: Seq<ScanView>, p: PredView| bind_pred(s, p)) matches Ok(t)
            ==> same_tables(scans, t) && pred_total(t) == pred_total(scans) + ps.len() && forall|
            i: int,
        |
            0 <= i < ps.len() ==> is_tested(t, #[trigger] ps[i]),
    decreases ps.len(),
{
    let f = |s: Seq<ScanView>, p: PredView| bind_pred(s, p);
    if ps.len() > 0 {
        let d = ps.drop_last();
        preds_bound(scans, d);
        if let Ok(t) = fold_steps(scans, ps, f) {
            let u = fold_steps(scans, d, f)->Ok_0;
            let q = ps.last();
            assert(bind_pred(u, q) == Ok::<Seq<ScanView>, Seq<char>>(t));
            let (si, ci) = resolve(u, q.name)->Ok_0;
            a_name_resolves_to_what_it_names(u, q.name, si, ci);
            assert(same_tables(u, t));
            names_by_tables(u, t, q.name, si, ci);
            pred_total_update(u, si, t[si]);
            assert(u.update(si, t[si]) =~= t);
            assert(tests(t, q, si, ci, u[si].preds.len() as int));
            assert forall|i: int| 0 <= i < ps.len() implies is_tested(t, #[trigger] ps[i]) by {
                if i < d.len() {
                    assert(is_tested(u, d[i]));
                    let (s2, c2, k2) = choose|s2: int, c2: int, k2: int| #[trigger]
                        tests(u, d[i], s2, c2, k2);
                    names_by_tables(u, t, d[i].name, s2, c2);
                    if s2 != si {
                        assert(t[s2] == u[s2]);
                    }
                    assert(tests(t, d[i], s2, c2, k2));
                }
            }
        }
    }
}

/// Whether a scan is of a table of the catalog: its schema and its files.
pub open spec fn scans_table(s: ScanView, c: Seq<CatalogTableView>, t: (Seq<char>, Seq<char>)) -> bool {
    &&& s.table == t.0
    &&& s.alias == t.1
    &&& load(c, t.0) matches Some(x)
    &&& s.meta == x.meta
    &&& s.files == x.files
}

proof fn tables_bound(c: Seq<CatalogTableView>, ts: Seq<(Seq<char>, Seq<char>)>)
    ensures
        fold_steps(
            Seq::<ScanView>::empty(),
            ts,
            |s: Seq<ScanView>, t: (Seq<char>, Seq<char>)| bind_table(c, s, t),
        ) matches Ok(r) ==> r.len() == ts.len() && pred_total(r) == 0 && forall|i: int|
            0 <= i < ts.len() ==> scans_table(#[trigger] r[i], c, ts[i]),
    decreases ts.len(),
{
    let f = |s: Seq<ScanView>, t: (Seq<char>, Seq<char>)| bind_table(c, s, t);
    if ts.len() > 0 {
        tables_bound(c, ts.drop_last());
        if let Ok(r) = fold_steps(Seq::<ScanView>::empty(), ts, f) {
            let u = fold_steps(Seq::<ScanView>::empty(), ts.drop_last(), f)->Ok_0;
            assert(bind_table(c, u, ts.last()) == Ok::<Seq<ScanView>, Seq<char>>(r));
            assert(r.drop_last() =~= u);
        }
    }
}

/// Whether a join's two sides are the columns that its names stand for.
pub open spec fn joins_on(scans: Seq<ScanView>, k: JoinKeys, j: JoinView) -> bool {
    &&& exists|si: int, ci: int, p: int| #[trigger]
        gives(scans, j.left, si, ci, p) && k.lscan == si as usize && k.lpos == p as usize
            && scans[si].meta.fields[ci].dtype == DataType::Int64
    &&& exists|si: int, ci: int, p: int| #[trigger]
        gives(scans, j.right, si, ci, p) && k.rscan == si as usize && k.rpos == p as usize
            && scans[si].meta.fields[ci].dtype == DataType::Int64
}

proof fn join_bound(scans: Seq<ScanView>, joins: Seq<JoinView>)
    ensures
        bind_join(scans, joins) matches Ok((t, k)) ==> widened(scans, t) && joins.len() <= 1 && (k
            is Some <==> joins.len() == 1) && (k is Some ==> joins_on(t, k->0, joins[0])),
{
    if let Ok((t, k)) = bind_join(scans, joins) {
        if joins.len() == 1 {
            let j = joins[0];
            let (ls, lc) = resolve(scans, j.left)->Ok_0;
            let (rs, rc) = resolve(scans, j.right)->Ok_0;
            assert(resolve(scans, j.left) is Ok && resolve(scans, j.right) is Ok);
            let (s1, lp) = need(scans, ls, lc, j.left.col);
            let (s2, rp) = need(s1, rs, rc, j.right.col);
            assert(t == s2);
            resolved_need(scans, j.left);
            a_name_resolves_to_what_it_names(scans, j.left, ls, lc);
            a_name_resolves_to_what_it_names(scans, j.right, rs, rc);
            names_by_tables(scans, s1, j.right, rs, rc);
            need_widens(s1, rs, rc, j.right.col);
            names_by_tables(s1, s2, j.right, rs, rc);
            gives_on(s1, s2, j.left, ls, lc, lp);
            widened_twice(scans, s1, s2);
            assert(gives(s2, j.right, rs, rc, rp));
            assert(scans[ls].meta == s2[ls].meta && scans[rs].meta == s2[rs].meta);
        }
    }
}

/// A bound statement asks for what was written: its scans are of the tables
/// that it names, in order; each predicate is tested by the table that its
/// name stands for, and no other predicate is; the join is on the columns
/// named; each output and each group is the column named; the order and the
/// limit are those given; and partial aggregates are asked for exactly where
/// an aggregate is selected.
pub proof fn a_statement_is_bound_as_written(ast: AstView, c: Seq<CatalogTableView>)
    ensures
        bound(ast, c) matches Ok(b) ==> {
            &&& b.scans.len() == ast.joins.len() + 1
            &&& ast.joins.len() <= 1
            &&& scans_table(b.scans[0], c, (ast.table, ast.alias))
            &&& forall|i: int|
                0 <= i < ast.joins.len() ==> scans_table(
                    b.scans[i + 1],
                    c,
                    ((#[trigger] ast.joins[i]).table, ast.joins[i].alias),
                )
            &&& forall|i: int| 0 <= i < ast.preds.len() ==> is_tested(b.scans, #[trigger] ast.preds[i])
            &&& pred_total(b.scans) == ast.preds.len()
            &&& b.join is Some <==> ast.joins.len() == 1
            &&& b.join is Some ==> joins_on(b.scans, b.join->0, ast.joins[0])
            &&& b.output.len() == ast.select.len()
            &&& forall|i: int|
                0 <= i < ast.select.len() ==> selects(b.scans, #[trigger] b.output[i], ast.select[i])
            &&& b.group_by.len() == ast.group_by.len()
            &&& forall|i: int|
                0 <= i < ast.group_by.len() ==> groups(
                    b.scans,
                    #[trigger] b.group_by[i],
                    ast.group_by[i],
                )
            &&& b.order_by == ast.order_by
            &&& b.limit == ast.limit
            &&& b.two_phase_agg <==> exists|i: int|
                0 <= i < ast.select.len() && #[trigger] ast.select[i] is Agg
        },
{
    if let Ok(b) = bound(ast, c) {
        let ft = |s: Seq<ScanView>, t: (Seq<char>, Seq<char>)| bind_table(c, s, t);
        let ts = named_tables(ast);
        let s0 = fold_steps(Seq::<ScanView>::empty(), ts, ft)->Ok_0;
        tables_bound(c, ts);
        preds_bound(s0, ast.preds);
        let s1 = bind_scans(ast, c)->Ok_0;
        join_bound(s1, ast.joins);
        let (s2, k) = bind_join(s1, ast.joins)->Ok_0;
        let fi = |s: (Seq<ScanView>, Seq<OutExpr>), it: ItemView| bind_item(s, it);
        let (s3, out) = fold_steps((s2, Seq::<OutExpr>::empty()), ast.select, fi)->Ok_0;
        items_bound(s2, ast.select);
        groups_bound(s3, ast.group_by);
        let s4 = b.scans;
        assert(widened(s3, s4));
        widened_twice(s2, s3, s4);
        widened_twice(s1, s2, s4);
        pred_total_same(s1, s4);
        assert forall|i: int| 0 <= i < ts.len() implies scans_table(#[trigger] s4[i], c, ts[i]) by {
            assert(scans_table(s0[i], c, ts[i]));
            assert(s1[i].table == s0[i].table);
            assert(s4[i].table == s1[i].table);
        }
        assert(ts[0] == (ast.table, ast.alias));
        assert(scans_table(s4[0], c, ts[0]));
        assert forall|i: int| 0 <= i < ast.joins.len() implies scans_table(
            s4[i + 1],
            c,
            ((#[trigger] ast.joins[i]).table, ast.joins[i].alias),
        ) by {
            assert(ts[i + 1] == (ast.joins[i].table, ast.joins[i].alias));
            assert(scans_table(s4[i + 1], c, ts[i + 1]));
        }
        assert forall|i: int| 0 <= i < ast.preds.len() implies is_tested(
            s4,
            #[trigger] ast.preds[i],
        ) by {
            let q = ast.preds[i];
            assert(is_tested(s1, q));
            let (si, ci, m) = choose|si: int, ci: int, m: int| #[trigger] tests(s1, q, si, ci, m);
            names_by_tables(s1, s4, q.name, si, ci);
            assert(s1[si].preds == s4[si].preds);
            assert(tests(s4, q, si, ci, m));
        }
        if b.join is Some {
            let j = ast.joins[0];
            let kk = b.join->0;
            let (si, ci, p) = choose|si: int, ci: int, p: int| #[trigger]
                gives(s2, j.left, si, ci, p) && kk.lscan == si as usize && kk.lpos == p as usize
                    && s2[si].meta.fields[ci].dtype == DataType::Int64;
            gives_on(s2, s4, j.left, si, ci, p);
            assert(s2[si].meta == s4[si].meta);
            let (ti, di, r) = choose|si: int, ci: int, p: int| #[trigger]
                gives(s2, j.right, si, ci, p) && kk.rscan == si as usize && kk.rpos == p as usize
                    && s2[si].meta.fields[ci].dtype == DataType::Int64;
            gives_on(s2, s4, j.right, ti, di, r);
            assert(s2[ti].meta == s4[ti].meta);
        }
        assert forall|i: int| 0 <= i < ast.select.len() implies selects(
            s4,
            #[trigger] b.output[i],
            ast.select[i],
        ) by {
            selects_on(s3, s4, out[i], ast.select[i]);
        }
        if exists|i: int| 0 <= i < ast.select.len() && #[trigger] ast.select[i] is Agg {
            let i = choose|i: int| 0 <= i < ast.select.len() && #[trigger] ast.select[i] is Agg;
            assert(crate::plan::physical::is_agg(ast.select[i]));
        }
    }
}

// ---------------------------------------------------------------------------
// Choices
// ---------------------------------------------------------------------------

/// The side that is built has no more estimated rows than the side that
/// probes it, each side keeps its own key, and the build side is sent to all
/// exactly where it is estimated below four mebibytes, as the bits of a double.
pub proof fn the_smaller_side_is_built(k: JoinKeys, est: Seq<Estimate>)
    ensures
        ({
            let j = join_choice(k, est);
            &&& est[j.build as int].rows <= est[j.probe as int].rows
            &&& (j.build, j.build_key) == (k.lscan, k.lpos) && (j.probe, j.probe_key) == (
                k.rscan,
                k.rpos,
            ) || (j.build, j.build_key) == (k.rscan, k.rpos) && (j.probe, j.probe_key) == (
                k.lscan,
                k.lpos,
            )
            &&& j.strategy is Broadcast <==> est[j.build as int].bytes < 0x4150_0000_0000_0000
            &&& est[k.lscan as int].rows == est[k.rscan as int].rows ==> j.build == k.lscan
        }),
{
}

/// A scan keeps the files that none of its predicates rules out, in order, and
/// counts the others.
pub proof fn files_are_kept_unless_ruled_out(s: ScanView)
    ensures
        pruned(s).files == s.files.filter(|f: FileView| !scan_prunes(s, f)),
        pruned(s).files_pruned + pruned(s).files.len() == s.files.len(),
        pruned(s).cols == s.cols && pruned(s).preds == s.preds && pruned(s).table == s.table,
        forall|f: FileView|
            #[trigger] pruned(s).files.contains(f) ==> s.files.contains(f) && !scan_prunes(s, f),
        forall|i: int|
            0 <= i < s.files.len() && !scan_prunes(s, #[trigger] s.files[i])
                ==> pruned(s).files.contains(s.files[i]),
{
    kept_is_filter(s, s.files);
    let p = |f: FileView| !scan_prunes(s, f);
    broadcast use vstd::seq_lib::group_filter_ensures;
    assert forall|f: FileView| #[trigger] pruned(s).files.contains(f) implies s.files.contains(f)
        && !scan_prunes(s, f) by {
        s.files.lemma_filter_contains_rev(p, f);
        s.files.lemma_filter_pred(p, choose|i: int| 0 <= i < s.files.filter(p).len() && s.files.filter(p)[i] == f);
    }
    assert forall|i: int| 0 <= i < s.files.len() && !scan_prunes(
        s,
        #[trigger] s.files[i],
    ) implies pruned(s).files.contains(s.files[i]) by {
        s.files.lemma_filter_contains(p, i);
    }
}

proof fn kept_is_filter(s: ScanView, files: Seq<FileView>)
    ensures
        kept_files(s, files) == files.filter(|f: FileView| !scan_prunes(s, f)),
    decreases files.len(),
{
    reveal(Seq::filter);
    if files.len() > 0 {
        kept_is_filter(s, files.drop_last());
    }
}

/// The rows of a table are those of its files together.
pub proof fn rows_add_up(a: Seq<FileView>, f: FileView)
    ensures
        row_total(Seq::empty()) == 0,
        row_total(a.push(f)) == row_total(a) + f.record_count,
{
    assert(a.push(f).drop_last() =~= a);
}

/// A field's domain is the tightest range that holds the bounds of every file
/// that has some; without any it is empty.
pub proof fn a_domain_spans_the_bounds(files: Seq<FileView>, id: i32)
    ensures
        ({
            let (lo, hi) = domain(files, id);
            &&& forall|i: int|
                0 <= i < files.len() ==> (bound_of((#[trigger] files[i]).bounds, id) matches Some(b)
                    ==> lo <= long_of(b.lower) && long_of(b.upper) <= hi)
            &&& lo == i64::MAX || exists|i: int|
                0 <= i < files.len() && (bound_of((#[trigger] files[i]).bounds, id) matches Some(b)
                    && long_of(b.lower) == lo)
            &&& hi == i64::MIN || exists|i: int|
                0 <= i < files.len() && (bound_of((#[trigger] files[i]).bounds, id) matches Some(b)
                    && long_of(b.upper) == hi)
        }),
    decreases files.len(),
{
    if files.len() > 0 {
        let d = files.drop_last();
        a_domain_spans_the_bounds(d, id);
        let (l0, h0) = domain(d, id);
        let (lo, hi) = domain(files, id);
        assert forall|i: int| 0 <= i < files.len() implies (bound_of(
            (#[trigger] files[i]).bounds,
            id,
        ) matches Some(b) ==> lo <= long_of(b.lower) && long_of(b.upper) <= hi) by {
            if i < d.len() {
                assert(d[i] == files[i]);
            }
        }
        if lo == l0 && lo != i64::MAX {
            let i = choose|i: int|
                0 <= i < d.len() && (bound_of((#[trigger] d[i]).bounds, id) matches Some(b)
                    && long_of(b.lower) == lo);
            assert(files[i] == d[i]);
        } else if lo != l0 {
            assert(files[files.len() - 1] == files.last());
        }
        if hi == h0 && hi != i64::MIN {
            let i = choose|i: int|
                0 <= i < d.len() && (bound_of((#[trigger] d[i]).bounds, id) matches Some(b)
                    && long_of(b.upper) == hi);
            assert(files[i] == d[i]);
        } else if hi != h0 {
            assert(files[files.len() - 1] == files.last());
        }
    }
}

/// A field's bounds are the first that a file gives for it.
pub proof fn a_bound_is_found_by_its_field(b: Seq<FileBound>, id: i32)
    ensures
        bound_of(b, id) matches Some(x) ==> exists|i: int|
            0 <= i < b.len() && #[trigger] b[i] == x && x.id == id && forall|j: int|
                0 <= j < i ==> (#[trigger] b[j]).id != id,
        bound_of(b, id) is None ==> forall|j: int| 0 <= j < b.len() ==> (#[trigger] b[j]).id != id,
    decreases b.len(),
{
    if b.len() > 0 {
        let t = b.skip(1);
        a_bound_is_found_by_its_field(t, id);
        assert forall|j: int| 0 < j < b.len() implies #[trigger] b[j] == t[j - 1] by {}
        if b[0].id == id {
            assert(b[0] == bound_of(b, id)->0);
        } else if let Some(x) = bound_of(b, id) {
            let i = choose|i: int|
                0 <= i < t.len() && #[trigger] t[i] == x && x.id == id && forall|j: int|
                    0 <= j < i ==> (#[trigger] t[j]).id != id;
            assert(b[i + 1] == x);
            assert forall|j: int| 0 <= j < i + 1 implies (#[trigger] b[j]).id != id by {
                if j > 0 {
                    assert(b[j] == t[j - 1]);
                }
            }
        }
    }
}

/// The shares of the rows above and below a value within a domain are its
/// distances from the two ends over the domain's width, and add up to the
/// whole; outside the domain a share is nothing. Equality is one of the
/// domain's width, a text is guessed at, and without bounds all rows count.
pub proof fn shares_divide_the_domain(files: Seq<FileView>, q: BoundPredView, l: i64)
    ensures
        ({
            let (lo, hi) = domain(files, q.field_id);
            let s = |op: CmpOp| share(files, BoundPredView { op, lit: LitView::Int(l), ..q });
            &&& q.lit is Str ==> share(files, q) is Guess
            &&& lo > hi ==> s(q.op) is All
            &&& lo <= hi ==> s(CmpOp::Gt) == s(CmpOp::Ge) && s(CmpOp::Lt) == s(CmpOp::Le)
            &&& lo < hi && lo <= l <= hi ==> (s(CmpOp::Gt) matches Selectivity::Part(a, w) && s(
                CmpOp::Lt,
            ) matches Selectivity::Part(b, v) && a + b == w && w == v && w == hi - lo && a == hi - l)
            &&& lo <= hi && l > hi ==> (s(CmpOp::Gt) matches Selectivity::Part(a, w) && a == 0)
            &&& lo <= hi && l < lo ==> (s(CmpOp::Lt) matches Selectivity::Part(a, w) && a == 0)
            &&& lo <= hi ==> (s(CmpOp::Eq) matches Selectivity::OneOf(w) && w == if hi > lo {
                hi - lo
            } else {
                1
            })
        }),
{
}

/// A plan shows an operator as it is written in a statement.
pub proof fn operators_are_shown_as_written(op: CmpOp)
    ensures
        op_text(op) == op_word(op),
{
}

/// A prepared plan is the bound one with the files of each scan that its
/// predicates leave, and nothing else changed.
pub proof fn a_plan_is_prepared_by_leaving_files_out(b: BoundView, i: int)
    requires
        0 <= i < b.scans.len(),
    ensures
        ({
            let p = plan_pruned(b);
            &&& p.scans.len() == b.scans.len()
            &&& p.scans[i].files == b.scans[i].files.filter(
                |f: FileView| !scan_prunes(b.scans[i], f),
            )
            &&& p.scans[i].cols == b.scans[i].cols && p.scans[i].preds == b.scans[i].preds
                && p.scans[i].table == b.scans[i].table && p.scans[i].meta == b.scans[i].meta
            &&& p.join == b.join && p.output == b.output && p.group_by == b.group_by
            &&& p.order_by == b.order_by && p.limit == b.limit && p.two_phase_agg
                == b.two_phase_agg
        }),
{
    files_are_kept_unless_ruled_out(b.scans[i]);
}

} // verus!
