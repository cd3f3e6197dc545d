//! What holds of every plan.
use crate::format::meta::DataType;
use crate::plan::ast::{AstView, ItemView, JoinView, NameView, PredView};
use crate::plan::physical::{
    alias_index, bind_group, bind_item, bind_join, bind_output, bind_pred, bind_table, bound,
    col_meta, col_position, field_index, find_scan, fold_steps, holder, holders, load, named_tables,
    need, resolve, BoundView, CatalogTableView, ColView, JoinKeys, OutExpr, ScanView,
};
use vstd::prelude::*;

verus! {

/// A scan reads each column at most once, and what it reads and tests are
/// fields of its table.
pub open spec fn scan_ok(s: ScanView) -> bool {
    &&& forall|i: int|
        0 <= i < s.cols.len() ==> 0 <= (#[trigger] s.cols[i]).idx < s.meta.fields.len()
            && s.cols[i].dtype == s.meta.fields[s.cols[i].idx].dtype
    &&& forall|i: int, j: int|
        0 <= i < j < s.cols.len() ==> (#[trigger] s.cols[i]).idx != (#[trigger] s.cols[j]).idx
    &&& forall|i: int|
        0 <= i < s.preds.len() ==> 0 <= (#[trigger] s.preds[i]).col_idx < s.meta.fields.len()
            && s.preds[i].field_id == s.meta.fields[s.preds[i].col_idx].id
}

pub open spec fn scans_ok(scans: Seq<ScanView>) -> bool {
    forall|i: int| 0 <= i < scans.len() ==> scan_ok(#[trigger] scans[i])
}

/// Whether a scan and a position in its columns exist.
pub open spec fn slot_ok(scans: Seq<ScanView>, si: int, p: int) -> bool {
    0 <= si < scans.len() && 0 <= p < scans[si].cols.len()
}

pub open spec fn is_long(scans: Seq<ScanView>, si: int, p: int) -> bool {
    slot_ok(scans, si, p) && scans[si].cols[p].dtype == DataType::Int64
}

pub open spec fn out_ok(scans: Seq<ScanView>, o: OutExpr) -> bool {
    match o {
        OutExpr::Col(s, p) => slot_ok(scans, s as int, p as int),
        OutExpr::Agg(_, s, p) => p == usize::MAX || is_long(scans, s as int, p as int),
    }
}

pub open spec fn outs_ok(scans: Seq<ScanView>, out: Seq<OutExpr>) -> bool {
    forall|i: int| 0 <= i < out.len() ==> out_ok(scans, #[trigger] out[i])
}

pub open spec fn groups_ok(scans: Seq<ScanView>, g: Seq<(usize, usize)>) -> bool {
    forall|i: int|
        0 <= i < g.len() ==> slot_ok(scans, (#[trigger] g[i]).0 as int, g[i].1 as int)
}

pub open spec fn keys_ok(scans: Seq<ScanView>, k: Option<JoinKeys>) -> bool {
    k matches Some(j) ==> is_long(scans, j.lscan as int, j.lpos as int) && is_long(
        scans,
        j.rscan as int,
        j.rpos as int,
    )
}

/// Whether the numbers of scans and of their columns fit a machine word.
pub open spec fn small(scans: Seq<ScanView>) -> bool {
    &&& scans.len() <= usize::MAX
    &&& forall|i: int| 0 <= i < scans.len() ==> (#[trigger] scans[i]).meta.fields.len() < usize::MAX
}

/// The same tables, of which each may produce further columns.
pub open spec fn grown(a: Seq<ScanView>, b: Seq<ScanView>) -> bool {
    &&& a.len() == b.len()
    &&& forall|i: int|
        #![trigger a[i]]
        #![trigger b[i]]
        0 <= i < a.len() ==> {
            &&& a[i].meta == b[i].meta
            &&& a[i].cols.len() <= b[i].cols.len()
            &&& forall|p: int| 0 <= p < a[i].cols.len() ==> a[i].cols[p] == b[i].cols[p]
        }
}

proof fn field_index_bound(s: ScanView, col: Seq<char>)
    ensures
        col_meta(s, col) matches Ok(i) ==> 0 <= i < s.meta.fields.len(),
    decreases s.meta.fields.len(),
{
    field_index_in(s.meta.fields, col);
}

proof fn field_index_in(f: Seq<crate::iceberg::table::FieldSpec>, col: Seq<char>)
    ensures
        field_index(f, col) matches Some(i) ==> 0 <= i < f.len() && f[i].name == col,
    decreases f.len(),
{
    if f.len() > 0 {
        field_index_in(f.skip(1), col);
    }
}

proof fn alias_index_in(scans: Seq<ScanView>, q: Seq<char>)
    ensures
        alias_index(scans, q) matches Some(i) ==> 0 <= i < scans.len(),
    decreases scans.len(),
{
    if scans.len() > 0 {
        alias_index_in(scans.skip(1), q);
    }
}

proof fn holder_in(scans: Seq<ScanView>, col: Seq<char>)
    ensures
        holders(scans, col) > 0 ==> 0 <= holder(scans, col) < scans.len(),
    decreases scans.len(),
{
    if scans.len() > 0 {
        holder_in(scans.skip(1), col);
    }
}

proof fn find_scan_in(scans: Seq<ScanView>, n: NameView)
    ensures
        find_scan(scans, n) matches Ok(i) ==> 0 <= i < scans.len(),
{
    alias_index_in(scans, n.qual);
    holder_in(scans, n.col);
}

proof fn resolve_in(scans: Seq<ScanView>, n: NameView)
    ensures
        resolve(scans, n) matches Ok((si, ci)) ==> 0 <= si < scans.len() && 0 <= ci
            < scans[si].meta.fields.len(),
{
    find_scan_in(scans, n);
    if let Ok(si) = find_scan(scans, n) {
        field_index_bound(scans[si], n.col);
    }
}

proof fn col_position_in(cols: Seq<ColView>, idx: int)
    ensures
        match col_position(cols, idx) {
            Some(p) => 0 <= p < cols.len() && cols[p].idx == idx,
            None => forall|i: int| 0 <= i < cols.len() ==> (#[trigger] cols[i]).idx != idx,
        },
    decreases cols.len(),
{
    if cols.len() > 0 {
        col_position_in(cols.skip(1), idx);
        if col_position(cols, idx) is None {
            assert forall|i: int| 0 <= i < cols.len() implies (#[trigger] cols[i]).idx != idx by {
                if i > 0 {
                    assert(cols.skip(1)[i - 1] == cols[i]);
                }
            }
        }
    }
}

/// Distinct columns are no more than there are fields.
proof fn cols_bounded(s: ScanView)
    requires
        scan_ok(s),
    ensures
        s.cols.len() <= s.meta.fields.len(),
{
    let ids = Seq::new(s.cols.len(), |i: int| s.cols[i].idx);
    let all = vstd::set_lib::set_int_range(0, s.meta.fields.len() as int);
    assert(ids.no_duplicates()) by {
        assert forall|i: int, j: int| 0 <= i < ids.len() && 0 <= j < ids.len() && i
            != j implies ids[i] != ids[j] by {
            if i < j {
                assert(s.cols[i].idx != s.cols[j].idx);
            } else {
                assert(s.cols[j].idx != s.cols[i].idx);
            }
        }
    }
    ids.unique_seq_to_set();
    vstd::set_lib::lemma_int_range(0, s.meta.fields.len() as int);
    assert(ids.to_set().subset_of(all)) by {
        assert forall|x: int| ids.to_set().contains(x) implies all.contains(x) by {
            let i = choose|i: int| 0 <= i < ids.len() && ids[i] == x;
            assert(s.cols[i].idx == x);
        }
    }
    vstd::set_lib::lemma_len_subset(ids.to_set(), all);
}

/// Letting a scan produce a column keeps everything in order.
proof fn need_ok(scans: Seq<ScanView>, si: int, ci: int, name: Seq<char>)
    requires
        scans_ok(scans),
        small(scans),
        0 <= si < scans.len(),
        0 <= ci < scans[si].meta.fields.len(),
    ensures
        ({
            let (t, p) = need(scans, si, ci, name);
            &&& scans_ok(t)
            &&& small(t)
            &&& grown(scans, t)
            &&& slot_ok(t, si, p)
            &&& p < usize::MAX
            &&& t[si].cols[p].idx == ci
            &&& t[si].cols[p].dtype == scans[si].meta.fields[ci].dtype
        }),
{
    let s = scans[si];
    let (t, p) = need(scans, si, ci, name);
    assert(scan_ok(s));
    col_position_in(s.cols, ci);
    cols_bounded(s);
    assert(scan_ok(t[si]));
    assert forall|i: int| 0 <= i < t.len() implies scan_ok(#[trigger] t[i]) by {
        if i != si {
            assert(t[i] == scans[i]);
        }
    }
    assert forall|i: int| 0 <= i < t.len() implies (#[trigger] t[i]).meta.fields.len()
        < usize::MAX by {
        assert(scans[i].meta.fields.len() < usize::MAX);
        if i != si {
            assert(t[i] == scans[i]);
        }
    }
}

proof fn grown_keeps(a: Seq<ScanView>, b: Seq<ScanView>, out: Seq<OutExpr>, g: Seq<(usize, usize)>,
    k: Option<JoinKeys>)
    requires
        grown(a, b),
    ensures
        outs_ok(a, out) ==> outs_ok(b, out),
        groups_ok(a, g) ==> groups_ok(b, g),
        keys_ok(a, k) ==> keys_ok(b, k),
{
    if outs_ok(a, out) {
        assert forall|i: int| 0 <= i < out.len() implies out_ok(b, #[trigger] out[i]) by {
            assert(out_ok(a, out[i]));
            match out[i] {
                OutExpr::Col(s, p) => {
                    assert(a[s as int].cols.len() <= b[s as int].cols.len());
                },
                OutExpr::Agg(_, s, p) => {
                    if p != usize::MAX {
                        assert(a[s as int].cols[p as int] == b[s as int].cols[p as int]);
                    }
                },
            }
        }
    }
    if groups_ok(a, g) {
        assert forall|i: int| 0 <= i < g.len() implies slot_ok(
            b,
            (#[trigger] g[i]).0 as int,
            g[i].1 as int,
        ) by {
            assert(slot_ok(a, g[i].0 as int, g[i].1 as int));
            assert(a[g[i].0 as int].cols.len() <= b[g[i].0 as int].cols.len());
        }
    }
    if keys_ok(a, k) {
        if let Some(j) = k {
            assert(a[j.lscan as int].cols[j.lpos as int] == b[j.lscan as int].cols[j.lpos as int]);
            assert(a[j.rscan as int].cols[j.rpos as int] == b[j.rscan as int].cols[j.rpos as int]);
        }
    }
}

/// What every step keeps holds in the end.
proof fn fold_keeps<S, T>(
    start: S,
    items: Seq<T>,
    step: spec_fn(S, T) -> Result<S, Seq<char>>,
    inv: spec_fn(S) -> bool,
)
    requires
        inv(start),
        forall|s: S, t: T| inv(s) ==> (#[trigger] step(s, t) matches Ok(r) ==> inv(r)),
    ensures
        fold_steps(start, items, step) matches Ok(r) ==> inv(r),
    decreases items.len(),
{
    if items.len() > 0 {
        fold_keeps(start, items.drop_last(), step, inv);
        if let Ok(s) = fold_steps(start, items.drop_last(), step) {
            let r = step(s, items.last());
        }
    }
}

/// The catalog's tables have no more fields than a machine word counts.
pub open spec fn catalog_small(c: Seq<CatalogTableView>) -> bool {
    forall|i: int| 0 <= i < c.len() ==> (#[trigger] c[i]).meta.fields.len() < usize::MAX
}

proof fn load_in(c: Seq<CatalogTableView>, name: Seq<char>)
    ensures
        load(c, name) matches Some(t) ==> c.contains(t),
    decreases c.len(),
{
    if c.len() > 0 {
        load_in(c.skip(1), name);
        if let Some(t) = load(c, name) {
            if c[0].name != name {
                let i = choose|i: int| 0 <= i < c.skip(1).len() && c.skip(1)[i] == t;
                assert(c[i + 1] == t);
            }
        }
    }
}

pub open spec fn fits(scans: Seq<ScanView>) -> bool {
    forall|i: int| 0 <= i < scans.len() ==> (#[trigger] scans[i]).meta.fields.len() < usize::MAX
}

proof fn tables_ok(ast: AstView, c: Seq<CatalogTableView>)
    requires
        catalog_small(c),
    ensures
        fold_steps(
            Seq::<ScanView>::empty(),
            named_tables(ast),
            |s: Seq<ScanView>, t: (Seq<char>, Seq<char>)| bind_table(c, s, t),
        ) matches Ok(r) ==> scans_ok(r) && fits(r) && r.len() == named_tables(ast).len(),
{
    let f = |s: Seq<ScanView>, t: (Seq<char>, Seq<char>)| bind_table(c, s, t);
    let inv = |s: Seq<ScanView>| scans_ok(s) && fits(s);
    assert forall|s: Seq<ScanView>, t: (Seq<char>, Seq<char>)| inv(s) implies (
    #[trigger] f(s, t) matches Ok(r) ==> inv(r)) by {
        if let Ok(r) = f(s, t) {
            load_in(c, t.0);
            let x = load(c, t.0)->0;
            let i = choose|i: int| 0 <= i < c.len() && c[i] == x;
            assert(c[i].meta.fields.len() < usize::MAX);
            assert forall|k: int| 0 <= k < r.len() implies scan_ok(#[trigger] r[k]) by {
                if k < s.len() {
                    assert(r[k] == s[k]);
                }
            }
            assert forall|k: int| 0 <= k < r.len() implies (#[trigger] r[k]).meta.fields.len()
                < usize::MAX by {
                if k < s.len() {
                    assert(r[k] == s[k]);
                }
            }
        }
    }
    fold_keeps(Seq::<ScanView>::empty(), named_tables(ast), f, inv);
    tables_len(c, named_tables(ast));
}

proof fn tables_len(c: Seq<CatalogTableView>, names: Seq<(Seq<char>, Seq<char>)>)
    ensures
        fold_steps(
            Seq::<ScanView>::empty(),
            names,
            |s: Seq<ScanView>, t: (Seq<char>, Seq<char>)| bind_table(c, s, t),
        ) matches Ok(r) ==> r.len() == names.len(),
    decreases names.len(),
{
    if names.len() > 0 {
        tables_len(c, names.drop_last());
    }
}

proof fn pred_ok(scans: Seq<ScanView>, p: PredView)
    requires
        scans_ok(scans),
        small(scans),
    ensures
        bind_pred(scans, p) matches Ok(r) ==> scans_ok(r) && small(r) && grown(scans, r),
{
    resolve_in(scans, p.name);
    if let Ok((si, ci)) = resolve(scans, p.name) {
        let r = bind_pred(scans, p)->Ok_0;
        assert(scan_ok(scans[si]));
        assert(scan_ok(r[si]));
        assert forall|k: int| 0 <= k < r.len() implies scan_ok(#[trigger] r[k]) by {
            if k != si {
                assert(r[k] == scans[k]);
            }
        }
        assert forall|k: int| 0 <= k < r.len() implies (#[trigger] r[k]).meta.fields.len()
            < usize::MAX by {
            assert(scans[k].meta.fields.len() < usize::MAX);
        }
    }
}

/// Predicates project nothing: pushing one down leaves the columns of every
/// scan as they were.
pub proof fn predicates_project_nothing(scans: Seq<ScanView>, p: PredView, k: int)
    requires
        0 <= k < scans.len(),
    ensures
        bind_pred(scans, p) matches Ok(r) ==> r.len() == scans.len() && r[k].cols == scans[k].cols,
{
    resolve_in(scans, p.name);
    if let Ok((si, ci)) = resolve(scans, p.name) {
        if si != k {
            assert(bind_pred(scans, p)->Ok_0[k] == scans[k]);
        }
    }
}

/// Whether every part of a bound statement refers to something that exists.
pub open spec fn bound_ok(b: BoundView) -> bool {
    &&& b.scans.len() >= 1
    &&& scans_ok(b.scans)
    &&& outs_ok(b.scans, b.output)
    &&& groups_ok(b.scans, b.group_by)
    &&& keys_ok(b.scans, b.join)
}

/// Binding yields a plan in which every column, key and group exists, every
/// scan reads a column at most once, and keys and aggregates are integers.
pub proof fn binding_is_sound(ast: AstView, c: Seq<CatalogTableView>)
    requires
        catalog_small(c),
        ast.joins.len() < usize::MAX,
    ensures
        bound(ast, c) matches Ok(b) ==> bound_ok(b),
{
    tables_ok(ast, c);
    let ft = |s: Seq<ScanView>, t: (Seq<char>, Seq<char>)| bind_table(c, s, t);
    let fp = |s: Seq<ScanView>, p: PredView| bind_pred(s, p);
    if let Ok(s0) = fold_steps(Seq::<ScanView>::empty(), named_tables(ast), ft) {
        let n = named_tables(ast).len();
        let inv = |s: Seq<ScanView>| scans_ok(s) && small(s) && s.len() == n;
        assert forall|s: Seq<ScanView>, p: PredView| inv(s) implies (#[trigger] fp(s, p) matches Ok(
            r,
        ) ==> inv(r)) by {
            pred_ok(s, p);
        }
        fold_keeps(s0, ast.preds, fp, inv);
        if let Ok(s1) = fold_steps(s0, ast.preds, fp) {
            join_ok(s1, ast.joins);
            if let Ok((s2, keys)) = bind_join(s1, ast.joins) {
                output_ok(ast, s2, keys);
            }
        }
    }
}

proof fn join_ok(scans: Seq<ScanView>, joins: Seq<JoinView>)
    requires
        scans_ok(scans),
        small(scans),
    ensures
        bind_join(scans, joins) matches Ok((t, k)) ==> scans_ok(t) && small(t) && keys_ok(t, k)
            && t.len() == scans.len(),
{
    if joins.len() == 1 {
        let j = joins[0];
        find_scan_in(scans, j.left);
        find_scan_in(scans, j.right);
        if let Ok((t, k)) = bind_join(scans, joins) {
            let ls = find_scan(scans, j.left)->Ok_0;
            let rs = find_scan(scans, j.right)->Ok_0;
            field_index_bound(scans[ls], j.left.col);
            field_index_bound(scans[rs], j.right.col);
            let lc = col_meta(scans[ls], j.left.col)->Ok_0;
            let rc = col_meta(scans[rs], j.right.col)->Ok_0;
            need_ok(scans, ls, lc, j.left.col);
            let (s1, lp) = need(scans, ls, lc, j.left.col);
            assert(s1[rs].meta == scans[rs].meta);
            need_ok(s1, rs, rc, j.right.col);
            let (s2, rp) = need(s1, rs, rc, j.right.col);
            assert(s1[ls].cols[lp] == s2[ls].cols[lp]);
        }
    }
}

proof fn output_ok(ast: AstView, scans: Seq<ScanView>, keys: Option<JoinKeys>)
    requires
        scans_ok(scans),
        small(scans),
        keys_ok(scans, keys),
        scans.len() >= 1,
    ensures
        bind_output(ast, scans) matches Ok((t, out, g)) ==> scans_ok(t) && outs_ok(t, out)
            && groups_ok(t, g) && keys_ok(t, keys) && t.len() >= 1,
{
    let fi = |s: (Seq<ScanView>, Seq<OutExpr>), it: ItemView| bind_item(s, it);
    let fg = |s: (Seq<ScanView>, Seq<(usize, usize)>), n: NameView| bind_group(s, n);
    let inv_i = |s: (Seq<ScanView>, Seq<OutExpr>)|
        scans_ok(s.0) && small(s.0) && outs_ok(s.0, s.1) && keys_ok(s.0, keys) && s.0.len() >= 1;
    assert forall|s: (Seq<ScanView>, Seq<OutExpr>), it: ItemView| inv_i(s) implies (
    #[trigger] fi(s, it) matches Ok(r) ==> inv_i(r)) by {
        if let Ok(r) = fi(s, it) {
            let n = match it {
                ItemView::Col(n) => n,
                ItemView::Agg(_, n) => n,
            };
            resolve_in(s.0, n);
            if !(it is Agg && n.col == "*"@) {
                let (si, ci) = resolve(s.0, n)->Ok_0;
                need_ok(s.0, si, ci, n.col);
                let (t, p) = need(s.0, si, ci, n.col);
                grown_keeps(s.0, t, s.1, Seq::empty(), keys);
                assert forall|i: int| 0 <= i < r.1.len() implies out_ok(t, #[trigger] r.1[i]) by {
                    if i < s.1.len() {
                        assert(out_ok(t, s.1[i]));
                    }
                }
            } else {
                assert forall|i: int| 0 <= i < r.1.len() implies out_ok(s.0, #[trigger] r.1[i]) by {
                    if i < s.1.len() {
                        assert(out_ok(s.0, s.1[i]));
                    }
                }
            }
        }
    }
    fold_keeps((scans, Seq::<OutExpr>::empty()), ast.select, fi, inv_i);
    if let Ok((s1, out)) = fold_steps((scans, Seq::<OutExpr>::empty()), ast.select, fi) {
        let inv_g = |s: (Seq<ScanView>, Seq<(usize, usize)>)|
            scans_ok(s.0) && small(s.0) && outs_ok(s.0, out) && groups_ok(s.0, s.1) && keys_ok(
                s.0,
                keys,
            ) && s.0.len() >= 1;
        assert forall|s: (Seq<ScanView>, Seq<(usize, usize)>), n: NameView| inv_g(s) implies (
        #[trigger] fg(s, n) matches Ok(r) ==> inv_g(r)) by {
            if let Ok(r) = fg(s, n) {
                resolve_in(s.0, n);
                let (si, ci) = resolve(s.0, n)->Ok_0;
                need_ok(s.0, si, ci, n.col);
                let (t, p) = need(s.0, si, ci, n.col);
                grown_keeps(s.0, t, out, s.1, keys);
                assert forall|i: int| 0 <= i < r.1.len() implies slot_ok(
                    t,
                    (#[trigger] r.1[i]).0 as int,
                    r.1[i].1 as int,
                ) by {
                    if i < s.1.len() {
                        assert(slot_ok(t, s.1[i].0 as int, s.1[i].1 as int));
                    }
                }
            }
        }
        fold_keeps((s1, Seq::<(usize, usize)>::empty()), ast.group_by, fg, inv_g);
    }
}

} // verus!
