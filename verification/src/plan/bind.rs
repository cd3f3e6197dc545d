//! The planner: binds a statement, prunes files, and settles the join.
use crate::format::meta::DataType;
use crate::iceberg::table::{
    copy_files, field_views, file_views, DataFile, Field, FileView, TableMeta,
};
use crate::plan::ast::{
    item_views, join_views, name_views, pred_views, Ast, AstJoin, AstPred, ItemView, NameView,
    PredView, SelectItem,
};
use crate::plan::physical::{
    alias_index, bind_group, bind_item, bind_join, bind_pred, bind_table, bound, bound_preds,
    col_meta, col_position, col_views, field_index, find_scan, first_scan, fold_steps,
    fold_steps_fails, fold_steps_next, has_agg, holder, holders, is_agg, load, named_tables, need,
    resolve, row_total, scan_views, with_col, BoundPlan, BoundPred, BoundPredView, Catalog, ColView,
    JoinKeys, OutExpr, ScanNode, ScanView,
};
use crate::text::{join2, str_eq};
use vstd::prelude::*;

verus! {

fn find_table(c: &Catalog, name: &str) -> (r: Option<usize>)
    ensures
        match r {
            None => load(c@, name@) is None,
            Some(i) => i < c.tables@.len() && load(c@, name@) == Some(c@[i as int]),
        },
{
    let mut i: usize = 0;
    assert(c@.skip(0) =~= c@);
    while i < c.tables.len()
        invariant
            i <= c.tables@.len(),
            load(c@, name@) == load(c@.skip(i as int), name@),
        decreases c.tables@.len() - i,
    {
        assert(c@.skip(i as int).skip(1) =~= c@.skip(i + 1));
        if str_eq(c.tables[i].name.as_str(), name) {
            return Some(i);
        }
        i += 1;
    }
    None
}

/// Sums the rows that files say they hold.
pub fn count_rows(files: &Vec<DataFile>) -> (n: i128)
    ensures
        n == row_total(file_views(files@)),
{
    let ghost fv = file_views(files@);
    let mut n: i128 = 0;
    let mut k: usize = 0;
    assert(fv.take(0) =~= Seq::<FileView>::empty());
    while k < files.len()
        invariant
            k <= files@.len(),
            fv == file_views(files@),
            n == row_total(fv.take(k as int)),
            -0x8000_0000_0000_0000 * k <= n <= 0x8000_0000_0000_0000 * k,
        decreases files@.len() - k,
    {
        proof {
            assert(fv.take(k + 1).drop_last() =~= fv.take(k as int));
            assert(fv.take(k + 1).last() == files@[k as int]@);
        }
        n = n + files[k].record_count as i128;
        k += 1;
    }
    assert(fv.take(k as int) =~= fv);
    n
}

fn find_field(fields: &Vec<Field>, name: &str) -> (r: Option<usize>)
    ensures
        match r {
            None => field_index(field_views(fields@), name@) is None,
            Some(i) => i < fields@.len() && field_index(field_views(fields@), name@) == Some(
                i as int,
            ),
        },
{
    let ghost fv = field_views(fields@);
    let mut i: usize = 0;
    assert(fv.skip(0) =~= fv);
    while i < fields.len()
        invariant
            i <= fields@.len(),
            fv == field_views(fields@),
            match field_index(fv.skip(i as int), name@) {
                None => field_index(fv, name@) is None,
                Some(j) => field_index(fv, name@) == Some(i + j),
            },
        decreases fields@.len() - i,
    {
        assert(fv.skip(i as int).skip(1) =~= fv.skip(i + 1));
        assert(fv.skip(i as int)[0] == fields@[i as int]@);
        if str_eq(fields[i].name.as_str(), name) {
            return Some(i);
        }
        i += 1;
    }
    None
}

fn text3(a: &str, b: &str, c: &str) -> (r: String)
    ensures
        r@ == a@ + b@ + c@,
{
    let ab: String = join2(a, b);
    join2(ab.as_str(), c)
}

fn locate_scan(scans: &Vec<ScanNode>, qual: &str, col: &str) -> (r: Result<usize, String>)
    ensures
        ({
            let want = find_scan(scan_views(scans@), NameView { qual: qual@, col: col@ });
            match r {
                Ok(i) => want == Ok::<int, Seq<char>>(i as int) && i < scans@.len(),
                Err(e) => want == Err::<int, Seq<char>>(e@),
            }
        }),
{
    let ghost sv = scan_views(scans@);
    assert(sv.skip(0) =~= sv);
    let mut i: usize = 0;
    if !qual.is_empty() {
        while i < scans.len()
            invariant
                i <= scans@.len(),
                sv == scan_views(scans@),
                qual@.len() > 0,
                match alias_index(sv.skip(i as int), qual@) {
                    None => alias_index(sv, qual@) is None,
                    Some(j) => alias_index(sv, qual@) == Some(i + j),
                },
            decreases scans@.len() - i,
        {
            assert(sv.skip(i as int).skip(1) =~= sv.skip(i + 1));
            assert(sv.skip(i as int)[0] == scans@[i as int]@);
            if str_eq(scans[i].alias.as_str(), qual) || str_eq(scans[i].table.as_str(), qual) {
                return Ok(i);
            }
            i += 1;
        }
        return Err(join2("unknown table alias ", qual));
    }
    let mut found: usize = 0;
    let mut first: usize = 0;
    while i < scans.len()
        invariant
            i <= scans@.len(),
            sv == scan_views(scans@),
            found <= i,
            holders(sv, col@) == found + holders(sv.skip(i as int), col@),
            found == 0 ==> holder(sv, col@) == i + holder(sv.skip(i as int), col@),
            found > 0 ==> first < i && holder(sv, col@) == first,
        decreases scans@.len() - i,
    {
        assert(sv.skip(i as int).skip(1) =~= sv.skip(i + 1));
        assert(sv.skip(i as int)[0] == scans@[i as int]@);
        if find_field(&scans[i].meta.fields, col).is_some() {
            if found == 0 {
                first = i;
            }
            found += 1;
        }
        i += 1;
    }
    if found == 1 {
        Ok(first)
    } else if found == 0 {
        Err(text3("column ", col, " not found"))
    } else {
        Err(text3("column ", col, " is ambiguous; qualify it"))
    }
}

fn locate_col(scan: &ScanNode, col: &str) -> (r: Result<usize, String>)
    ensures
        match r {
            Ok(i) => col_meta(scan@, col@) == Ok::<int, Seq<char>>(i as int) && i
                < scan.meta.fields@.len(),
            Err(e) => col_meta(scan@, col@) == Err::<int, Seq<char>>(e@),
        },
{
    match find_field(&scan.meta.fields, col) {
        Some(i) => Ok(i),
        None => {
            let a: String = text3("column ", col, " not in ");
            Err(join2(a.as_str(), scan.table.as_str()))
        },
    }
}

fn resolve_name(scans: &Vec<ScanNode>, qual: &str, col: &str) -> (r: Result<
    (usize, usize),
    String,
>)
    ensures
        ({
            let want = resolve(scan_views(scans@), NameView { qual: qual@, col: col@ });
            match r {
                Ok((si, ci)) => want == Ok::<(int, int), Seq<char>>((si as int, ci as int)) && si
                    < scans@.len() && ci < scans@[si as int].meta.fields@.len(),
                Err(e) => want == Err::<(int, int), Seq<char>>(e@),
            }
        }),
{
    let si: usize = match locate_scan(scans, qual, col) {
        Ok(i) => i,
        Err(e) => return Err(e),
    };
    assert(scan_views(scans@)[si as int] == scans@[si as int]@);
    let ci: usize = match locate_col(&scans[si], col) {
        Ok(i) => i,
        Err(e) => return Err(e),
    };
    Ok((si, ci))
}

/// Lets a scan produce field `ci`; returns the column's position.
fn need_col(scan: &mut ScanNode, ci: usize, name: &str) -> (p: usize)
    requires
        ci < old(scan).meta.fields@.len(),
    ensures
        final(scan)@ == with_col(old(scan)@, ci as int, name@).0,
        p == with_col(old(scan)@, ci as int, name@).1,
        p < final(scan).cols@.len(),
        final(scan).meta == old(scan).meta,
        old(scan).cols@.len() <= final(scan).cols@.len(),
{
    let ghost cv = scan@.cols;
    let mut i: usize = 0;
    assert(cv.skip(0) =~= cv);
    while i < scan.cols.len()
        invariant
            i <= scan.cols@.len(),
            *scan == *old(scan),
            cv == scan@.cols,
            match col_position(cv.skip(i as int), ci as int) {
                None => col_position(cv, ci as int) is None,
                Some(j) => col_position(cv, ci as int) == Some(i + j),
            },
        decreases scan.cols@.len() - i,
    {
        assert(cv.skip(i as int).skip(1) =~= cv.skip(i + 1));
        assert(cv.skip(i as int)[0].idx == scan.cols@[i as int].0);
        if scan.cols[i].0 == ci {
            return i;
        }
        i += 1;
    }
    let dt: DataType = scan.meta.fields[ci].dtype;
    assert(scan@.meta.fields[ci as int].dtype == dt);
    scan.cols.push((ci, name.to_owned(), dt));
    proof {
        let c = ColView { idx: ci as int, name: name@, dtype: dt };
        assert(col_views(scan.cols@) =~= cv.push(c));
        assert(scan@ =~= with_col(old(scan)@, ci as int, name@).0);
    }
    i
}

proof fn scan_views_update(scans: Seq<ScanNode>, i: int, s: ScanNode)
    requires
        0 <= i < scans.len(),
    ensures
        scan_views(scans.update(i, s)) == scan_views(scans).update(i, s@),
{
    assert(scan_views(scans.update(i, s)) =~= scan_views(scans).update(i, s@));
}

/// Lets scan `si` produce its field `ci`; returns the column's position.
fn need_in(scans: &mut Vec<ScanNode>, si: usize, ci: usize, name: &str) -> (p: usize)
    requires
        si < old(scans)@.len(),
        ci < old(scans)@[si as int].meta.fields@.len(),
    ensures
        scan_views(final(scans)@) == need(scan_views(old(scans)@), si as int, ci as int, name@).0,
        p == need(scan_views(old(scans)@), si as int, ci as int, name@).1,
        final(scans)@.len() == old(scans)@.len(),
        forall|k: int|
            0 <= k < old(scans)@.len() ==> (#[trigger] final(scans)@[k]).meta == old(
                scans,
            )@[k].meta,
{
    let ghost before = scans@;
    assert(scan_views(before)[si as int] == before[si as int]@);
    let p: usize = need_col(&mut scans[si], ci, name);
    proof {
        assert(scans@ =~= before.update(si as int, scans@[si as int]));
        scan_views_update(before, si as int, scans@[si as int]);
    }
    p
}

fn bind_tables(ast: &Ast, c: &Catalog) -> (r: Result<Vec<ScanNode>, String>)
    ensures
        match fold_steps(
            Seq::<ScanView>::empty(),
            named_tables(ast@),
            |s: Seq<ScanView>, t: (Seq<char>, Seq<char>)| bind_table(c@, s, t),
        ) {
            Ok(s) => r matches Ok(v) && scan_views(v@) == s,
            Err(m) => r matches Err(e) && e@ == m,
        },
{
    let ghost names = named_tables(ast@);
    let ghost f = |s: Seq<ScanView>, t: (Seq<char>, Seq<char>)| bind_table(c@, s, t);
    let ghost start = Seq::<ScanView>::empty();
    let mut scans: Vec<ScanNode> = Vec::new();
    let n: usize = ast.joins.len();
    let mut k: usize = 0;
    let mut first: bool = true;
    assert(names.take(0) =~= Seq::empty());
    assert(scan_views(scans@) =~= start);
    while first || k < n
        invariant
            k <= n,
            n == ast.joins@.len(),
            first ==> k == 0,
            names == named_tables(ast@),
            f == (|s: Seq<ScanView>, t: (Seq<char>, Seq<char>)| bind_table(c@, s, t)),
            start == Seq::<ScanView>::empty(),
            fold_steps(start, names.take(if first { 0 } else { k + 1 }), f) == Ok::<
                Seq<ScanView>,
                Seq<char>,
            >(scan_views(scans@)),
        decreases n - k + (if first { 1int } else { 0 }),
    {
        let ghost at: int = if first { 0 } else { k + 1 };
        let (name, alias): (&String, &String) = if first {
            (&ast.table, &ast.alias)
        } else {
            (&ast.joins[k].table, &ast.joins[k].alias)
        };
        proof {
            if !first {
                assert(join_views(ast.joins@)[k as int] == ast.joins@[k as int]@);
            }
            assert(names[at] == (name@, alias@));
            fold_steps_next(start, names, f, at);
        }
        match find_table(c, name.as_str()) {
            None => {
                let e: String = text3("table ", name.as_str(), " not found in catalog");
                proof {
                    fold_steps_fails(start, names, f, at + 1, e@);
                }
                return Err(e);
            },
            Some(i) => {
                let ghost before = scan_views(scans@);
                let meta: TableMeta = c.tables[i].meta.copy();
                let files: Vec<DataFile> = copy_files(&c.tables[i].files);
                let total: i128 = count_rows(&files);
                let s: ScanNode = ScanNode {
                    table: name.clone(),
                    alias: alias.clone(),
                    meta,
                    cols: Vec::new(),
                    preds: Vec::new(),
                    est_rows: 0,
                    total_rows: total,
                    files,
                    files_pruned: 0,
                };
                proof {
                    assert(col_views(s.cols@) =~= Seq::<ColView>::empty());
                    assert(bound_preds(s.preds@) =~= Seq::<BoundPredView>::empty());
                    assert(s@ =~= first_scan(c@[i as int], name@, alias@));
                }
                scans.push(s);
                assert(scan_views(scans@) =~= before.push(s@));
            },
        }
        if first {
            first = false;
        } else {
            k += 1;
        }
    }
    assert(names.take(n + 1) =~= names);
    Ok(scans)
}

fn push_down(scans: &mut Vec<ScanNode>, preds: &Vec<AstPred>) -> (r: Result<(), String>)
    ensures
        match fold_steps(
            scan_views(old(scans)@),
            pred_views(preds@),
            |s: Seq<ScanView>, p: PredView| bind_pred(s, p),
        ) {
            Ok(s) => r is Ok && scan_views(final(scans)@) == s,
            Err(m) => r matches Err(e) && e@ == m,
        },
{
    let ghost pv = pred_views(preds@);
    let ghost f = |s: Seq<ScanView>, p: PredView| bind_pred(s, p);
    let ghost start = scan_views(scans@);
    let mut k: usize = 0;
    assert(pv.take(0) =~= Seq::empty());
    while k < preds.len()
        invariant
            k <= preds@.len(),
            pv == pred_views(preds@),
            f == (|s: Seq<ScanView>, p: PredView| bind_pred(s, p)),
            start == scan_views(old(scans)@),
            fold_steps(start, pv.take(k as int), f) == Ok::<Seq<ScanView>, Seq<char>>(
                scan_views(scans@),
            ),
        decreases preds@.len() - k,
    {
        let p: &AstPred = &preds[k];
        proof {
            assert(pv[k as int] == p@);
            fold_steps_next(start, pv, f, k as int);
        }
        let (si, ci): (usize, usize) = match resolve_name(scans, p.qual.as_str(), p.col.as_str()) {
            Ok(x) => x,
            Err(e) => {
                proof {
                    fold_steps_fails(start, pv, f, k + 1, e@);
                }
                return Err(e);
            },
        };
        let ghost mid = scans@;
        let id: i32 = scans[si].meta.fields[ci].id;
        let b: BoundPred = BoundPred { col_idx: ci, field_id: id, op: p.op, lit: p.lit.copy() };
        scans[si].preds.push(b);
        proof {
            assert(scan_views(mid)[si as int] == mid[si as int]@);
            assert(mid[si as int]@.meta.fields[ci as int].id == id);
            assert(bound_preds(scans@[si as int].preds@) =~= mid[si as int]@.preds.push(b@));
            assert(scans@ =~= mid.update(si as int, scans@[si as int]));
            scan_views_update(mid, si as int, scans@[si as int]);
            assert(scans@[si as int]@ =~= ScanView {
                preds: mid[si as int]@.preds.push(b@),
                ..mid[si as int]@
            });
        }
        k += 1;
    }
    assert(pv.take(k as int) =~= pv);
    Ok(())
}

fn bind_keys(scans: &mut Vec<ScanNode>, joins: &Vec<AstJoin>) -> (r: Result<
    Option<JoinKeys>,
    String,
>)
    ensures
        match bind_join(scan_views(old(scans)@), join_views(joins@)) {
            Ok((s, keys)) => r == Ok::<Option<JoinKeys>, String>(keys) && scan_views(final(scans)@)
                == s,
            Err(m) => r matches Err(e) && e@ == m,
        },
{
    if joins.len() == 0 {
        return Ok(None);
    }
    if joins.len() > 1 {
        return Err("one join per query in this version".to_owned());
    }
    let j: &AstJoin = &joins[0];
    let ghost sv = scan_views(scans@);
    assert(join_views(joins@)[0] == j@);
    let ls: usize = match locate_scan(scans, j.lqual.as_str(), j.lcol.as_str()) {
        Ok(x) => x,
        Err(e) => return Err(e),
    };
    let rs: usize = match locate_scan(scans, j.rqual.as_str(), j.rcol.as_str()) {
        Ok(x) => x,
        Err(e) => return Err(e),
    };
    assert(sv[ls as int] == scans@[ls as int]@);
    assert(sv[rs as int] == scans@[rs as int]@);
    let lc: usize = match locate_col(&scans[ls], j.lcol.as_str()) {
        Ok(x) => x,
        Err(e) => return Err(e),
    };
    let rc: usize = match locate_col(&scans[rs], j.rcol.as_str()) {
        Ok(x) => x,
        Err(e) => return Err(e),
    };
    if scans[ls].meta.fields[lc].dtype != DataType::Int64 || scans[rs].meta.fields[rc].dtype
        != DataType::Int64 {
        return Err("join keys must be Int64".to_owned());
    }
    let lp: usize = need_in(scans, ls, lc, j.lcol.as_str());
    let rp: usize = need_in(scans, rs, rc, j.rcol.as_str());
    Ok(Some(JoinKeys { lscan: ls, lpos: lp, rscan: rs, rpos: rp }))
}

fn bind_select(scans: &mut Vec<ScanNode>, select: &Vec<SelectItem>) -> (r: Result<
    (Vec<OutExpr>, bool),
    String,
>)
    ensures
        match fold_steps(
            (scan_views(old(scans)@), Seq::<OutExpr>::empty()),
            item_views(select@),
            |s: (Seq<ScanView>, Seq<OutExpr>), it: ItemView| bind_item(s, it),
        ) {
            Ok((s, out)) => r matches Ok((v, agg)) && v@ == out && scan_views(final(scans)@) == s
                && agg == has_agg(item_views(select@)),
            Err(m) => r matches Err(e) && e@ == m,
        },
{
    let ghost iv = item_views(select@);
    let ghost f = |s: (Seq<ScanView>, Seq<OutExpr>), it: ItemView| bind_item(s, it);
    let ghost start = (scan_views(scans@), Seq::<OutExpr>::empty());
    let mut out: Vec<OutExpr> = Vec::new();
    let mut agg: bool = false;
    let mut k: usize = 0;
    assert(iv.take(0) =~= Seq::empty());
    while k < select.len()
        invariant
            k <= select@.len(),
            iv == item_views(select@),
            f == (|s: (Seq<ScanView>, Seq<OutExpr>), it: ItemView| bind_item(s, it)),
            start == (scan_views(old(scans)@), Seq::<OutExpr>::empty()),
            fold_steps(start, iv.take(k as int), f) == Ok::<
                (Seq<ScanView>, Seq<OutExpr>),
                Seq<char>,
            >((scan_views(scans@), out@)),
            agg ==> has_agg(iv),
            !agg ==> forall|i: int| 0 <= i < k ==> !is_agg(#[trigger] iv[i]),
        decreases select@.len() - k,
    {
        proof {
            assert(iv[k as int] == select@[k as int]@);
            fold_steps_next(start, iv, f, k as int);
        }
        match &select[k] {
            SelectItem::Col(q, c) => {
                let (si, ci): (usize, usize) = match resolve_name(scans, q.as_str(), c.as_str()) {
                    Ok(x) => x,
                    Err(e) => {
                        proof {
                            fold_steps_fails(start, iv, f, k + 1, e@);
                        }
                        return Err(e);
                    },
                };
                let p: usize = need_in(scans, si, ci, c.as_str());
                out.push(OutExpr::Col(si, p));
            },
            SelectItem::Agg(fun, q, c) => {
                agg = true;
                assert(is_agg(iv[k as int]));
                if str_eq(c.as_str(), "*") {
                    out.push(OutExpr::Agg(*fun, 0, usize::MAX));
                } else {
                    let (si, ci): (usize, usize) = match resolve_name(
                        scans,
                        q.as_str(),
                        c.as_str(),
                    ) {
                        Ok(x) => x,
                        Err(e) => {
                            proof {
                                fold_steps_fails(start, iv, f, k + 1, e@);
                            }
                            return Err(e);
                        },
                    };
                    assert(scan_views(scans@)[si as int] == scans@[si as int]@);
                    if scans[si].meta.fields[ci].dtype != DataType::Int64 {
                        let e: String = "aggregates require Int64 columns".to_owned();
                        proof {
                            fold_steps_fails(start, iv, f, k + 1, e@);
                        }
                        return Err(e);
                    }
                    let p: usize = need_in(scans, si, ci, c.as_str());
                    out.push(OutExpr::Agg(*fun, si, p));
                }
            },
        }
        k += 1;
    }
    assert(iv.take(k as int) =~= iv);
    Ok((out, agg))
}

fn bind_groups(scans: &mut Vec<ScanNode>, names: &Vec<(String, String)>) -> (r: Result<
    Vec<(usize, usize)>,
    String,
>)
    ensures
        match fold_steps(
            (scan_views(old(scans)@), Seq::<(usize, usize)>::empty()),
            name_views(names@),
            |s: (Seq<ScanView>, Seq<(usize, usize)>), n: NameView| bind_group(s, n),
        ) {
            Ok((s, out)) => r matches Ok(v) && v@ == out && scan_views(final(scans)@) == s,
            Err(m) => r matches Err(e) && e@ == m,
        },
{
    let ghost nv = name_views(names@);
    let ghost f = |s: (Seq<ScanView>, Seq<(usize, usize)>), n: NameView| bind_group(s, n);
    let ghost start = (scan_views(scans@), Seq::<(usize, usize)>::empty());
    let mut out: Vec<(usize, usize)> = Vec::new();
    let mut k: usize = 0;
    assert(nv.take(0) =~= Seq::empty());
    while k < names.len()
        invariant
            k <= names@.len(),
            nv == name_views(names@),
            f == (|s: (Seq<ScanView>, Seq<(usize, usize)>), n: NameView| bind_group(s, n)),
            start == (scan_views(old(scans)@), Seq::<(usize, usize)>::empty()),
            fold_steps(start, nv.take(k as int), f) == Ok::<
                (Seq<ScanView>, Seq<(usize, usize)>),
                Seq<char>,
            >((scan_views(scans@), out@)),
        decreases names@.len() - k,
    {
        proof {
            fold_steps_next(start, nv, f, k as int);
        }
        let (si, ci): (usize, usize) = match resolve_name(
            scans,
            names[k].0.as_str(),
            names[k].1.as_str(),
        ) {
            Ok(x) => x,
            Err(e) => {
                proof {
                    fold_steps_fails(start, nv, f, k + 1, e@);
                }
                return Err(e);
            },
        };
        let p: usize = need_in(scans, si, ci, names[k].1.as_str());
        out.push((si, p));
        k += 1;
    }
    assert(nv.take(k as int) =~= nv);
    Ok(out)
}

/// Binds a statement's names against a catalog, pushes its predicates into
/// their scans, and lets each scan produce only the columns that are named.
pub fn bind(ast: &Ast, catalog: &Catalog) -> (r: Result<BoundPlan, String>)
    ensures
        match bound(ast@, catalog@) {
            Ok(b) => r matches Ok(p) && p@ == b,
            Err(m) => r matches Err(e) && e@ == m,
        },
{
    let mut scans: Vec<ScanNode> = match bind_tables(ast, catalog) {
        Ok(x) => x,
        Err(e) => return Err(e),
    };
    match push_down(&mut scans, &ast.preds) {
        Ok(_) => {},
        Err(e) => return Err(e),
    }
    let join: Option<JoinKeys> = match bind_keys(&mut scans, &ast.joins) {
        Ok(x) => x,
        Err(e) => return Err(e),
    };
    let (output, agg): (Vec<OutExpr>, bool) = match bind_select(&mut scans, &ast.select) {
        Ok(x) => x,
        Err(e) => return Err(e),
    };
    let group_by: Vec<(usize, usize)> = match bind_groups(&mut scans, &ast.group_by) {
        Ok(x) => x,
        Err(e) => return Err(e),
    };
    Ok(
        BoundPlan {
            scans,
            join,
            output,
            group_by,
            order_by: ast.order_by,
            limit: ast.limit,
            two_phase_agg: agg,
        },
    )
}

} // verus!
