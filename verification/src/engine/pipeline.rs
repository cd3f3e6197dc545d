//! What happens to rows: grouping, hash joins, the exchange, the merge of
//! partial states, and TopN.
use crate::engine::values::{
    as_val, cell_rows, cell_val, cells, copy_cells, find_group, group_at, groups, val_rows, vals,
    Acc, Cell, CellView, Group, GroupView, Partial, PartialView, Val, ValView,
};
use crate::plan::ast::AggFn;
use crate::plan::physical::OutExpr;
use vstd::prelude::*;

verus! {

broadcast use vstd::std_specs::hash::group_hash_axioms;

/// A joined row: the cells of each scan.
pub type RowView = Seq<Seq<CellView>>;

// ---------------------------------------------------------------------------
// Rows into partial states
// ---------------------------------------------------------------------------

/// The aggregates of an output list, in order.
pub open spec fn aggs_of(output: Seq<OutExpr>) -> Seq<(AggFn, usize, usize)>
    decreases output.len(),
{
    if output.len() == 0 {
        Seq::empty()
    } else {
        let a = aggs_of(output.drop_last());
        match output.last() {
            OutExpr::Agg(f, s, p) => a.push((f, s, p)),
            OutExpr::Col(_, _) => a,
        }
    }
}

/// The group a row belongs to.
pub open spec fn key_of(group_by: Seq<(usize, usize)>, row: RowView) -> Seq<CellView> {
    Seq::new(group_by.len(), |i: int| row[group_by[i].0 as int][group_by[i].1 as int])
}

/// An accumulator after a row. The position past all others counts rows, and
/// so does a text.
pub open spec fn acc_step(a: Acc, agg: (AggFn, usize, usize), row: RowView) -> Acc {
    if agg.2 == usize::MAX {
        a.counted()
    } else {
        match row[agg.1 as int][agg.2 as int] {
            CellView::I(v) => a.added(v),
            CellView::S(_) => a.counted(),
        }
    }
}

pub open spec fn accs_step(accs: Seq<Acc>, aggs: Seq<(AggFn, usize, usize)>, row: RowView) -> Seq<
    Acc,
> {
    Seq::new(accs.len(), |i: int| acc_step(accs[i], aggs[i], row))
}

pub open spec fn no_accs(n: nat) -> Seq<Acc> {
    Seq::new(n, |i: int| Acc::empty())
}

/// The values of a row where nothing is aggregated.
pub open spec fn plain_row(output: Seq<OutExpr>, row: RowView) -> Seq<ValView> {
    Seq::new(
        output.len(),
        |i: int|
            match output[i] {
                OutExpr::Col(s, p) => as_val(row[s as int][p as int]),
                OutExpr::Agg(_, _, _) => ValView::I(0),
            },
    )
}

/// Groups after a row.
pub open spec fn grouped(
    g: Seq<GroupView>,
    aggs: Seq<(AggFn, usize, usize)>,
    key: Seq<CellView>,
    row: RowView,
) -> Seq<GroupView> {
    let i = group_at(g, key) as int;
    if i < g.len() {
        g.update(i, GroupView { key: g[i].key, accs: accs_step(g[i].accs, aggs, row) })
    } else {
        g.push(GroupView { key, accs: accs_step(no_accs(aggs.len()), aggs, row) })
    }
}

/// A partial state after a row.
pub open spec fn fed(
    output: Seq<OutExpr>,
    group_by: Seq<(usize, usize)>,
    p: PartialView,
    row: RowView,
) -> PartialView {
    let aggs = aggs_of(output);
    if aggs.len() > 0 {
        PartialView { groups: grouped(p.groups, aggs, key_of(group_by, row), row), ..p }
    } else {
        PartialView { rows: p.rows.push(plain_row(output, row)), ..p }
    }
}

/// A partial state after rows in order.
pub open spec fn fed_all(
    output: Seq<OutExpr>,
    group_by: Seq<(usize, usize)>,
    p: PartialView,
    rows: Seq<RowView>,
) -> PartialView
    decreases rows.len(),
{
    if rows.len() == 0 {
        p
    } else {
        fed(output, group_by, fed_all(output, group_by, p, rows.drop_last()), rows.last())
    }
}

/// Whether a row has every cell that the output and the groups name.
pub open spec fn row_ok(
    output: Seq<OutExpr>,
    group_by: Seq<(usize, usize)>,
    row: RowView,
) -> bool {
    &&& forall|i: int|
        0 <= i < output.len() ==> match #[trigger] output[i] {
            OutExpr::Col(s, p) => s < row.len() && p < row[s as int].len(),
            OutExpr::Agg(_, s, p) => p == usize::MAX || (s < row.len() && p < row[s as int].len()),
        }
    &&& forall|i: int|
        0 <= i < group_by.len() ==> (#[trigger] group_by[i]).0 < row.len() && group_by[i].1
            < row[group_by[i].0 as int].len()
}

/// Whether every row has them.
pub open spec fn rows_ok(
    output: Seq<OutExpr>,
    group_by: Seq<(usize, usize)>,
    rows: Seq<RowView>,
) -> bool {
    forall|i: int| 0 <= i < rows.len() ==> row_ok(output, group_by, #[trigger] rows[i])
}

/// Whether every group has an accumulator per aggregate.
pub open spec fn partial_ok(output: Seq<OutExpr>, p: PartialView) -> bool {
    forall|i: int|
        0 <= i < p.groups.len() ==> (#[trigger] p.groups[i]).accs.len() == aggs_of(output).len()
}

proof fn fed_ok(
    output: Seq<OutExpr>,
    group_by: Seq<(usize, usize)>,
    p: PartialView,
    row: RowView,
)
    requires
        partial_ok(output, p),
    ensures
        partial_ok(output, fed(output, group_by, p, row)),
{
    let q = fed(output, group_by, p, row);
    assert forall|i: int| 0 <= i < q.groups.len() implies (#[trigger] q.groups[i]).accs.len()
        == aggs_of(output).len() by {
        if i < p.groups.len() {
            assert(p.groups[i].accs.len() == aggs_of(output).len());
        }
    }
}

/// Feeding keeps an accumulator per aggregate in every group.
pub proof fn fed_all_ok(
    output: Seq<OutExpr>,
    group_by: Seq<(usize, usize)>,
    p: PartialView,
    rows: Seq<RowView>,
)
    requires
        partial_ok(output, p),
    ensures
        partial_ok(output, fed_all(output, group_by, p, rows)),
    decreases rows.len(),
{
    if rows.len() > 0 {
        fed_all_ok(output, group_by, p, rows.drop_last());
        fed_ok(output, group_by, fed_all(output, group_by, p, rows.drop_last()), rows.last());
    }
}

/// The aggregates of an output list.
pub fn collect_aggs(output: &Vec<OutExpr>) -> (r: Vec<(AggFn, usize, usize)>)
    ensures
        r@ == aggs_of(output@),
{
    let mut out: Vec<(AggFn, usize, usize)> = Vec::new();
    let mut k: usize = 0;
    assert(output@.take(0) =~= Seq::<OutExpr>::empty());
    while k < output.len()
        invariant
            k <= output@.len(),
            out@ == aggs_of(output@.take(k as int)),
        decreases output@.len() - k,
    {
        assert(output@.take(k + 1).drop_last() =~= output@.take(k as int));
        if let OutExpr::Agg(f, s, p) = output[k] {
            out.push((f, s, p));
        }
        k += 1;
    }
    assert(output@.take(k as int) =~= output@);
    out
}

/// The slots of aggregates are among those of the output.
proof fn agg_slots(output: Seq<OutExpr>, i: int)
    requires
        0 <= i < aggs_of(output).len(),
    ensures
        exists|k: int|
            0 <= k < output.len() && #[trigger] output[k] == OutExpr::Agg(
                aggs_of(output)[i].0,
                aggs_of(output)[i].1,
                aggs_of(output)[i].2,
            ),
    decreases output.len(),
{
    if output.len() > 0 {
        let d = output.drop_last();
        if i < aggs_of(d).len() {
            agg_slots(d, i);
            let k = choose|k: int|
                0 <= k < d.len() && #[trigger] d[k] == OutExpr::Agg(
                    aggs_of(d)[i].0,
                    aggs_of(d)[i].1,
                    aggs_of(d)[i].2,
                );
            assert(output[k] == d[k]);
        } else {
            assert(output[output.len() - 1] == output.last());
        }
    }
}

fn step_accs(
    accs: &mut Vec<Acc>,
    output: &Vec<OutExpr>,
    aggs: &Vec<(AggFn, usize, usize)>,
    group_by: &Vec<(usize, usize)>,
    row: &Vec<Vec<Cell>>,
)
    requires
        aggs@ == aggs_of(output@),
        old(accs)@.len() == aggs@.len(),
        row_ok(output@, group_by@, cell_rows(row@)),
    ensures
        final(accs)@ == accs_step(old(accs)@, aggs@, cell_rows(row@)),
{
    let ghost rv = cell_rows(row@);
    let mut k: usize = 0;
    while k < aggs.len()
        invariant
            k <= aggs@.len(),
            accs@.len() == aggs@.len(),
            old(accs)@.len() == aggs@.len(),
            aggs@ == aggs_of(output@),
            rv == cell_rows(row@),
            row_ok(output@, group_by@, rv),
            forall|i: int|
                0 <= i < k ==> accs@[i] == acc_step(old(accs)@[i], aggs@[i], rv),
            forall|i: int| k <= i < accs@.len() ==> accs@[i] == old(accs)@[i],
        decreases aggs@.len() - k,
    {
        let (_, s, p): (AggFn, usize, usize) = aggs[k];
        let mut a: Acc = accs[k];
        if p == usize::MAX {
            a.add_count_only();
        } else {
            proof {
                agg_slots(output@, k as int);
                let j = choose|j: int|
                    0 <= j < output@.len() && #[trigger] output@[j] == OutExpr::Agg(
                        aggs@[k as int].0,
                        aggs@[k as int].1,
                        aggs@[k as int].2,
                    );
                assert(s < rv.len() && p < rv[s as int].len());
                assert(rv[s as int][p as int] == row@[s as int]@[p as int]@);
            }
            match &row[s][p] {
                Cell::I(v) => {
                    a.add_value(*v);
                },
                Cell::S(_) => {
                    a.add_count_only();
                },
            }
        }
        accs.set(k, a);
        k += 1;
    }
    assert(accs@ =~= accs_step(old(accs)@, aggs@, rv));
}

/// Feeds one joined row into a partial state.
pub fn consume_row(
    output: &Vec<OutExpr>,
    group_by: &Vec<(usize, usize)>,
    aggs: &Vec<(AggFn, usize, usize)>,
    part: &mut Partial,
    row: &Vec<Vec<Cell>>,
)
    requires
        aggs@ == aggs_of(output@),
        row_ok(output@, group_by@, cell_rows(row@)),
        partial_ok(output@, old(part)@),
    ensures
        final(part)@ == fed(output@, group_by@, old(part)@, cell_rows(row@)),
        partial_ok(output@, final(part)@),
{
    let ghost rv = cell_rows(row@);
    proof {
        fed_ok(output@, group_by@, part@, rv);
    }
    if aggs.len() > 0 {
        let mut key: Vec<Cell> = Vec::new();
        let mut k: usize = 0;
        while k < group_by.len()
            invariant
                k <= group_by@.len(),
                rv == cell_rows(row@),
                row_ok(output@, group_by@, rv),
                key@.len() == k,
                forall|i: int| 0 <= i < k ==> (#[trigger] key@[i])@ == key_of(group_by@, rv)[i],
            decreases group_by@.len() - k,
        {
            let (s, p): (usize, usize) = group_by[k];
            assert(group_by@[k as int].0 < rv.len());
            assert(rv[s as int][p as int] == row@[s as int]@[p as int]@);
            key.push(row[s][p].copy());
            k += 1;
        }
        assert(cells(key@) =~= key_of(group_by@, rv));
        let i: usize = find_group(&part.groups, &key);
        let ghost before = part@;
        let ghost gb = part.groups@;
        if i < part.groups.len() {
            assert(before.groups[i as int] == gb[i as int]@);
            step_accs(&mut part.groups[i].accs, output, aggs, group_by, row);
            proof {
                assert(groups(part.groups@) =~= grouped(
                    before.groups,
                    aggs@,
                    key_of(group_by@, rv),
                    rv,
                ));
                assert(part@ =~= fed(output@, group_by@, before, rv));
            }
        } else {
            let n: usize = aggs.len();
            let mut accs: Vec<Acc> = Vec::new();
            let mut c: usize = 0;
            while c < n
                invariant
                    c <= n,
                    accs@ == no_accs(c as nat),
                decreases n - c,
            {
                accs.push(Acc::new());
                c += 1;
                assert(accs@ =~= no_accs(c as nat));
            }
            step_accs(&mut accs, output, aggs, group_by, row);
            let g: Group = Group { key, accs };
            part.groups.push(g);
            proof {
                assert(groups(part.groups@) =~= before.groups.push(g@));
                assert(part@ =~= fed(output@, group_by@, before, rv));
            }
        }
    } else {
        let mut out: Vec<Val> = Vec::new();
        let mut k: usize = 0;
        while k < output.len()
            invariant
                k <= output@.len(),
                rv == cell_rows(row@),
                row_ok(output@, group_by@, rv),
                out@.len() == k,
                forall|i: int| 0 <= i < k ==> (#[trigger] out@[i])@ == plain_row(output@, rv)[i],
            decreases output@.len() - k,
        {
            match output[k] {
                OutExpr::Col(s, p) => {
                    assert(output@[k as int] == OutExpr::Col(s, p));
                    assert(rv[s as int][p as int] == row@[s as int]@[p as int]@);
                    out.push(cell_val(&row[s][p]));
                },
                OutExpr::Agg(_, _, _) => {
                    out.push(Val::I(0));
                },
            }
            k += 1;
        }
        let ghost before = part@;
        assert(vals(out@) =~= plain_row(output@, rv));
        part.rows.push(out);
        proof {
            assert(val_rows(part.rows@) =~= before.rows.push(vals(out@)));
            assert(part@ =~= fed(output@, group_by@, before, rv));
        }
    }
}

/// A scan's rows as joined rows of one scan.
pub open spec fn single(rows: Seq<Seq<CellView>>) -> Seq<RowView> {
    Seq::new(rows.len(), |i: int| seq![rows[i]])
}

/// Feeds the rows of a scan that nothing is joined to.
pub fn consume_scan(
    output: &Vec<OutExpr>,
    group_by: &Vec<(usize, usize)>,
    aggs: &Vec<(AggFn, usize, usize)>,
    part: &mut Partial,
    rows: &Vec<Vec<Cell>>,
)
    requires
        aggs@ == aggs_of(output@),
        rows_ok(output@, group_by@, single(cell_rows(rows@))),
        partial_ok(output@, old(part)@),
    ensures
        final(part)@ == (PartialView {
            scanned_rows: old(part).scanned_rows.wrapping_add(rows@.len() as u64),
            ..fed_all(output@, group_by@, old(part)@, single(cell_rows(rows@)))
        }),
        partial_ok(output@, final(part)@),
{
    let ghost all = single(cell_rows(rows@));
    let mut k: usize = 0;
    assert(all.take(0) =~= Seq::<RowView>::empty());
    while k < rows.len()
        invariant
            k <= rows@.len(),
            aggs@ == aggs_of(output@),
            all == single(cell_rows(rows@)),
            rows_ok(output@, group_by@, all),
            partial_ok(output@, part@),
            part@ == fed_all(output@, group_by@, old(part)@, all.take(k as int)),
        decreases rows@.len() - k,
    {
        let mut row: Vec<Vec<Cell>> = Vec::new();
        row.push(copy_cells(&rows[k]));
        proof {
            assert(cell_rows(row@) =~= all[k as int]);
            assert(row_ok(output@, group_by@, all[k as int]));
            assert(all.take(k + 1).drop_last() =~= all.take(k as int));
            assert(all.take(k + 1).last() == all[k as int]);
        }
        consume_row(output, group_by, aggs, part, &row);
        k += 1;
    }
    assert(all.take(k as int) =~= all);
    proof {
        fed_all_keeps_counts(output@, group_by@, old(part)@, all);
    }
    part.scanned_rows = part.scanned_rows.wrapping_add(rows.len() as u64);
}

/// Feeding leaves the row counters alone.
pub proof fn fed_all_keeps_counts(
    output: Seq<OutExpr>,
    group_by: Seq<(usize, usize)>,
    p: PartialView,
    rows: Seq<RowView>,
)
    ensures
        fed_all(output, group_by, p, rows).scanned_rows == p.scanned_rows,
        fed_all(output, group_by, p, rows).joined_rows == p.joined_rows,
    decreases rows.len(),
{
    if rows.len() > 0 {
        fed_all_keeps_counts(output, group_by, p, rows.drop_last());
    }
}

} // verus!
