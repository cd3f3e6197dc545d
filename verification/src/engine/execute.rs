//! Running a plan over the rows of its scans.
use crate::engine::finish::{
    find_place, finish, group_place, groups_fit, output_grouped, result_rows,
};
use crate::engine::join::{
    build_table, counted, has_col, indexes, join_ok, join_partition, joined, joined_into,
    joined_prefix, matches_bound, matches_of, paired, pairs_at, part_rows, partition_rows, probed,
};
use crate::engine::laws::shuffle_joins_as_broadcast;
use crate::engine::pipeline::{
    aggs_of, collect_aggs, consume_scan, fed, fed_all, fed_all_keeps_counts, partial_ok, row_ok,
    rows_ok, single, RowView,
};
use crate::engine::scan::{
    batch_rows, check_scan, rows_of, scan_fits, scan_rowgroup, scanned, scanned_batch_is_full,
};
use crate::engine::values::{
    cell_rows, cells, groups, val_rows, Cell, CellView, Partial, PartialView, Val,
};
use crate::format::meta::{rowgroup_views, RowGroupView};
use crate::format::reader::{Counters, Reader};
use crate::plan::ast::AggFn;
use crate::plan::physical::{JoinNode, JoinStrategy, OutExpr, PhysicalPlan, ScanNode, ScanView};
use std::collections::HashMap;
use vstd::prelude::*;

verus! {

broadcast use vstd::std_specs::hash::group_hash_axioms;

// ---------------------------------------------------------------------------
// Scanning whole files
// ---------------------------------------------------------------------------

/// The rows of one row group that pass a scan, and the counters afterwards.
/// Nothing where the scan does not fit the row group or a page is not sound.
pub open spec fn group_rows(file: Seq<u8>, rg: RowGroupView, scan: ScanView, c: Counters) -> Option<
    (Seq<Seq<CellView>>, Counters),
> {
    if !scan_fits(rg, scan) {
        None
    } else {
        match scanned(file, rg, scan, c) {
            None => None,
            Some((None, c)) => Some((Seq::empty(), c)),
            Some((Some(b), c)) => Some((rows_of(b), c)),
        }
    }
}

/// The rows of the row groups of one file.
pub open spec fn file_rows(
    file: Seq<u8>,
    rgs: Seq<RowGroupView>,
    scan: ScanView,
    c: Counters,
) -> Option<(Seq<Seq<CellView>>, Counters)>
    decreases rgs.len(),
{
    if rgs.len() == 0 {
        Some((Seq::empty(), c))
    } else {
        match file_rows(file, rgs.drop_last(), scan, c) {
            None => None,
            Some((rows, c)) => match group_rows(file, rgs.last(), scan, c) {
                None => None,
                Some((more, c)) => Some((rows + more, c)),
            },
        }
    }
}

#[verifier::ext_equal]
pub struct ReaderView {
    pub file: Seq<u8>,
    pub rowgroups: Seq<RowGroupView>,
    pub counters: Counters,
}

pub open spec fn reader_view(r: Reader) -> ReaderView {
    ReaderView {
        file: r.file@,
        rowgroups: rowgroup_views(r.meta.rowgroups@),
        counters: r.counters,
    }
}

pub open spec fn reader_views(v: Seq<Reader>) -> Seq<ReaderView> {
    Seq::new(v.len(), |i: int| reader_view(v[i]))
}

/// The rows of all files of a scan, in order.
pub open spec fn scan_rows(readers: Seq<ReaderView>, scan: ScanView) -> Option<
    Seq<Seq<CellView>>,
>
    decreases readers.len(),
{
    if readers.len() == 0 {
        Some(Seq::empty())
    } else {
        match scan_rows(readers.drop_last(), scan) {
            None => None,
            Some(rows) => {
                let r = readers.last();
                match file_rows(r.file, r.rowgroups, scan, r.counters) {
                    None => None,
                    Some((more, _)) => Some(rows + more),
                }
            },
        }
    }
}

proof fn file_rows_fails(
    file: Seq<u8>,
    rgs: Seq<RowGroupView>,
    scan: ScanView,
    c: Counters,
    k: int,
)
    requires
        0 <= k <= rgs.len(),
        file_rows(file, rgs.take(k), scan, c) is None,
    ensures
        file_rows(file, rgs, scan, c) is None,
    decreases rgs.len(),
{
    if k == rgs.len() {
        assert(rgs.take(k) =~= rgs);
    } else {
        assert(rgs.drop_last().take(k) =~= rgs.take(k));
        file_rows_fails(file, rgs.drop_last(), scan, c, k);
    }
}

proof fn scan_rows_fails(readers: Seq<ReaderView>, scan: ScanView, k: int)
    requires
        0 <= k <= readers.len(),
        scan_rows(readers.take(k), scan) is None,
    ensures
        scan_rows(readers, scan) is None,
    decreases readers.len(),
{
    if k == readers.len() {
        assert(readers.take(k) =~= readers);
    } else {
        assert(readers.drop_last().take(k) =~= readers.take(k));
        scan_rows_fails(readers.drop_last(), scan, k);
    }
}

/// Scans one row group into rows.
pub fn scan_group(r: &mut Reader, scan: &ScanNode, rg: usize) -> (rows: Option<Vec<Vec<Cell>>>)
    requires
        rg < old(r).meta.rowgroups@.len(),
    ensures
        final(r).file == old(r).file,
        final(r).meta == old(r).meta,
        match group_rows(
            old(r).file@,
            old(r).meta.rowgroups@[rg as int]@,
            scan@,
            old(r).counters,
        ) {
            None => rows is None,
            Some((v, c)) => rows is Some && cell_rows(rows->0@) == v && final(r).counters == c,
        },
{
    if !check_scan(&r.meta.rowgroups[rg], scan) {
        return None;
    }
    match scan_rowgroup(r, scan, rg) {
        None => None,
        Some(None) => {
            let none: Vec<Vec<Cell>> = Vec::new();
            assert(cell_rows(none@) =~= Seq::<Seq<CellView>>::empty());
            Some(none)
        },
        Some(Some(b)) => {
            proof {
                scanned_batch_is_full(
                    old(r).file@,
                    old(r).meta.rowgroups@[rg as int]@,
                    scan@,
                    old(r).counters,
                    b@,
                    r.counters,
                );
                assert forall|c: int| 0 <= c < b.cols@.len() implies (#[trigger] b.cols@[c])@.len()
                    >= b.rows by {
                    assert(b@.cols[c].len() == b@.rows);
                }
            }
            Some(batch_rows(&b))
        },
    }
}

fn scan_file(r: &mut Reader, scan: &ScanNode) -> (rows: Option<Vec<Vec<Cell>>>)
    ensures
        match file_rows(
            old(r).file@,
            rowgroup_views(old(r).meta.rowgroups@),
            scan@,
            old(r).counters,
        ) {
            None => rows is None,
            Some((v, c)) => rows is Some && cell_rows(rows->0@) == v,
        },
{
    let ghost file = r.file@;
    let ghost gv = rowgroup_views(r.meta.rowgroups@);
    let ghost c0 = r.counters;
    let mut out: Vec<Vec<Cell>> = Vec::new();
    let mut k: usize = 0;
    assert(gv.take(0) =~= Seq::<RowGroupView>::empty());
    assert(cell_rows(out@) =~= Seq::<Seq<CellView>>::empty());
    while k < r.meta.rowgroups.len()
        invariant
            k <= r.meta.rowgroups@.len(),
            r.file == old(r).file,
            r.meta == old(r).meta,
            file == r.file@,
            gv == rowgroup_views(r.meta.rowgroups@),
            c0 == old(r).counters,
            file_rows(file, gv.take(k as int), scan@, c0) == Some((cell_rows(out@), r.counters)),
        decreases r.meta.rowgroups@.len() - k,
    {
        proof {
            assert(gv.take(k + 1).drop_last() =~= gv.take(k as int));
            assert(gv.take(k + 1).last() == r.meta.rowgroups@[k as int]@);
            if file_rows(file, gv.take(k + 1), scan@, c0) is None {
                file_rows_fails(file, gv, scan@, c0, k + 1);
            }
        }
        let ghost before = out@;
        let mut more: Vec<Vec<Cell>> = match scan_group(r, scan, k) {
            Some(v) => v,
            None => {
                return None;
            },
        };
        let ghost mv = more@;
        out.append(&mut more);
        assert(cell_rows(out@) =~= cell_rows(before) + cell_rows(mv));
        k += 1;
    }
    assert(gv.take(k as int) =~= gv);
    Some(out)
}

/// Scans all files of one side into rows of its projected columns.
pub fn scan_all(readers: &mut Vec<Reader>, scan: &ScanNode) -> (rows: Option<Vec<Vec<Cell>>>)
    ensures
        match scan_rows(reader_views(old(readers)@), scan@) {
            None => rows is None,
            Some(v) => rows is Some && cell_rows(rows->0@) == v,
        },
{
    let ghost rv = reader_views(readers@);
    let ghost start = readers@;
    let mut out: Vec<Vec<Cell>> = Vec::new();
    let mut k: usize = 0;
    assert(rv.take(0) =~= Seq::<ReaderView>::empty());
    assert(cell_rows(out@) =~= Seq::<Seq<CellView>>::empty());
    while k < readers.len()
        invariant
            k <= readers@.len(),
            readers@.len() == start.len(),
            start == old(readers)@,
            rv == reader_views(start),
            forall|i: int| k <= i < start.len() ==> readers@[i] == start[i],
            scan_rows(rv.take(k as int), scan@) == Some(cell_rows(out@)),
        decreases readers@.len() - k,
    {
        proof {
            assert(rv.take(k + 1).drop_last() =~= rv.take(k as int));
            assert(rv.take(k + 1).last() == reader_view(start[k as int]));
            assert(readers@[k as int] == start[k as int]);
            if scan_rows(rv.take(k + 1), scan@) is None {
                scan_rows_fails(rv, scan@, k + 1);
            }
        }
        let ghost before = out@;
        let mut more: Vec<Vec<Cell>> = match scan_file(&mut readers[k], scan) {
            Some(v) => v,
            None => {
                return None;
            },
        };
        let ghost mv = more@;
        out.append(&mut more);
        assert(cell_rows(out@) =~= cell_rows(before) + cell_rows(mv));
        k += 1;
    }
    assert(rv.take(k as int) =~= rv);
    Some(out)
}

// ---------------------------------------------------------------------------
// Running a plan
// ---------------------------------------------------------------------------

/// How many local threads run a query, and after how many milliseconds each
/// further worker joins in.
#[derive(Clone, Debug)]
pub struct EngineOpts {
    pub local_threads: usize,
    pub worker_join_ms: Vec<u64>,
}

impl Default for EngineOpts {
    fn default() -> (o: EngineOpts)
        ensures
            o.local_threads == 1,
            o.worker_join_ms@.len() == 0,
    {
        EngineOpts { local_threads: 1, worker_join_ms: Vec::new() }
    }
}

/// The result of a query before it is ordered.
#[derive(Debug)]
pub struct QueryResult {
    pub rows: Vec<Vec<Val>>,
    pub scanned_rows: u64,
    pub joined_rows: u64,
}

pub open spec fn nothing() -> PartialView {
    PartialView { groups: Seq::empty(), rows: Seq::empty(), joined_rows: 0, scanned_rows: 0 }
}

/// The rows of a shuffled join: those of each partition, one after another.
pub open spec fn shuffled(
    nscans: nat,
    j: JoinNode,
    build: Seq<Seq<CellView>>,
    probe: Seq<Seq<CellView>>,
    parts: int,
    upto: nat,
) -> Seq<RowView>
    decreases upto,
{
    if upto == 0 {
        Seq::empty()
    } else {
        shuffled(nscans, j, build, probe, parts, (upto - 1) as nat) + joined(
            nscans,
            j,
            part_rows(build, j.build_key as int, parts, upto - 1),
            part_rows(probe, j.probe_key as int, parts, upto - 1),
        )
    }
}

/// The joined rows of a plan, in the order in which they are consumed.
pub open spec fn plan_rows(
    join: Option<JoinNode>,
    nscans: nat,
    tables: Seq<Seq<Seq<CellView>>>,
) -> Seq<RowView> {
    match join {
        None => single(tables[0]),
        Some(j) => {
            let build = tables[j.build as int];
            let probe = tables[j.probe as int];
            match j.strategy {
                JoinStrategy::Broadcast => joined(nscans, j, build, probe),
                JoinStrategy::Shuffle { partitions } => shuffled(
                    nscans,
                    j,
                    build,
                    probe,
                    partitions as int,
                    partitions as nat,
                ),
            }
        },
    }
}

/// How many rows count as scanned. A broadcast build side does not.
pub open spec fn plan_scanned(join: Option<JoinNode>, tables: Seq<Seq<Seq<CellView>>>) -> u64 {
    match join {
        None => 0u64.wrapping_add(tables[0].len() as u64),
        Some(j) => match j.strategy {
            JoinStrategy::Broadcast => 0u64.wrapping_add(tables[j.probe as int].len() as u64),
            JoinStrategy::Shuffle { partitions } => 0u64.wrapping_add(
                tables[j.build as int].len() as u64,
            ).wrapping_add(tables[j.probe as int].len() as u64),
        },
    }
}

/// The state of a plan after all its rows.
pub open spec fn executed(
    output: Seq<OutExpr>,
    group_by: Seq<(usize, usize)>,
    join: Option<JoinNode>,
    nscans: nat,
    tables: Seq<Seq<Seq<CellView>>>,
) -> PartialView {
    let rows = plan_rows(join, nscans, tables);
    PartialView {
        scanned_rows: plan_scanned(join, tables),
        joined_rows: if join is Some { counted(0, rows.len()) } else { 0 },
        ..fed_all(output, group_by, nothing(), rows)
    }
}

pub open spec fn table_views(t: Seq<Vec<Vec<Cell>>>) -> Seq<Seq<Seq<CellView>>> {
    Seq::new(t.len(), |i: int| cell_rows(t[i]@))
}

/// Whether integers stand in a column.
pub open spec fn int_col(rows: Seq<Seq<CellView>>, pos: int) -> bool {
    has_col(rows, pos) && forall|i: int| 0 <= i < rows.len() ==> (#[trigger] rows[i])[pos] is I
}

/// Whether the two sides of a join have their keys. A shuffled build side is
/// split by integers; a broadcast one may hold other cells, which match nothing.
pub open spec fn keys_fit(
    j: JoinNode,
    build: Seq<Seq<CellView>>,
    probe: Seq<Seq<CellView>>,
) -> bool {
    &&& int_col(probe, j.probe_key as int)
    &&& match j.strategy {
        JoinStrategy::Broadcast => has_col(build, j.build_key as int),
        JoinStrategy::Shuffle { partitions } => int_col(build, j.build_key as int) && 0
            < partitions <= i64::MAX,
    }
}

/// Whether a plan can run over some tables: join keys are integers, every cell
/// that it names is there in every row that comes out of the join, and where
/// there is such a row the plain output columns of an aggregate are grouped by.
pub open spec fn runs(
    output: Seq<OutExpr>,
    group_by: Seq<(usize, usize)>,
    join: Option<JoinNode>,
    nscans: nat,
    tables: Seq<Seq<Seq<CellView>>>,
) -> bool {
    let rows = plan_rows(join, nscans, tables);
    &&& tables.len() == nscans
    &&& match join {
        None => nscans >= 1,
        Some(j) => j.build < nscans && j.probe < nscans && keys_fit(
            j,
            tables[j.build as int],
            tables[j.probe as int],
        ),
    }
    &&& rows_ok(output, group_by, rows)
    &&& aggs_of(output).len() > 0 && rows.len() > 0 ==> output_grouped(output, group_by)
}

/// The join rows of the first partitions come first.
proof fn shuffled_prefix(
    nscans: nat,
    j: JoinNode,
    build: Seq<Seq<CellView>>,
    probe: Seq<Seq<CellView>>,
    parts: int,
    k: nat,
    upto: nat,
)
    requires
        k <= upto,
    ensures
        shuffled(nscans, j, build, probe, parts, k).len() <= shuffled(
            nscans,
            j,
            build,
            probe,
            parts,
            upto,
        ).len(),
        forall|i: int|
            0 <= i < shuffled(nscans, j, build, probe, parts, k).len() ==> (#[trigger] shuffled(
                nscans,
                j,
                build,
                probe,
                parts,
                upto,
            )[i]) == shuffled(nscans, j, build, probe, parts, k)[i],
    decreases upto - k,
{
    if k < upto {
        shuffled_prefix(nscans, j, build, probe, parts, k, (upto - 1) as nat);
        let a = shuffled(nscans, j, build, probe, parts, (upto - 1) as nat);
        assert forall|i: int| 0 <= i < shuffled(
            nscans,
            j,
            build,
            probe,
            parts,
            k,
        ).len() implies (#[trigger] shuffled(nscans, j, build, probe, parts, upto)[i]) == shuffled(
            nscans,
            j,
            build,
            probe,
            parts,
            k,
        )[i] by {
            assert(a[i] == shuffled(nscans, j, build, probe, parts, k)[i]);
        }
    }
}

proof fn part_rows_from(rows: Seq<Seq<CellView>>, pos: int, n: int, p: int)
    ensures
        forall|i: int|
            0 <= i < part_rows(rows, pos, n, p).len() ==> rows.contains(
                #[trigger] part_rows(rows, pos, n, p)[i],
            ),
    decreases rows.len(),
{
    if rows.len() > 0 {
        let d = rows.drop_last();
        part_rows_from(d, pos, n, p);
        let m = part_rows(rows, pos, n, p);
        assert forall|i: int| 0 <= i < m.len() implies rows.contains(#[trigger] m[i]) by {
            if i < part_rows(d, pos, n, p).len() {
                assert(m[i] == part_rows(d, pos, n, p)[i]);
                assert(d.contains(m[i]));
                let k = choose|k: int| 0 <= k < d.len() && d[k] == m[i];
                assert(rows[k] == m[i]);
            } else {
                assert(rows[rows.len() - 1] == m[i]);
            }
        }
    }
}

/// A partition of a join that can run can run.
proof fn partition_join_ok(
    output: Seq<OutExpr>,
    group_by: Seq<(usize, usize)>,
    nscans: nat,
    j: JoinNode,
    build: Seq<Seq<CellView>>,
    probe: Seq<Seq<CellView>>,
    n: nat,
    p: nat,
)
    requires
        j.build < nscans,
        j.probe < nscans,
        has_col(build, j.build_key as int),
        has_col(probe, j.probe_key as int),
        rows_ok(output, group_by, shuffled(nscans, j, build, probe, n as int, n)),
        p < n,
    ensures
        join_ok(
            output,
            group_by,
            nscans,
            j,
            part_rows(build, j.build_key as int, n as int, p as int),
            part_rows(probe, j.probe_key as int, n as int, p as int),
        ),
{
    let b = part_rows(build, j.build_key as int, n as int, p as int);
    let q = part_rows(probe, j.probe_key as int, n as int, p as int);
    part_rows_from(build, j.build_key as int, n as int, p as int);
    part_rows_from(probe, j.probe_key as int, n as int, p as int);
    assert forall|i: int| 0 <= i < b.len() implies j.build_key < (#[trigger] b[i]).len() by {
        assert(build.contains(b[i]));
        let k = choose|k: int| 0 <= k < build.len() && build[k] == b[i];
        assert(j.build_key < build[k].len());
    }
    assert forall|i: int| 0 <= i < q.len() implies j.probe_key < (#[trigger] q[i]).len() by {
        assert(probe.contains(q[i]));
        let k = choose|k: int| 0 <= k < probe.len() && probe[k] == q[i];
        assert(j.probe_key < probe[k].len());
    }
    shuffled_prefix(nscans, j, build, probe, n as int, p + 1, n);
    let whole = shuffled(nscans, j, build, probe, n as int, n);
    let before = shuffled(nscans, j, build, probe, n as int, p);
    let rows = joined(nscans, j, b, q);
    assert(shuffled(nscans, j, build, probe, n as int, p + 1) == before + rows);
    assert forall|i: int| 0 <= i < rows.len() implies row_ok(
        output,
        group_by,
        #[trigger] rows[i],
    ) by {
        assert((before + rows)[before.len() + i] == rows[i]);
        assert(whole[before.len() + i] == rows[i]);
    }
}

proof fn joined_into_concat(
    output: Seq<OutExpr>,
    group_by: Seq<(usize, usize)>,
    p: PartialView,
    a: Seq<RowView>,
    b: Seq<RowView>,
)
    ensures
        joined_into(output, group_by, joined_into(output, group_by, p, a), b) == joined_into(
            output,
            group_by,
            p,
            a + b,
        ),
    decreases b.len(),
{
    fed_all_keeps_counts(output, group_by, p, a);
    if b.len() == 0 {
        assert(a + b =~= a);
    } else {
        let d = b.drop_last();
        joined_into_concat(output, group_by, p, a, d);
        assert((a + b).drop_last() =~= a + d);
        let q = joined_into(output, group_by, p, a);
        fed_all_keeps_counts(output, group_by, q, d);
        fed_all_keeps_counts(output, group_by, q, b);
        fed_all_keeps_counts(output, group_by, p, a + d);
        fed_all_keeps_counts(output, group_by, p, a + b);
    }
}

/// Every group's key has a cell per grouping column.
proof fn fed_keys(
    output: Seq<OutExpr>,
    group_by: Seq<(usize, usize)>,
    rows: Seq<RowView>,
)
    ensures
        groups_fit(output, group_by, fed_all(output, group_by, nothing(), rows).groups),
    decreases rows.len(),
{
    if rows.len() > 0 {
        fed_keys(output, group_by, rows.drop_last());
        let p = fed_all(output, group_by, nothing(), rows.drop_last());
        let q = fed(output, group_by, p, rows.last());
        assert forall|i: int| 0 <= i < q.groups.len() implies (#[trigger] q.groups[i]).key.len()
            == group_by.len() && q.groups[i].accs.len() == aggs_of(output).len() by {
            if i < p.groups.len() {
                assert(p.groups[i].key.len() == group_by.len());
            }
        }
    }
}

/// Runs a plan over the rows of its scans. The rows of the result are not yet
/// in the order asked for.
pub fn execute(plan: &PhysicalPlan, tables: &Vec<Vec<Vec<Cell>>>) -> (r: QueryResult)
    requires
        runs(
            plan.output@,
            plan.group_by@,
            plan.join,
            plan.scans@.len(),
            table_views(tables@),
        ),
    ensures
        ({
            let p = executed(
                plan.output@,
                plan.group_by@,
                plan.join,
                plan.scans@.len(),
                table_views(tables@),
            );
            &&& val_rows(r.rows@) == result_rows(plan.output@, plan.group_by@, p)
            &&& r.scanned_rows == p.scanned_rows
            &&& r.joined_rows == p.joined_rows
        }),
{
    let ghost out = plan.output@;
    let ghost gb = plan.group_by@;
    let ghost tv = table_views(tables@);
    let ghost ns = plan.scans@.len();
    let ghost all = plan_rows(plan.join, ns, tv);
    let aggs: Vec<(AggFn, usize, usize)> = collect_aggs(&plan.output);
    let mut part: Partial = Partial::new();
    match &plan.join {
        None => {
            assert(tv[0] == cell_rows(tables@[0]@));
            consume_scan(&plan.output, &plan.group_by, &aggs, &mut part, &tables[0]);
            proof {
                fed_all_keeps_counts(out, gb, nothing(), all);
            }
        },
        Some(j) => {
            let build: &Vec<Vec<Cell>> = &tables[j.build];
            let probe: &Vec<Vec<Cell>> = &tables[j.probe];
            let ghost bv = cell_rows(build@);
            let ghost pv = cell_rows(probe@);
            assert(tv[j.build as int] == bv);
            assert(tv[j.probe as int] == pv);
            match j.strategy {
                JoinStrategy::Broadcast => {
                    join_partition(
                        &plan.output,
                        &plan.group_by,
                        &aggs,
                        plan.scans.len(),
                        j,
                        build,
                        probe,
                        &mut part,
                    );
                    proof {
                        fed_all_keeps_counts(out, gb, nothing(), all);
                    }
                    part.scanned_rows = part.scanned_rows.wrapping_add(probe.len() as u64);
                },
                JoinStrategy::Shuffle { partitions } => {
                    let bp: Vec<Vec<Vec<Cell>>> = partition_rows(build, j.build_key, partitions);
                    let pp: Vec<Vec<Vec<Cell>>> = partition_rows(probe, j.probe_key, partitions);
                    let mut k: usize = 0;
                    assert(joined_into(out, gb, nothing(), Seq::<RowView>::empty()) == part@);
                    while k < partitions
                        invariant
                            k <= partitions,
                            out == plan.output@,
                            gb == plan.group_by@,
                            ns == plan.scans@.len(),
                            aggs@ == aggs_of(out),
                            bp@.len() == partitions,
                            pp@.len() == partitions,
                            forall|p: int|
                                0 <= p < partitions ==> cell_rows((#[trigger] bp@[p])@)
                                    == part_rows(bv, j.build_key as int, partitions as int, p),
                            forall|p: int|
                                0 <= p < partitions ==> cell_rows((#[trigger] pp@[p])@)
                                    == part_rows(pv, j.probe_key as int, partitions as int, p),
                            j.build < ns,
                            j.probe < ns,
                            has_col(bv, j.build_key as int),
                            has_col(pv, j.probe_key as int),
                            rows_ok(
                                out,
                                gb,
                                shuffled(ns, *j, bv, pv, partitions as int, partitions as nat),
                            ),
                            partial_ok(out, part@),
                            part@ == joined_into(
                                out,
                                gb,
                                nothing(),
                                shuffled(ns, *j, bv, pv, partitions as int, k as nat),
                            ),
                        decreases partitions - k,
                    {
                        proof {
                            partition_join_ok(
                                out,
                                gb,
                                ns,
                                *j,
                                bv,
                                pv,
                                partitions as nat,
                                k as nat,
                            );
                            assert(cell_rows(bp@[k as int]@) == part_rows(
                                bv,
                                j.build_key as int,
                                partitions as int,
                                k as int,
                            ));
                            assert(cell_rows(pp@[k as int]@) == part_rows(
                                pv,
                                j.probe_key as int,
                                partitions as int,
                                k as int,
                            ));
                            joined_into_concat(
                                out,
                                gb,
                                nothing(),
                                shuffled(ns, *j, bv, pv, partitions as int, k as nat),
                                joined(
                                    ns,
                                    *j,
                                    cell_rows(bp@[k as int]@),
                                    cell_rows(pp@[k as int]@),
                                ),
                            );
                        }
                        join_partition(
                            &plan.output,
                            &plan.group_by,
                            &aggs,
                            plan.scans.len(),
                            j,
                            &bp[k],
                            &pp[k],
                            &mut part,
                        );
                        k += 1;
                    }
                    proof {
                        fed_all_keeps_counts(out, gb, nothing(), all);
                    }
                    part.scanned_rows = part.scanned_rows.wrapping_add(build.len() as u64);
                    part.scanned_rows = part.scanned_rows.wrapping_add(probe.len() as u64);
                },
            }
        },
    }
    proof {
        fed_keys(out, gb, all);
        assert(part@ =~= executed(out, gb, plan.join, ns, tv));
    }
    let scanned_rows: u64 = part.scanned_rows;
    let joined_rows: u64 = part.joined_rows;
    let rows: Vec<Vec<Val>> = finish(&plan.output, &plan.group_by, part);
    QueryResult { rows, scanned_rows, joined_rows }
}

// ---------------------------------------------------------------------------
// Testing a plan
// ---------------------------------------------------------------------------

/// Whether every cell named lies within the widths of the scans.
pub open spec fn within(output: Seq<OutExpr>, group_by: Seq<(usize, usize)>, widths: Seq<usize>) -> bool {
    &&& forall|i: int|
        0 <= i < output.len() ==> match #[trigger] output[i] {
            OutExpr::Col(s, p) => s < widths.len() && p < widths[s as int],
            OutExpr::Agg(_, s, p) => p == usize::MAX || (s < widths.len() && p < widths[s as int]),
        }
    &&& forall|i: int|
        0 <= i < group_by.len() ==> (#[trigger] group_by[i]).0 < widths.len() && group_by[i].1
            < widths[group_by[i].0 as int]
}

/// A row is wide enough for what reads it when its widths are.
proof fn within_ok(
    output: Seq<OutExpr>,
    group_by: Seq<(usize, usize)>,
    widths: Seq<usize>,
    row: RowView,
)
    requires
        within(output, group_by, widths),
        row.len() == widths.len(),
        forall|s: int| 0 <= s < row.len() ==> widths[s] <= (#[trigger] row[s]).len(),
    ensures
        row_ok(output, group_by, row),
{
    assert forall|i: int| 0 <= i < output.len() implies match #[trigger] output[i] {
        OutExpr::Col(s, p) => s < row.len() && p < row[s as int].len(),
        OutExpr::Agg(_, s, p) => p == usize::MAX || (s < row.len() && p < row[s as int].len()),
    } by {
        match output[i] {
            OutExpr::Col(s, p) => assert(widths[s as int] <= row[s as int].len()),
            OutExpr::Agg(_, s, p) => {
                if p != usize::MAX {
                    assert(widths[s as int] <= row[s as int].len());
                }
            },
        }
    }
    assert forall|i: int| 0 <= i < group_by.len() implies (#[trigger] group_by[i]).0 < row.len()
        && group_by[i].1 < row[group_by[i].0 as int].len() by {
        assert(widths[group_by[i].0 as int] <= row[group_by[i].0 as int].len());
    }
}

/// What holds of a row holds of its widths.
proof fn row_within(
    output: Seq<OutExpr>,
    group_by: Seq<(usize, usize)>,
    widths: Seq<usize>,
    row: RowView,
)
    requires
        row_ok(output, group_by, row),
        row.len() == widths.len(),
        forall|s: int| 0 <= s < row.len() ==> widths[s] == (#[trigger] row[s]).len(),
    ensures
        within(output, group_by, widths),
{
    assert forall|i: int| 0 <= i < output.len() implies match #[trigger] output[i] {
        OutExpr::Col(s, p) => s < widths.len() && p < widths[s as int],
        OutExpr::Agg(_, s, p) => p == usize::MAX || (s < widths.len() && p < widths[s as int]),
    } by {
        match output[i] {
            OutExpr::Col(s, p) => assert(widths[s as int] == row[s as int].len()),
            OutExpr::Agg(_, s, p) => {
                if p != usize::MAX {
                    assert(widths[s as int] == row[s as int].len());
                }
            },
        }
    }
    assert forall|i: int| 0 <= i < group_by.len() implies (#[trigger] group_by[i]).0 < widths.len()
        && group_by[i].1 < widths[group_by[i].0 as int] by {
        assert(widths[group_by[i].0 as int] == row[group_by[i].0 as int].len());
    }
}

/// The place of a narrowest row.
fn narrowest(rows: &Vec<Vec<Cell>>) -> (at: usize)
    requires
        rows@.len() > 0,
    ensures
        at < rows@.len(),
        forall|i: int|
            0 <= i < rows@.len() ==> rows@[at as int]@.len() <= (#[trigger] rows@[i])@.len(),
{
    let mut at: usize = 0;
    let mut i: usize = 1;
    while i < rows.len()
        invariant
            1 <= i <= rows@.len(),
            at < rows@.len(),
            forall|k: int| 0 <= k < i ==> rows@[at as int]@.len() <= (#[trigger] rows@[k])@.len(),
        decreases rows@.len() - i,
    {
        if rows[i].len() < rows[at].len() {
            at = i;
        }
        i += 1;
    }
    at
}

fn is_within(output: &Vec<OutExpr>, group_by: &Vec<(usize, usize)>, widths: &Vec<usize>) -> (r: bool)
    ensures
        r == within(output@, group_by@, widths@),
{
    let n: usize = widths.len();
    let mut i: usize = 0;
    while i < output.len()
        invariant
            i <= output@.len(),
            n == widths@.len(),
            forall|k: int|
                0 <= k < i ==> match #[trigger] output@[k] {
                    OutExpr::Col(s, p) => s < widths@.len() && p < widths@[s as int],
                    OutExpr::Agg(_, s, p) => p == usize::MAX || (s < widths@.len() && p
                        < widths@[s as int]),
                },
        decreases output@.len() - i,
    {
        let ok: bool = match output[i] {
            OutExpr::Col(s, p) => s < n && p < widths[s],
            OutExpr::Agg(_, s, p) => p == usize::MAX || (s < n && p < widths[s]),
        };
        if !ok {
            assert(match output@[i as int] {
                OutExpr::Col(s, p) => !(s < widths@.len() && p < widths@[s as int]),
                OutExpr::Agg(_, s, p) => !(p == usize::MAX || (s < widths@.len() && p
                    < widths@[s as int])),
            });
            return false;
        }
        i += 1;
    }
    let mut k: usize = 0;
    while k < group_by.len()
        invariant
            k <= group_by@.len(),
            n == widths@.len(),
            forall|j: int|
                0 <= j < k ==> (#[trigger] group_by@[j]).0 < widths@.len() && group_by@[j].1
                    < widths@[group_by@[j].0 as int],
        decreases group_by@.len() - k,
    {
        let (s, p) = group_by[k];
        if !(s < n && p < widths[s]) {
            assert(!(group_by@[k as int].0 < widths@.len() && group_by@[k as int].1
                < widths@[group_by@[k as int].0 as int]));
            return false;
        }
        k += 1;
    }
    true
}

fn is_grouped(output: &Vec<OutExpr>, group_by: &Vec<(usize, usize)>) -> (r: bool)
    ensures
        r == output_grouped(output@, group_by@),
{
    let mut i: usize = 0;
    while i < output.len()
        invariant
            i <= output@.len(),
            forall|k: int|
                0 <= k < i ==> match #[trigger] output@[k] {
                    OutExpr::Col(s, p) => group_place(group_by@, s, p) is Some,
                    OutExpr::Agg(_, _, _) => true,
                },
        decreases output@.len() - i,
    {
        if let OutExpr::Col(s, p) = output[i] {
            if find_place(group_by, s, p).is_none() {
                assert(output@[i as int] == OutExpr::Col(s, p));
                return false;
            }
        }
        i += 1;
    }
    true
}

fn all_ints(rows: &Vec<Vec<Cell>>, pos: usize) -> (r: bool)
    ensures
        r == int_col(cell_rows(rows@), pos as int),
{
    let ghost m = cell_rows(rows@);
    let mut i: usize = 0;
    while i < rows.len()
        invariant
            i <= rows@.len(),
            m == cell_rows(rows@),
            forall|k: int|
                0 <= k < i ==> pos < (#[trigger] m[k]).len() && m[k][pos as int] is I,
        decreases rows@.len() - i,
    {
        assert(m[i as int] == cells(rows@[i as int]@));
        if pos >= rows[i].len() {
            assert(!(pos < m[i as int].len()));
            return false;
        }
        match rows[i][pos] {
            Cell::I(_) => {},
            Cell::S(_) => {
                assert(m[i as int][pos as int] is S);
                return false;
            },
        }
        i += 1;
    }
    true
}

/// Tests whether a plan that joins nothing finds its cells in a table.
fn single_fits(
    output: &Vec<OutExpr>,
    group_by: &Vec<(usize, usize)>,
    rows: &Vec<Vec<Cell>>,
) -> (r: bool)
    ensures
        r == rows_ok(output@, group_by@, single(cell_rows(rows@))),
{
    if rows.len() == 0 {
        return true;
    }
    let at: usize = narrowest(rows);
    let mut widths: Vec<usize> = Vec::new();
    widths.push(rows[at].len());
    let r: bool = is_within(output, group_by, &widths);
    proof {
        let m = cell_rows(rows@);
        if r {
            assert forall|i: int| 0 <= i < rows@.len() implies row_ok(
                output@,
                group_by@,
                #[trigger] single(m)[i],
            ) by {
                assert(single(m)[i][0].len() == rows@[i]@.len());
                within_ok(output@, group_by@, widths@, single(m)[i]);
            }
        } else if row_ok(output@, group_by@, single(m)[at as int]) {
            assert(single(m)[at as int][0].len() == rows@[at as int]@.len());
            row_within(output@, group_by@, widths@, single(m)[at as int]);
        }
    }
    r
}

/// The widths of the rows of a join.
spec fn join_widths(n: nat, j: JoinNode, build: usize, probe: usize) -> Seq<usize> {
    Seq::new(
        n,
        |k: int|
            if k == j.build {
                build
            } else if k == j.probe {
                probe
            } else {
                0
            },
    )
}

/// Tests whether a plan finds its cells in one pair of rows.
fn pair_fits(
    output: &Vec<OutExpr>,
    group_by: &Vec<(usize, usize)>,
    n: usize,
    j: &JoinNode,
    b: &Vec<Cell>,
    p: &Vec<Cell>,
) -> (r: bool)
    ensures
        r == row_ok(output@, group_by@, paired(n as nat, *j, cells(b@), cells(p@))),
{
    let wb: usize = b.len();
    let wp: usize = p.len();
    let mut widths: Vec<usize> = Vec::new();
    let mut s: usize = 0;
    while s < n
        invariant
            s <= n,
            widths@ =~= join_widths(s as nat, *j, wb, wp),
        decreases n - s,
    {
        widths.push(
            if s == j.build {
                wb
            } else if s == j.probe {
                wp
            } else {
                0
            },
        );
        s += 1;
    }
    let r: bool = is_within(output, group_by, &widths);
    proof {
        let row = paired(n as nat, *j, cells(b@), cells(p@));
        assert(cells(b@).len() == wb);
        assert(cells(p@).len() == wp);
        if r {
            within_ok(output@, group_by@, widths@, row);
        } else if row_ok(output@, group_by@, row) {
            row_within(output@, group_by@, widths@, row);
        }
    }
    r
}

/// Tests whether a plan finds its cells in every row of a join, and whether
/// there is one.
fn joined_fit(
    output: &Vec<OutExpr>,
    group_by: &Vec<(usize, usize)>,
    n: usize,
    j: &JoinNode,
    build: &Vec<Vec<Cell>>,
    probe: &Vec<Vec<Cell>>,
) -> (r: (bool, bool))
    requires
        has_col(cell_rows(build@), j.build_key as int),
        has_col(cell_rows(probe@), j.probe_key as int),
    ensures
        r.0 == rows_ok(
            output@,
            group_by@,
            joined(n as nat, *j, cell_rows(build@), cell_rows(probe@)),
        ),
        r.1 == (joined(n as nat, *j, cell_rows(build@), cell_rows(probe@)).len() > 0),
{
    let ghost bv = cell_rows(build@);
    let ghost pv = cell_rows(probe@);
    let ghost whole = joined(n as nat, *j, bv, pv);
    let ht: HashMap<i64, Vec<usize>> = build_table(build, j.build_key);
    let blen: usize = build.len();
    let mut any: bool = false;
    let mut i: usize = 0;
    assert(pv.take(0) =~= Seq::<Seq<CellView>>::empty());
    while i < probe.len()
        invariant
            i <= probe@.len(),
            bv == cell_rows(build@),
            bv.len() == blen,
            pv == cell_rows(probe@),
            whole == joined(n as nat, *j, bv, pv),
            has_col(pv, j.probe_key as int),
            indexes(ht@, bv, j.build_key as int),
            rows_ok(output@, group_by@, joined(n as nat, *j, bv, pv.take(i as int))),
            any == (joined(n as nat, *j, bv, pv.take(i as int)).len() > 0),
        decreases probe@.len() - i,
    {
        let ghost done = joined(n as nat, *j, bv, pv.take(i as int));
        let ghost all = probed(n as nat, *j, bv, pv[i as int]);
        proof {
            assert(pv.take(i + 1).drop_last() =~= pv.take(i as int));
            assert(pv.take(i + 1).last() == pv[i as int]);
            assert(joined(n as nat, *j, bv, pv.take(i + 1)) == done + all);
            assert(j.probe_key < pv[i as int].len());
            assert(pv[i as int] == cells(probe@[i as int]@));
            assert(pv[i as int][j.probe_key as int] == probe@[i as int]@[j.probe_key as int]@);
            joined_prefix(n as nat, *j, bv, pv, i + 1);
        }
        if let Cell::I(k) = &probe[i][j.probe_key] {
            let k: i64 = *k;
            let ghost m = matches_of(bv, j.build_key as int, k);
            proof {
                assert(ht@.contains_key(k) || m.len() == 0);
                matches_bound(bv, j.build_key as int, k);
            }
            if let Some(at) = ht.get(&k) {
                let mut c: usize = 0;
                while c < at.len()
                    invariant
                        c <= at@.len(),
                        i < probe@.len(),
                        bv == cell_rows(build@),
                        pv == cell_rows(probe@),
                        whole == joined(n as nat, *j, bv, pv),
                        at@ == m,
                        all == pairs_at(n as nat, *j, bv, m, pv[i as int]),
                        forall|x: int| 0 <= x < m.len() ==> (#[trigger] m[x]) < bv.len(),
                        (done + all).len() <= whole.len(),
                        forall|x: int|
                            0 <= x < (done + all).len() ==> (#[trigger] whole[x]) == (done
                                + all)[x],
                        forall|x: int|
                            0 <= x < c ==> row_ok(output@, group_by@, #[trigger] all[x]),
                    decreases at@.len() - c,
                {
                    let b: usize = at[c];
                    assert(m[c as int] < bv.len());
                    proof {
                        assert(bv[b as int] == cells(build@[b as int]@));
                        assert(pv[i as int] == cells(probe@[i as int]@));
                        assert(all[c as int] == paired(
                            n as nat,
                            *j,
                            bv[b as int],
                            pv[i as int],
                        ));
                        assert((done + all)[done.len() + c] == all[c as int]);
                        assert(whole[done.len() + c] == all[c as int]);
                    }
                    if !pair_fits(output, group_by, n, j, &build[b], &probe[i]) {
                        return (false, true);
                    }
                    c += 1;
                }
                if at.len() > 0 {
                    any = true;
                }
            }
        }
        proof {
            let next = done + all;
            assert forall|x: int| 0 <= x < next.len() implies row_ok(
                output@,
                group_by@,
                #[trigger] next[x],
            ) by {
                if x < done.len() {
                    assert(next[x] == done[x]);
                } else {
                    assert(next[x] == all[x - done.len()]);
                }
            }
        }
        i += 1;
    }
    assert(pv.take(i as int) =~= pv);
    (true, any)
}

/// The same rows, each as often, are as fit.
pub proof fn same_rows_fit(
    output: Seq<OutExpr>,
    group_by: Seq<(usize, usize)>,
    a: Seq<RowView>,
    b: Seq<RowView>,
)
    requires
        a.to_multiset() == b.to_multiset(),
    ensures
        rows_ok(output, group_by, a) == rows_ok(output, group_by, b),
        a.len() == b.len(),
{
    broadcast use vstd::seq_lib::group_to_multiset_ensures;

    assert(a.len() == a.to_multiset().len());
    assert forall|i: int| 0 <= i < a.len() implies b.contains(#[trigger] a[i]) by {
        assert(a.contains(a[i]));
        assert(b.to_multiset().count(a[i]) > 0);
    }
    assert forall|i: int| 0 <= i < b.len() implies a.contains(#[trigger] b[i]) by {
        assert(b.contains(b[i]));
        assert(a.to_multiset().count(b[i]) > 0);
    }
    if rows_ok(output, group_by, a) {
        assert forall|i: int| 0 <= i < b.len() implies row_ok(
            output,
            group_by,
            #[trigger] b[i],
        ) by {
            let k = choose|k: int| 0 <= k < a.len() && a[k] == b[i];
            assert(row_ok(output, group_by, a[k]));
        }
    }
    if rows_ok(output, group_by, b) {
        assert forall|i: int| 0 <= i < a.len() implies row_ok(
            output,
            group_by,
            #[trigger] a[i],
        ) by {
            let k = choose|k: int| 0 <= k < b.len() && b[k] == a[i];
            assert(row_ok(output, group_by, b[k]));
        }
    }
}

fn all_have(rows: &Vec<Vec<Cell>>, pos: usize) -> (r: bool)
    ensures
        r == has_col(cell_rows(rows@), pos as int),
{
    let ghost m = cell_rows(rows@);
    let mut i: usize = 0;
    while i < rows.len()
        invariant
            i <= rows@.len(),
            m == cell_rows(rows@),
            forall|k: int| 0 <= k < i ==> pos < (#[trigger] m[k]).len(),
        decreases rows@.len() - i,
    {
        assert(m[i as int] == cells(rows@[i as int]@));
        if pos >= rows[i].len() {
            assert(!(pos < m[i as int].len()));
            return false;
        }
        i += 1;
    }
    true
}

/// Tests whether a plan can run over some tables.
pub fn check_run(plan: &PhysicalPlan, tables: &Vec<Vec<Vec<Cell>>>) -> (r: bool)
    ensures
        r == runs(
            plan.output@,
            plan.group_by@,
            plan.join,
            plan.scans@.len(),
            table_views(tables@),
        ),
{
    let ghost tv = table_views(tables@);
    let n: usize = plan.scans.len();
    if tables.len() != n {
        return false;
    }
    let grouped: bool = collect_aggs(&plan.output).len() == 0 || is_grouped(
        &plan.output,
        &plan.group_by,
    );
    match &plan.join {
        None => {
            if n == 0 {
                return false;
            }
            assert(tv[0] == cell_rows(tables@[0]@));
            single_fits(&plan.output, &plan.group_by, &tables[0]) && (grouped || tables[0].len()
                == 0)
        },
        Some(j) => {
            if j.build >= n || j.probe >= n {
                return false;
            }
            let build: &Vec<Vec<Cell>> = &tables[j.build];
            let probe: &Vec<Vec<Cell>> = &tables[j.probe];
            let ghost bv = cell_rows(build@);
            let ghost pv = cell_rows(probe@);
            assert(tv[j.build as int] == bv);
            assert(tv[j.probe as int] == pv);
            let keys: bool = match j.strategy {
                JoinStrategy::Broadcast => all_have(build, j.build_key),
                JoinStrategy::Shuffle { partitions } => all_ints(build, j.build_key) && partitions
                    > 0 && partitions as u64 <= i64::MAX as u64,
            };
            if !(all_ints(probe, j.probe_key) && keys) {
                return false;
            }
            let (fits, any) = joined_fit(&plan.output, &plan.group_by, n, j, build, probe);
            proof {
                let rows = joined(n as nat, *j, bv, pv);
                if let JoinStrategy::Shuffle { partitions } = j.strategy {
                    let built: usize = build.len();
                    assert(bv.len() == built);
                    shuffle_joins_as_broadcast(n as nat, *j, bv, pv, partitions as nat);
                    same_rows_fit(
                        plan.output@,
                        plan.group_by@,
                        shuffled(n as nat, *j, bv, pv, partitions as int, partitions as nat),
                        rows,
                    );
                }
            }
            fits && (grouped || !any)
        },
    }
}

} // verus!
