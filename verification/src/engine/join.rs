//! Hash joins: the build table, the probe, and the exchange that splits both
//! sides by key.
use crate::engine::pipeline::{
    aggs_of, consume_row, fed, fed_all, fed_all_keeps_counts, partial_ok, row_ok, rows_ok, RowView,
};
use crate::engine::values::{cell_rows, cells, copy_cells, Cell, CellView, Partial, PartialView};
use crate::plan::ast::AggFn;
use crate::plan::physical::{JoinNode, OutExpr};
use std::collections::HashMap;
use vstd::prelude::*;

verus! {

broadcast use vstd::std_specs::hash::group_hash_axioms;

/// The positions of the build rows with a key, in order.
pub open spec fn matches_of(build: Seq<Seq<CellView>>, pos: int, k: i64) -> Seq<usize>
    decreases build.len(),
{
    if build.len() == 0 {
        Seq::empty()
    } else {
        let m = matches_of(build.drop_last(), pos, k);
        if build.last()[pos] == CellView::I(k) { m.push((build.len() - 1) as usize) } else { m }
    }
}

/// A row of the join: the build side's cells in its scan's place, the probe
/// side's in its own.
pub open spec fn paired(
    nscans: nat,
    j: JoinNode,
    b: Seq<CellView>,
    p: Seq<CellView>,
) -> RowView {
    Seq::new(
        nscans,
        |s: int|
            if s == j.build {
                b
            } else if s == j.probe {
                p
            } else {
                Seq::empty()
            },
    )
}

/// The join rows of some build rows, given by position, with one probe row.
pub open spec fn pairs_at(
    nscans: nat,
    j: JoinNode,
    build: Seq<Seq<CellView>>,
    at: Seq<usize>,
    p: Seq<CellView>,
) -> Seq<RowView> {
    Seq::new(at.len(), |i: int| paired(nscans, j, build[at[i] as int], p))
}

/// The join rows of one probe row. A key that is no integer matches nothing.
pub open spec fn probed(
    nscans: nat,
    j: JoinNode,
    build: Seq<Seq<CellView>>,
    p: Seq<CellView>,
) -> Seq<RowView> {
    match p[j.probe_key as int] {
        CellView::I(k) => pairs_at(
            nscans,
            j,
            build,
            matches_of(build, j.build_key as int, k),
            p,
        ),
        CellView::S(_) => Seq::empty(),
    }
}

/// The rows of the join, by probe row and then by build row.
pub open spec fn joined(
    nscans: nat,
    j: JoinNode,
    build: Seq<Seq<CellView>>,
    probe: Seq<Seq<CellView>>,
) -> Seq<RowView>
    decreases probe.len(),
{
    if probe.len() == 0 {
        Seq::empty()
    } else {
        joined(nscans, j, build, probe.drop_last()) + probed(nscans, j, build, probe.last())
    }
}

/// Whether a table holds, for each key, the positions of the rows with it.
pub open spec fn indexes(
    t: Map<i64, Vec<usize>>,
    build: Seq<Seq<CellView>>,
    pos: int,
) -> bool {
    forall|k: i64|
        #![trigger t.contains_key(k)]
        #![trigger matches_of(build, pos, k)]
        if t.contains_key(k) {
            t[k]@ == matches_of(build, pos, k)
        } else {
            matches_of(build, pos, k).len() == 0
        }
}

pub open spec fn has_col(rows: Seq<Seq<CellView>>, pos: int) -> bool {
    forall|i: int| 0 <= i < rows.len() ==> pos < (#[trigger] rows[i]).len()
}

/// The positions of a key are those of rows with it.
pub proof fn matches_bound(build: Seq<Seq<CellView>>, pos: int, k: i64)
    requires
        build.len() <= usize::MAX,
    ensures
        forall|i: int|
            0 <= i < matches_of(build, pos, k).len() ==> (#[trigger] matches_of(build, pos, k)[i])
                < build.len() && build[matches_of(build, pos, k)[i] as int][pos] == CellView::I(k),
        matches_of(build, pos, k).len() <= build.len(),
    decreases build.len(),
{
    if build.len() > 0 {
        let d = build.drop_last();
        matches_bound(d, pos, k);
        let m = matches_of(build, pos, k);
        assert forall|i: int| 0 <= i < m.len() implies (#[trigger] m[i]) < build.len()
            && build[m[i] as int][pos] == CellView::I(k) by {
            if i < matches_of(d, pos, k).len() {
                assert(m[i] == matches_of(d, pos, k)[i]);
                assert(d[m[i] as int] == build[m[i] as int]);
            }
        }
    }
}

/// The build side's rows by key.
pub fn build_table(build: &Vec<Vec<Cell>>, key: usize) -> (ht: HashMap<i64, Vec<usize>>)
    requires
        has_col(cell_rows(build@), key as int),
    ensures
        indexes(ht@, cell_rows(build@), key as int),
{
    let ghost bv = cell_rows(build@);
    let mut ht: HashMap<i64, Vec<usize>> = HashMap::new();
    let mut i: usize = 0;
    assert(bv.take(0) =~= Seq::<Seq<CellView>>::empty());
    while i < build.len()
        invariant
            i <= build@.len(),
            bv == cell_rows(build@),
            has_col(bv, key as int),
            indexes(ht@, bv.take(i as int), key as int),
        decreases build@.len() - i,
    {
        let ghost before = ht@;
        proof {
            assert(bv.take(i + 1).drop_last() =~= bv.take(i as int));
            assert(bv.take(i + 1).last() == bv[i as int]);
            assert(key < bv[i as int].len());
            assert(bv[i as int][key as int] == build@[i as int]@[key as int]@);
        }
        if let Cell::I(k) = &build[i][key] {
            let k: i64 = *k;
            let mut at: Vec<usize> = match ht.remove(&k) {
                Some(v) => v,
                None => Vec::new(),
            };
            proof {
                assert(before.contains_key(k) || matches_of(bv.take(i as int), key as int, k).len()
                    == 0);
                assert(at@ =~= matches_of(bv.take(i as int), key as int, k));
            }
            at.push(i);
            ht.insert(k, at);
            assert forall|q: i64|
                #![trigger ht@.contains_key(q)]
                #![trigger matches_of(bv.take(i + 1), key as int, q)]
                if ht@.contains_key(q) {
                    ht@[q]@ == matches_of(bv.take(i + 1), key as int, q)
                } else {
                    matches_of(bv.take(i + 1), key as int, q).len() == 0
                } by {
                assert(before.contains_key(q) || !before.contains_key(q));
                assert(matches_of(bv.take(i as int), key as int, q).len() >= 0);
            }
        } else {
            assert forall|q: i64|
                #![trigger ht@.contains_key(q)]
                #![trigger matches_of(bv.take(i + 1), key as int, q)]
                if ht@.contains_key(q) {
                    ht@[q]@ == matches_of(bv.take(i + 1), key as int, q)
                } else {
                    matches_of(bv.take(i + 1), key as int, q).len() == 0
                } by {
                assert(matches_of(bv.take(i as int), key as int, q).len() >= 0);
            }
        }
        i += 1;
    }
    assert(bv.take(i as int) =~= bv);
    ht
}

/// Whether both sides of a join have their key and every row of the join has
/// the cells that are named.
pub open spec fn join_ok(
    output: Seq<OutExpr>,
    group_by: Seq<(usize, usize)>,
    nscans: nat,
    j: JoinNode,
    build: Seq<Seq<CellView>>,
    probe: Seq<Seq<CellView>>,
) -> bool {
    &&& j.build < nscans
    &&& j.probe < nscans
    &&& has_col(build, j.build_key as int)
    &&& has_col(probe, j.probe_key as int)
    &&& rows_ok(output, group_by, joined(nscans, j, build, probe))
}

/// The join rows of the first probe rows come first.
pub proof fn joined_prefix(
    nscans: nat,
    j: JoinNode,
    build: Seq<Seq<CellView>>,
    probe: Seq<Seq<CellView>>,
    i: int,
)
    requires
        0 <= i <= probe.len(),
    ensures
        joined(nscans, j, build, probe.take(i)).len() <= joined(nscans, j, build, probe).len(),
        forall|k: int|
            0 <= k < joined(nscans, j, build, probe.take(i)).len() ==> (#[trigger] joined(
                nscans,
                j,
                build,
                probe,
            )[k]) == joined(nscans, j, build, probe.take(i))[k],
    decreases probe.len(),
{
    if i == probe.len() {
        assert(probe.take(i) =~= probe);
    } else {
        let d = probe.drop_last();
        joined_prefix(nscans, j, build, d, i);
        assert(d.take(i) =~= probe.take(i));
        let a = joined(nscans, j, build, d);
        assert forall|k: int| 0 <= k < joined(
            nscans,
            j,
            build,
            probe.take(i),
        ).len() implies (#[trigger] joined(nscans, j, build, probe)[k]) == joined(
            nscans,
            j,
            build,
            probe.take(i),
        )[k] by {
            assert(a[k] == joined(nscans, j, build, probe.take(i))[k]);
        }
    }
}

/// Feeding in two goes is feeding in one.
pub proof fn fed_all_concat(
    output: Seq<OutExpr>,
    group_by: Seq<(usize, usize)>,
    p: PartialView,
    a: Seq<RowView>,
    b: Seq<RowView>,
)
    ensures
        fed_all(output, group_by, p, a + b) == fed_all(
            output,
            group_by,
            fed_all(output, group_by, p, a),
            b,
        ),
    decreases b.len(),
{
    if b.len() == 0 {
        assert(a + b =~= a);
    } else {
        assert((a + b).drop_last() =~= a + b.drop_last());
        fed_all_concat(output, group_by, p, a, b.drop_last());
    }
}

/// The number of counted join rows, modulo `2^64`.
pub open spec fn counted(start: u64, n: nat) -> u64
    decreases n,
{
    if n == 0 { start } else { counted(start, (n - 1) as nat).wrapping_add(1) }
}

/// A partial state after the rows of a join.
pub open spec fn joined_into(
    output: Seq<OutExpr>,
    group_by: Seq<(usize, usize)>,
    p: PartialView,
    rows: Seq<RowView>,
) -> PartialView {
    PartialView {
        joined_rows: counted(p.joined_rows, rows.len()),
        ..fed_all(output, group_by, p, rows)
    }
}

proof fn joined_into_next(
    output: Seq<OutExpr>,
    group_by: Seq<(usize, usize)>,
    p: PartialView,
    rows: Seq<RowView>,
    row: RowView,
)
    ensures
        joined_into(output, group_by, p, rows.push(row)) == (PartialView {
            joined_rows: joined_into(output, group_by, p, rows).joined_rows.wrapping_add(1),
            ..fed(output, group_by, joined_into(output, group_by, p, rows), row)
        }),
{
    assert(rows.push(row).drop_last() =~= rows);
    fed_all_keeps_counts(output, group_by, p, rows);
    fed_all_keeps_counts(output, group_by, p, rows.push(row));
}

/// Probes a table with rows and feeds what matches.
#[verifier::rlimit(40)]
pub fn probe_rows(
    output: &Vec<OutExpr>,
    group_by: &Vec<(usize, usize)>,
    aggs: &Vec<(AggFn, usize, usize)>,
    nscans: usize,
    j: &JoinNode,
    ht: &HashMap<i64, Vec<usize>>,
    build: &Vec<Vec<Cell>>,
    probe: &Vec<Vec<Cell>>,
    part: &mut Partial,
)
    requires
        aggs@ == aggs_of(output@),
        indexes(ht@, cell_rows(build@), j.build_key as int),
        join_ok(
            output@,
            group_by@,
            nscans as nat,
            *j,
            cell_rows(build@),
            cell_rows(probe@),
        ),
        partial_ok(output@, old(part)@),
    ensures
        final(part)@ == joined_into(
            output@,
            group_by@,
            old(part)@,
            joined(nscans as nat, *j, cell_rows(build@), cell_rows(probe@)),
        ),
        partial_ok(output@, final(part)@),
{
    let ghost bv = cell_rows(build@);
    let ghost pv = cell_rows(probe@);
    let ghost start = part@;
    let ghost n = nscans as nat;
    let blen: usize = build.len();
    let mut i: usize = 0;
    assert(pv.take(0) =~= Seq::<Seq<CellView>>::empty());
    while i < probe.len()
        invariant
            i <= probe@.len(),
            aggs@ == aggs_of(output@),
            bv == cell_rows(build@),
            bv.len() == blen,
            pv == cell_rows(probe@),
            n == nscans,
            indexes(ht@, bv, j.build_key as int),
            join_ok(output@, group_by@, n, *j, bv, pv),
            partial_ok(output@, part@),
            part@ == joined_into(
                output@,
                group_by@,
                start,
                joined(n, *j, bv, pv.take(i as int)),
            ),
        decreases probe@.len() - i,
    {
        let ghost done = joined(n, *j, bv, pv.take(i as int));
        proof {
            assert(pv.take(i + 1).drop_last() =~= pv.take(i as int));
            assert(pv.take(i + 1).last() == pv[i as int]);
            assert(j.probe_key < pv[i as int].len());
            assert(pv[i as int][j.probe_key as int] == probe@[i as int]@[j.probe_key as int]@);
            assert(done + Seq::<RowView>::empty() =~= done);
        }
        if let Cell::I(k) = &probe[i][j.probe_key] {
            let k: i64 = *k;
            let ghost m = matches_of(bv, j.build_key as int, k);
            proof {
                assert(ht@.contains_key(k) || m.len() == 0);
                matches_bound(bv, j.build_key as int, k);
                joined_prefix(n, *j, bv, pv, i + 1);
                assert(m.len() == 0 ==> done + pairs_at(n, *j, bv, m, pv[i as int]) =~= done);
            }
            if let Some(at) = ht.get(&k) {
                let mut c: usize = 0;
                let ghost all = pairs_at(n, *j, bv, m, pv[i as int]);
                assert(all.take(0) =~= Seq::<RowView>::empty());
                assert forall|x: int| 0 <= x < all.len() implies row_ok(
                    output@,
                    group_by@,
                    #[trigger] all[x],
                ) by {
                    let whole = joined(n, *j, bv, pv);
                    assert(joined(n, *j, bv, pv.take(i + 1)) == done + all);
                    assert((done + all)[done.len() + x] == all[x]);
                    assert(whole[done.len() + x] == all[x]);
                }
                while c < at.len()
                    invariant
                        c <= at@.len(),
                        i < probe@.len(),
                        aggs@ == aggs_of(output@),
                        bv == cell_rows(build@),
                        pv == cell_rows(probe@),
                        n == nscans,
                        join_ok(output@, group_by@, n, *j, bv, pv),
                        at@ == m,
                        all == pairs_at(n, *j, bv, m, pv[i as int]),
                        forall|x: int| 0 <= x < m.len() ==> (#[trigger] m[x]) < bv.len(),
                        forall|x: int|
                            0 <= x < all.len() ==> row_ok(
                                output@,
                                group_by@,
                                #[trigger] all[x],
                            ),
                        partial_ok(output@, part@),
                        part@ == joined_into(
                            output@,
                            group_by@,
                            start,
                            done + all.take(c as int),
                        ),
                    decreases at@.len() - c,
                {
                    let b: usize = at[c];
                    assert(m[c as int] < bv.len());
                    let row: Vec<Vec<Cell>> = pair_rows(nscans, j, &build[b], &probe[i]);
                    proof {
                        assert(cell_rows(row@) == all[c as int]);
                        assert(done + all.take(c + 1) =~= (done + all.take(c as int)).push(
                            all[c as int],
                        ));
                        joined_into_next(
                            output@,
                            group_by@,
                            start,
                            done + all.take(c as int),
                            all[c as int],
                        );
                    }
                    part.joined_rows = part.joined_rows.wrapping_add(1);
                    let ghost mid = part@;
                    consume_row(output, group_by, aggs, part, &row);
                    assert(part@ =~= joined_into(
                        output@,
                        group_by@,
                        start,
                        done + all.take(c + 1),
                    ));
                    c += 1;
                }
                assert(all.take(c as int) =~= all);
            }
        }
        i += 1;
    }
    assert(pv.take(i as int) =~= pv);
}

fn pair_rows(nscans: usize, j: &JoinNode, b: &Vec<Cell>, p: &Vec<Cell>) -> (row: Vec<Vec<Cell>>)
    ensures
        cell_rows(row@) == paired(nscans as nat, *j, cells(b@), cells(p@)),
{
    let mut row: Vec<Vec<Cell>> = Vec::new();
    let mut s: usize = 0;
    let ghost want = paired(nscans as nat, *j, cells(b@), cells(p@));
    while s < nscans
        invariant
            s <= nscans,
            want == paired(nscans as nat, *j, cells(b@), cells(p@)),
            row@.len() == s,
            forall|i: int| 0 <= i < s ==> cells((#[trigger] row@[i])@) == want[i],
        decreases nscans - s,
    {
        let c: Vec<Cell> = if s == j.build {
            copy_cells(b)
        } else if s == j.probe {
            copy_cells(p)
        } else {
            Vec::new()
        };
        assert(cells(c@) =~= want[s as int]);
        row.push(c);
        s += 1;
    }
    assert(cell_rows(row@) =~= want);
    row
}

/// Joins the two sides of one partition, or of the whole where nothing is
/// partitioned.
pub fn join_partition(
    output: &Vec<OutExpr>,
    group_by: &Vec<(usize, usize)>,
    aggs: &Vec<(AggFn, usize, usize)>,
    nscans: usize,
    j: &JoinNode,
    build: &Vec<Vec<Cell>>,
    probe: &Vec<Vec<Cell>>,
    part: &mut Partial,
)
    requires
        aggs@ == aggs_of(output@),
        join_ok(
            output@,
            group_by@,
            nscans as nat,
            *j,
            cell_rows(build@),
            cell_rows(probe@),
        ),
        partial_ok(output@, old(part)@),
    ensures
        final(part)@ == joined_into(
            output@,
            group_by@,
            old(part)@,
            joined(nscans as nat, *j, cell_rows(build@), cell_rows(probe@)),
        ),
        partial_ok(output@, final(part)@),
{
    let ht: HashMap<i64, Vec<usize>> = build_table(build, j.build_key);
    probe_rows(output, group_by, aggs, nscans, j, &ht, build, probe, part);
}

// ---------------------------------------------------------------------------
// The exchange
// ---------------------------------------------------------------------------

/// The partition of a key.
pub open spec fn partition_of(k: i64, n: int) -> int {
    k as int % n
}

/// The rows of a partition, in order.
pub open spec fn part_rows(rows: Seq<Seq<CellView>>, pos: int, n: int, p: int) -> Seq<
    Seq<CellView>,
>
    decreases rows.len(),
{
    if rows.len() == 0 {
        Seq::empty()
    } else {
        let m = part_rows(rows.drop_last(), pos, n, p);
        match rows.last()[pos] {
            CellView::I(k) => if partition_of(k, n) == p { m.push(rows.last()) } else { m },
            CellView::S(_) => m,
        }
    }
}

fn partition(k: i64, n: usize) -> (p: usize)
    requires
        0 < n <= i64::MAX,
    ensures
        p == partition_of(k, n as int),
        p < n,
{
    let m: u64 = n as u64;
    if k >= 0 {
        ((k as u64) % m) as usize
    } else {
        let q: u64 = (-(k + 1)) as u64;
        let r: u64 = q % m;
        proof {
            let d = (q / m) as int;
            vstd::arithmetic::div_mod::lemma_fundamental_div_mod(q as int, m as int);
            assert(k as int == (-(d + 1)) * (m as int) + (m - 1 - r)) by (nonlinear_arith)
                requires
                    k as int == -(q as int) - 1,
                    q as int == m as int * d + r as int,
            ;
            vstd::arithmetic::div_mod::lemma_fundamental_div_mod_converse(
                k as int,
                m as int,
                -(d + 1),
                m - 1 - r,
            );
        }
        (m - 1 - r) as usize
    }
}

/// Splits rows into partitions by their keys, which are integers.
pub fn partition_rows(rows: &Vec<Vec<Cell>>, key: usize, n: usize) -> (out: Vec<Vec<Vec<Cell>>>)
    requires
        0 < n <= i64::MAX,
        has_col(cell_rows(rows@), key as int),
        forall|i: int|
            0 <= i < rows@.len() ==> (#[trigger] cell_rows(rows@)[i])[key as int] is I,
    ensures
        out@.len() == n,
        forall|p: int|
            0 <= p < n ==> cell_rows((#[trigger] out@[p])@) == part_rows(
                cell_rows(rows@),
                key as int,
                n as int,
                p,
            ),
{
    let ghost rv = cell_rows(rows@);
    let mut out: Vec<Vec<Vec<Cell>>> = Vec::new();
    let mut z: usize = 0;
    while z < n
        invariant
            z <= n,
            out@.len() == z,
            forall|p: int| 0 <= p < z ==> (#[trigger] out@[p])@.len() == 0,
        decreases n - z,
    {
        out.push(Vec::new());
        z += 1;
    }
    let mut i: usize = 0;
    proof {
        assert(rv.take(0) =~= Seq::<Seq<CellView>>::empty());
        assert forall|p: int| 0 <= p < n implies cell_rows((#[trigger] out@[p])@) == part_rows(
            rv.take(0),
            key as int,
            n as int,
            p,
        ) by {
            assert(cell_rows(out@[p]@) =~= Seq::<Seq<CellView>>::empty());
        }
    }
    while i < rows.len()
        invariant
            i <= rows@.len(),
            0 < n <= i64::MAX,
            rv == cell_rows(rows@),
            has_col(rv, key as int),
            forall|i: int| 0 <= i < rv.len() ==> (#[trigger] rv[i])[key as int] is I,
            out@.len() == n,
            forall|p: int|
                0 <= p < n ==> cell_rows((#[trigger] out@[p])@) == part_rows(
                    rv.take(i as int),
                    key as int,
                    n as int,
                    p,
                ),
        decreases rows@.len() - i,
    {
        let ghost before = out@;
        proof {
            assert(rv.take(i + 1).drop_last() =~= rv.take(i as int));
            assert(rv.take(i + 1).last() == rv[i as int]);
            assert(key < rv[i as int].len());
            assert(rv[i as int][key as int] == rows@[i as int]@[key as int]@);
        }
        if let Cell::I(k) = &rows[i][key] {
            let p: usize = partition(*k, n);
            let r: Vec<Cell> = copy_cells(&rows[i]);
            out[p].push(r);
            proof {
                assert(out@ =~= before.update(p as int, out@[p as int]));
                assert(cell_rows(out@[p as int]@) =~= cell_rows(before[p as int]@).push(
                    rv[i as int],
                ));
                assert forall|q: int| 0 <= q < n implies cell_rows((#[trigger] out@[q])@)
                    == part_rows(rv.take(i + 1), key as int, n as int, q) by {
                    assert(cell_rows(before[q]@) == part_rows(
                        rv.take(i as int),
                        key as int,
                        n as int,
                        q,
                    ));
                    if q != p {
                        assert(out@[q] == before[q]);
                    }
                }
            }
        }
        i += 1;
    }
    assert(rv.take(i as int) =~= rv);
    out
}

} // verus!
