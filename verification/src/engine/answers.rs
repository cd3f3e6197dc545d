//! What joins, groups and orders answer, said of the rows they are given.
use crate::engine::execute::{nothing, plan_rows, plan_scanned};
use crate::engine::finish::{
    bar_cells, group_place, group_row, heading, limited, merge_partial, order_keys, ordered, result_rows,
    row_order, rule_cells, width, OrderKeys,
};
use crate::engine::join::{counted, joined, matches_of, partition_of};
use crate::engine::laws::{groups_hold_their_rows, key_accs, keys_distinct};
use crate::engine::pipeline::{aggs_of, fed_all, key_of, RowView};
use crate::engine::values::{accs_of, Acc, CellView, GroupView, PartialView, ValView};
use crate::plan::ast::AggFn;
use crate::plan::physical::{JoinNode, OutExpr, ScanView};
use crate::plan::print::agg_word;
use crate::sort::{goes_before, sorts, taken, taken_rearranges};
use crate::tally::{row_acc_tallies, same_word, spans, tallies, total};
use crate::text::text_lt;
use vstd::utf8::encode_utf8;
use vstd::prelude::*;

verus! {

// ---------------------------------------------------------------------------
// Joins
// ---------------------------------------------------------------------------

/// Whether two cells are the same integer.
pub open spec fn same_key(a: CellView, b: CellView) -> bool {
    a is I && b is I && a->I_0 == b->I_0
}

/// The positions of a key are those of all rows that have it, in order.
pub proof fn every_row_with_the_key_is_found(build: Seq<Seq<CellView>>, pos: int, k: i64)
    requires
        build.len() <= usize::MAX,
    ensures
        ({
            let m = matches_of(build, pos, k);
            &&& forall|i: int, j: int| 0 <= i < j < m.len() ==> m[i] < m[j]
            &&& forall|i: int| 0 <= i < m.len() ==> (#[trigger] m[i]) < build.len()
            &&& forall|b: int|
                0 <= b < build.len() ==> (m.contains(b as usize) <==> (#[trigger] build[b])[pos]
                    == CellView::I(k))
        }),
    decreases build.len(),
{
    let m = matches_of(build, pos, k);
    if build.len() > 0 {
        let d = build.drop_last();
        every_row_with_the_key_is_found(d, pos, k);
        let n = matches_of(d, pos, k);
        let last = build.len() - 1;
        assert forall|b: int| 0 <= b < build.len() implies (m.contains(b as usize) <==> (
        #[trigger] build[b])[pos] == CellView::I(k)) by {
            if b < last {
                assert(d[b] == build[b]);
                if n.contains(b as usize) {
                    let i = choose|i: int| 0 <= i < n.len() && n[i] == b as usize;
                    assert(m[i] == b as usize);
                }
                if m.contains(b as usize) {
                    let i = choose|i: int| 0 <= i < m.len() && m[i] == b as usize;
                    assert(i < n.len());
                    assert(n[i] == b as usize);
                }
            } else {
                if build[b][pos] == CellView::I(k) {
                    assert(m[n.len() as int] == b as usize);
                }
                if m.contains(b as usize) {
                    let i = choose|i: int| 0 <= i < m.len() && m[i] == b as usize;
                    if i < n.len() {
                        assert(n[i] < d.len());
                    }
                }
            }
        }
    }
}

/// Whether a row of a join is made of a build row and a probe row.
pub open spec fn row_of_pair(
    nscans: nat,
    j: JoinNode,
    b: Seq<CellView>,
    p: Seq<CellView>,
    row: RowView,
) -> bool {
    &&& row.len() == nscans
    &&& forall|s: int|
        0 <= s < nscans ==> #[trigger] row[s] == (if s == j.build {
            b
        } else if s == j.probe {
            p
        } else {
            Seq::empty()
        })
}

/// Whether a list holds the index pairs of all build and probe rows whose keys
/// are the same integer, each once.
pub open spec fn all_matches(
    j: JoinNode,
    build: Seq<Seq<CellView>>,
    probe: Seq<Seq<CellView>>,
    at: Seq<(int, int)>,
) -> bool {
    &&& at.no_duplicates()
    &&& forall|b: int, p: int|
        #[trigger] at.contains((b, p)) <==> 0 <= b < build.len() && 0 <= p < probe.len()
            && same_key(build[b][j.build_key as int], probe[p][j.probe_key as int])
}

/// Whether the rows of a join are those of some index pairs, one by one.
pub open spec fn rows_of_pairs(
    nscans: nat,
    j: JoinNode,
    build: Seq<Seq<CellView>>,
    probe: Seq<Seq<CellView>>,
    at: Seq<(int, int)>,
    rows: Seq<RowView>,
) -> bool {
    &&& rows.len() == at.len()
    &&& forall|i: int|
        0 <= i < at.len() ==> row_of_pair(
            nscans,
            j,
            build[(#[trigger] at[i]).0],
            probe[at[i].1],
            rows[i],
        )
}

/// The index pairs of one probe row.
spec fn pairs_with(build: Seq<Seq<CellView>>, pos: int, k: i64, p: int) -> Seq<(int, int)> {
    Seq::new(matches_of(build, pos, k).len(), |i: int| (matches_of(build, pos, k)[i] as int, p))
}

spec fn match_list(j: JoinNode, build: Seq<Seq<CellView>>, probe: Seq<Seq<CellView>>) -> Seq<
    (int, int),
>
    decreases probe.len(),
{
    if probe.len() == 0 {
        Seq::empty()
    } else {
        let d = match_list(j, build, probe.drop_last());
        match probe.last()[j.probe_key as int] {
            CellView::I(k) => d + pairs_with(build, j.build_key as int, k, probe.len() - 1),
            CellView::S(_) => d,
        }
    }
}

proof fn match_list_is_right(
    nscans: nat,
    j: JoinNode,
    build: Seq<Seq<CellView>>,
    probe: Seq<Seq<CellView>>,
)
    requires
        build.len() <= usize::MAX,
    ensures
        all_matches(j, build, probe, match_list(j, build, probe)),
        rows_of_pairs(
            nscans,
            j,
            build,
            probe,
            match_list(j, build, probe),
            joined(nscans, j, build, probe),
        ),
    decreases probe.len(),
{
    let at = match_list(j, build, probe);
    let rows = joined(nscans, j, build, probe);
    if probe.len() > 0 {
        let q = probe.drop_last();
        let d = match_list(j, build, q);
        let dr = joined(nscans, j, build, q);
        match_list_is_right(nscans, j, build, q);
        let n = probe.len() - 1;
        assert(probe.last() == probe[n]);
        match probe.last()[j.probe_key as int] {
            CellView::I(k) => {
                let m = matches_of(build, j.build_key as int, k);
                let more = pairs_with(build, j.build_key as int, k, n);
                every_row_with_the_key_is_found(build, j.build_key as int, k);
                assert forall|b: int, p: int| #[trigger] at.contains((b, p)) <==> 0 <= b
                    < build.len() && 0 <= p < probe.len() && same_key(
                    build[b][j.build_key as int],
                    probe[p][j.probe_key as int],
                ) by {
                    if at.contains((b, p)) {
                        let i = choose|i: int| 0 <= i < at.len() && at[i] == (b, p);
                        if i < d.len() {
                            assert(d[i] == (b, p));
                            assert(d.contains((b, p)));
                        } else {
                            let x = i - d.len();
                            assert(more[x] == (b, p));
                            assert(m[x] == b as usize);
                            assert(m.contains(b as usize));
                        }
                    }
                    if 0 <= b < build.len() && 0 <= p < probe.len() && same_key(
                        build[b][j.build_key as int],
                        probe[p][j.probe_key as int],
                    ) {
                        if p < n {
                            assert(q[p] == probe[p]);
                            assert(d.contains((b, p)));
                            let i = choose|i: int| 0 <= i < d.len() && d[i] == (b, p);
                            assert(at[i] == (b, p));
                        } else {
                            assert(build[b][j.build_key as int] == CellView::I(k));
                            assert(m.contains(b as usize));
                            let i = choose|i: int| 0 <= i < m.len() && m[i] == b as usize;
                            assert(more[i] == (b, p));
                            assert(at[d.len() + i] == (b, p));
                        }
                    }
                }
                assert forall|x: int, y: int| 0 <= x < at.len() && 0 <= y < at.len() && x
                    != y implies at[x] != at[y] by {
                    if x < d.len() {
                        assert(d.contains(d[x]));
                        assert(d[x].1 < n) by {
                            let (b, p) = d[x];
                            assert(d.contains((b, p)));
                        }
                    }
                    if y < d.len() {
                        assert(d[y].1 < n) by {
                            let (b, p) = d[y];
                            assert(d.contains((b, p)));
                        }
                    }
                    if x >= d.len() && y >= d.len() {
                        let (a, c) = (x - d.len(), y - d.len());
                        if a < c {
                            assert(m[a] < m[c]);
                        } else {
                            assert(m[c] < m[a]);
                        }
                    }
                }
                assert(at.no_duplicates());
                assert forall|i: int| 0 <= i < at.len() implies row_of_pair(
                    nscans,
                    j,
                    build[(#[trigger] at[i]).0],
                    probe[at[i].1],
                    rows[i],
                ) by {
                    if i < d.len() {
                        assert(at[i] == d[i]);
                        let (b, p) = d[i];
                        assert(d.contains((b, p)));
                        assert(q[p] == probe[p]);
                    } else {
                        assert(m[i - d.len()] < build.len());
                    }
                }
            },
            CellView::S(_) => {
                assert(rows =~= dr);
                assert forall|b: int, p: int| #[trigger] at.contains((b, p)) <==> 0 <= b
                    < build.len() && 0 <= p < probe.len() && same_key(
                    build[b][j.build_key as int],
                    probe[p][j.probe_key as int],
                ) by {
                    if p < n {
                        assert(0 <= p ==> q[p] == probe[p]);
                    }
                }
                assert forall|i: int| 0 <= i < at.len() implies row_of_pair(
                    nscans,
                    j,
                    build[(#[trigger] at[i]).0],
                    probe[at[i].1],
                    rows[i],
                ) by {
                    let (b, p) = d[i];
                    assert(d.contains((b, p)));
                    assert(q[p] == probe[p]);
                }
            },
        }
    }
}

/// The rows of a join are the pairs of a build row and a probe row whose keys
/// are the same integer: one for each such pair of rows, and no other.
pub proof fn every_match_is_joined_once(
    nscans: nat,
    j: JoinNode,
    build: Seq<Seq<CellView>>,
    probe: Seq<Seq<CellView>>,
)
    requires
        build.len() <= usize::MAX,
    ensures
        exists|at: Seq<(int, int)>| #[trigger]
            all_matches(j, build, probe, at) && rows_of_pairs(
                nscans,
                j,
                build,
                probe,
                at,
                joined(nscans, j, build, probe),
            ),
{
    match_list_is_right(nscans, j, build, probe);
}

/// How often a row occurs in a join: as often as there are pairs of a build
/// row and a probe row with the same key that make it up.
pub proof fn a_row_is_joined_as_often_as_it_matches(
    nscans: nat,
    j: JoinNode,
    build: Seq<Seq<CellView>>,
    probe: Seq<Seq<CellView>>,
    row: RowView,
)
    requires
        build.len() <= usize::MAX,
    ensures
        joined(nscans, j, build, probe).to_multiset().count(row) == Set::new(
            |bp: (int, int)|
                0 <= bp.0 < build.len() && 0 <= bp.1 < probe.len() && same_key(
                    build[bp.0][j.build_key as int],
                    probe[bp.1][j.probe_key as int],
                ) && row_of_pair(nscans, j, build[bp.0], probe[bp.1], row),
        ).len(),
{
    match_list_is_right(nscans, j, build, probe);
    let at = match_list(j, build, probe);
    let rows = joined(nscans, j, build, probe);
    let f = |bp: (int, int)| row_of_pair(nscans, j, build[bp.0], probe[bp.1], row);
    let want = Set::new(
        |bp: (int, int)|
            0 <= bp.0 < build.len() && 0 <= bp.1 < probe.len() && same_key(
                build[bp.0][j.build_key as int],
                probe[bp.1][j.probe_key as int],
            ) && row_of_pair(nscans, j, build[bp.0], probe[bp.1], row),
    );
    assert forall|i: int| 0 <= i < at.len() implies (rows[i] == row <==> f(#[trigger] at[i])) by {
        assert(row_of_pair(nscans, j, build[at[i].0], probe[at[i].1], rows[i]));
        if f(at[i]) {
            assert(rows[i] =~= row);
        }
    }
    count_by_index(rows, at, row, f);
    filter_distinct(at, f);
    let kept = at.filter(f);
    kept.unique_seq_to_set();
    assert(kept.to_set() =~= want) by {
        assert forall|bp: (int, int)| kept.to_set().contains(bp) <==> want.contains(bp) by {
            let (b, p) = bp;
            at.filter_lemma(f);
            if kept.contains(bp) {
                let i = choose|i: int| 0 <= i < kept.len() && kept[i] == bp;
                at.lemma_filter_pred(f, i);
                at.lemma_filter_contains_rev(f, bp);
                assert(at.contains((b, p)));
            }
            if want.contains(bp) {
                assert(at.contains((b, p)));
                let i = choose|i: int| 0 <= i < at.len() && at[i] == bp;
                at.lemma_filter_contains(f, i);
            }
        }
    }
}

proof fn filter_distinct<A>(s: Seq<A>, f: spec_fn(A) -> bool)
    requires
        s.no_duplicates(),
    ensures
        s.filter(f).no_duplicates(),
    decreases s.len(),
{
    reveal(Seq::filter);
    if s.len() > 0 {
        let d = s.drop_last();
        assert(d.no_duplicates());
        filter_distinct(d, f);
        let g = d.filter(f);
        if f(s.last()) {
            assert forall|i: int| 0 <= i < g.len() implies g[i] != s.last() by {
                assert(g.contains(g[i]));
                d.lemma_filter_contains_rev(f, g[i]);
                let k = choose|k: int| 0 <= k < d.len() && d[k] == g[i];
                assert(s[k] != s[s.len() - 1]);
            }
        }
    }
}

proof fn count_by_index<A, B>(rows: Seq<A>, at: Seq<B>, row: A, f: spec_fn(B) -> bool)
    requires
        rows.len() == at.len(),
        forall|i: int| 0 <= i < at.len() ==> (rows[i] == row <==> f(#[trigger] at[i])),
    ensures
        rows.to_multiset().count(row) == at.filter(f).len(),
    decreases rows.len(),
{
    broadcast use vstd::seq_lib::group_to_multiset_ensures;

    reveal(Seq::filter);
    if rows.len() > 0 {
        let r = rows.drop_last();
        let a = at.drop_last();
        assert forall|i: int| 0 <= i < a.len() implies (r[i] == row <==> f(#[trigger] a[i])) by {
            assert(a[i] == at[i]);
        }
        count_by_index(r, a, row, f);
        assert(rows =~= r.push(rows.last()));
        assert(at[at.len() - 1] == at.last());
    }
}

/// The rows of a join are counted, modulo `2^64`.
pub proof fn join_rows_are_counted(start: u64, n: nat)
    ensures
        counted(start, n) as int == (start + n) as int % 0x1_0000_0000_0000_0000,
    decreases n,
{
    let m = 0x1_0000_0000_0000_0000int;
    if n > 0 {
        join_rows_are_counted(start, (n - 1) as nat);
        vstd::arithmetic::div_mod::lemma_add_mod_noop(start + n - 1, 1, m);
        let x = counted(start, (n - 1) as nat);
        if x == u64::MAX {
            assert((x + 1) % m == 0);
        } else {
            vstd::arithmetic::div_mod::lemma_small_mod((x + 1) as nat, m as nat);
        }
        vstd::arithmetic::div_mod::lemma_small_mod(1, m as nat);
    } else {
        vstd::arithmetic::div_mod::lemma_small_mod(start as nat, m as nat);
    }
}

/// Where nothing is joined, every row of the table is a row by itself.
pub proof fn a_single_scan_gives_its_rows(nscans: nat, tables: Seq<Seq<Seq<CellView>>>)
    ensures
        ({
            let rows = plan_rows(None, nscans, tables);
            rows.len() == tables[0].len() && forall|i: int|
                0 <= i < rows.len() ==> (#[trigger] rows[i]).len() == 1 && rows[i][0]
                    == tables[0][i]
        }),
{
}

// ---------------------------------------------------------------------------
// Groups
// ---------------------------------------------------------------------------

/// Whether a row has the values of a key in the columns that are grouped by.
pub open spec fn has_key(group_by: Seq<(usize, usize)>, key: Seq<CellView>, row: RowView) -> bool {
    &&& key.len() == group_by.len()
    &&& forall|i: int|
        0 <= i < key.len() ==> #[trigger] key[i] == row[group_by[i].0 as int][group_by[i].1 as int]
}

/// The rows with a key, in order.
pub open spec fn rows_with(
    group_by: Seq<(usize, usize)>,
    key: Seq<CellView>,
    rows: Seq<RowView>,
) -> Seq<RowView> {
    rows.filter(|r: RowView| has_key(group_by, key, r))
}

/// The integers in a column of some rows; none in the column past all others,
/// which stands for whole rows.
pub open spec fn ints_in(rows: Seq<RowView>, s: usize, p: usize) -> Seq<i64> {
    rows.filter(|r: RowView| p != usize::MAX && r[s as int][p as int] is I).map_values(
        |r: RowView| r[s as int][p as int]->I_0,
    )
}

proof fn key_is(group_by: Seq<(usize, usize)>, key: Seq<CellView>, row: RowView)
    ensures
        has_key(group_by, key, row) <==> key_of(group_by, row) == key,
{
    if has_key(group_by, key, row) {
        assert(key_of(group_by, row) =~= key);
    }
    if key_of(group_by, row) == key {
        assert forall|i: int| 0 <= i < key.len() implies #[trigger] key[i]
            == row[group_by[i].0 as int][group_by[i].1 as int] by {
            assert(key_of(group_by, row)[i] == key[i]);
        }
    }
}

/// The accumulators of a key: there are some exactly where a row has it, and
/// each counts those rows and sums and bounds the integers of its column.
pub proof fn a_key_tallies_its_rows(
    output: Seq<OutExpr>,
    group_by: Seq<(usize, usize)>,
    key: Seq<CellView>,
    rows: Seq<RowView>,
)
    ensures
        match key_accs(output, group_by, key, rows) {
            None => rows_with(group_by, key, rows).len() == 0,
            Some(a) => {
                let mine = rows_with(group_by, key, rows);
                &&& mine.len() > 0
                &&& a.len() == aggs_of(output).len()
                &&& forall|i: int|
                    0 <= i < a.len() ==> tallies(
                        #[trigger] a[i],
                        mine.len() as int,
                        ints_in(mine, aggs_of(output)[i].1, aggs_of(output)[i].2),
                    )
            },
        },
    decreases rows.len(),
{
    reveal(Seq::filter);
    let f = |r: RowView| has_key(group_by, key, r);
    let aggs = aggs_of(output);
    if rows.len() > 0 {
        let d = rows.drop_last();
        let row = rows.last();
        a_key_tallies_its_rows(output, group_by, key, d);
        key_is(group_by, key, row);
        let before = rows_with(group_by, key, d);
        let mine = rows_with(group_by, key, rows);
        if has_key(group_by, key, row) {
            assert(mine == before.push(row));
            let a0 = match key_accs(output, group_by, key, d) {
                Some(a) => a,
                None => Seq::new(aggs.len(), |i: int| Acc::empty()),
            };
            let a = key_accs(output, group_by, key, rows)->0;
            assert forall|i: int| 0 <= i < a.len() implies tallies(
                #[trigger] a[i],
                mine.len() as int,
                ints_in(mine, aggs[i].1, aggs[i].2),
            ) by {
                let (s, p) = (aggs[i].1, aggs[i].2);
                let v = ints_in(before, s, p);
                if key_accs(output, group_by, key, d) is None {
                    assert(before =~= Seq::empty());
                    assert(v =~= Seq::<i64>::empty());
                    assert(tallies(a0[i], 0, Seq::empty()));
                }
                assert(tallies(a0[i], before.len() as int, v));
                let x = match row[s as int][p as int] {
                    CellView::I(x) => x,
                    CellView::S(_) => 0,
                };
                row_acc_tallies(a0[i], before.len() as int, v, a0[i], before.len() as int, v, x);
                let h = |r: RowView| p != usize::MAX && r[s as int][p as int] is I;
                assert(mine.drop_last() =~= before);
                if p != usize::MAX && row[s as int][p as int] is I {
                    assert(ints_in(mine, s, p) =~= v.push(x));
                } else {
                    assert(mine.filter(h) =~= before.filter(h));
                }
            }
        }
    }
}

/// Whether a value is what a function makes of the rows of a group.
pub open spec fn aggregates(f: AggFn, s: usize, p: usize, rows: Seq<RowView>, v: ValView) -> bool {
    let ints = ints_in(rows, s, p);
    match f {
        AggFn::Sum => v is I && same_word(v->I_0 as int, total(ints)),
        AggFn::Count => v is I && same_word(v->I_0 as int, rows.len() as int),
        AggFn::Min => v is I && (exists|hi: i64| #[trigger] spans(v->I_0, hi, ints)),
        AggFn::Max => v is I && (exists|lo: i64| #[trigger] spans(lo, v->I_0, ints)),
        AggFn::Avg => v is F && same_word(v->F_0 as int, total(ints)) && same_word(
            v->F_1 as int,
            rows.len() as int,
        ),
    }
}

/// Whether a value shows a cell.
pub open spec fn shows(v: ValView, c: CellView) -> bool {
    match c {
        CellView::I(n) => v is I && v->I_0 == n,
        CellView::S(t) => v is S && v->S_0 == t,
    }
}

/// Whether a row of a result is that of a group of rows.
pub open spec fn answers(
    output: Seq<OutExpr>,
    group_by: Seq<(usize, usize)>,
    rows: Seq<RowView>,
    out: Seq<ValView>,
) -> bool {
    &&& out.len() == output.len()
    &&& forall|i: int|
        0 <= i < output.len() ==> match #[trigger] output[i] {
            OutExpr::Agg(f, s, p) => aggregates(f, s, p, rows, out[i]),
            OutExpr::Col(s, p) => group_by.contains((s, p)) ==> forall|r: int|
                0 <= r < rows.len() ==> shows(out[i], #[trigger] rows[r][s as int][p as int]),
        }
}

/// Whether every group of rows has one row in a result, and nothing else has.
pub open spec fn one_row_per_key(
    output: Seq<OutExpr>,
    group_by: Seq<(usize, usize)>,
    rows: Seq<RowView>,
    keys: Seq<Seq<CellView>>,
    result: Seq<Seq<ValView>>,
) -> bool {
    &&& keys.no_duplicates()
    &&& keys.len() == result.len()
    &&& forall|r: int|
        0 <= r < rows.len() ==> exists|k: int|
            0 <= k < keys.len() && has_key(group_by, #[trigger] keys[k], #[trigger] rows[r])
    &&& forall|k: int|
        #![trigger keys[k]]
        0 <= k < keys.len() ==> rows_with(group_by, keys[k], rows).len() > 0 && answers(
            output,
            group_by,
            rows_with(group_by, keys[k], rows),
            result[k],
        )
}

proof fn aggs_at(output: Seq<OutExpr>, i: int)
    requires
        0 <= i < output.len(),
        output[i] is Agg,
    ensures
        ({
            let n = aggs_of(output.take(i)).len() as int;
            &&& n < aggs_of(output).len()
            &&& aggs_of(output)[n] == (output[i]->Agg_0, output[i]->Agg_1, output[i]->Agg_2)
        }),
    decreases output.len(),
{
    let d = output.drop_last();
    if i < d.len() {
        aggs_at(d, i);
        assert(d.take(i) =~= output.take(i));
        assert(d[i] == output[i]);
    } else {
        assert(output.take(i) =~= d);
    }
}

proof fn place_is(group_by: Seq<(usize, usize)>, s: usize, p: usize)
    requires
        group_by.contains((s, p)),
    ensures
        group_place(group_by, s, p) is Some,
        0 <= group_place(group_by, s, p)->0 < group_by.len(),
        group_by[group_place(group_by, s, p)->0] == (s, p),
    decreases group_by.len(),
{
    let i = choose|i: int| 0 <= i < group_by.len() && group_by[i] == (s, p);
    let d = group_by.drop_last();
    if group_by.last() != (s, p) {
        assert(d[i] == (s, p));
        place_is(d, s, p);
    }
}

/// An accumulator's results are those of its rows.
pub proof fn results_are_of_the_rows(
    a: Acc,
    f: AggFn,
    s: usize,
    p: usize,
    rows: Seq<RowView>,
)
    requires
        tallies(a, rows.len() as int, ints_in(rows, s, p)),
    ensures
        aggregates(f, s, p, rows, a.yields(f)),
{
    let ints = ints_in(rows, s, p);
    let v = a.yields(f);
    match f {
        AggFn::Sum => {
            assert(v is I && v->I_0 == a.sum);
        },
        AggFn::Count => {
            assert(v is I && v->I_0 == a.count);
        },
        AggFn::Min => {
            assert(v is I && v->I_0 == a.min);
            assert(spans(v->I_0, a.max, ints));
        },
        AggFn::Max => {
            assert(v is I && v->I_0 == a.max);
            assert(spans(a.min, v->I_0, ints));
        },
        AggFn::Avg => {
            assert(v is F && v->F_0 == a.sum && v->F_1 == a.count);
        },
    }
}

proof fn group_answers(
    output: Seq<OutExpr>,
    group_by: Seq<(usize, usize)>,
    rows: Seq<RowView>,
    g: GroupView,
)
    requires
        key_accs(output, group_by, g.key, rows) == Some(g.accs),
    ensures
        rows_with(group_by, g.key, rows).len() > 0,
        answers(
            output,
            group_by,
            rows_with(group_by, g.key, rows),
            group_row(output, group_by, g),
        ),
{
    a_key_tallies_its_rows(output, group_by, g.key, rows);
    let mine = rows_with(group_by, g.key, rows);
    let out = group_row(output, group_by, g);
    assert forall|i: int| 0 <= i < output.len() implies match #[trigger] output[i] {
        OutExpr::Agg(f, s, p) => aggregates(f, s, p, mine, out[i]),
        OutExpr::Col(s, p) => group_by.contains((s, p)) ==> forall|r: int|
            0 <= r < mine.len() ==> shows(out[i], #[trigger] mine[r][s as int][p as int]),
    } by {
        match output[i] {
            OutExpr::Agg(f, s, p) => {
                aggs_at(output, i);
                let n = aggs_of(output.take(i)).len() as int;
                assert(tallies(g.accs[n], mine.len() as int, ints_in(mine, s, p)));
                results_are_of_the_rows(g.accs[n], f, s, p, mine);
            },
            OutExpr::Col(s, p) => {
                if group_by.contains((s, p)) {
                    place_is(group_by, s, p);
                    let k = group_place(group_by, s, p)->0;
                    assert forall|r: int| 0 <= r < mine.len() implies shows(
                        out[i],
                        #[trigger] mine[r][s as int][p as int],
                    ) by {
                        let f = |x: RowView| has_key(group_by, g.key, x);
                        rows.lemma_filter_pred(f, r);
                        assert(has_key(group_by, g.key, mine[r]));
                        assert(g.key[k] == mine[r][s as int][p as int]);
                    }
                }
            },
        }
    }
}

proof fn found_first(g: Seq<GroupView>, k: int)
    requires
        keys_distinct(g),
        0 <= k < g.len(),
    ensures
        accs_of(g, g[k].key) == Some(g[k].accs),
    decreases g.len(),
{
    if k > 0 {
        assert(g[0].key != g[k].key);
        let t = g.skip(1);
        assert forall|i: int, j: int| 0 <= i < j < t.len() implies (#[trigger] t[i]).key != (
        #[trigger] t[j]).key by {
            assert(g[i + 1].key != g[j + 1].key);
        }
        found_first(t, k - 1);
        assert(t[k - 1] == g[k]);
        assert(accs_of(t, g[k].key) == Some(g[k].accs));
    }
}

proof fn found_somewhere(g: Seq<GroupView>, key: Seq<CellView>)
    ensures
        accs_of(g, key) is Some ==> exists|k: int| 0 <= k < g.len() && (#[trigger] g[k]).key == key,
    decreases g.len(),
{
    if g.len() > 0 && g[0].key != key {
        let t = g.skip(1);
        found_somewhere(t, key);
        if accs_of(g, key) is Some {
            assert(accs_of(t, key) is Some);
            let k = choose|k: int| 0 <= k < t.len() && (#[trigger] t[k]).key == key;
            assert(g[k + 1].key == key);
        }
    }
}

/// A query that aggregates has one row for each key among its rows. In it an
/// aggregate is that of the rows with the key, and a column that is grouped by
/// has the value that they share.
pub proof fn every_group_is_answered(
    output: Seq<OutExpr>,
    group_by: Seq<(usize, usize)>,
    rows: Seq<RowView>,
)
    requires
        exists|i: int| 0 <= i < output.len() && (#[trigger] output[i]) is Agg,
    ensures
        exists|keys: Seq<Seq<CellView>>| #[trigger]
            one_row_per_key(
                output,
                group_by,
                rows,
                keys,
                result_rows(output, group_by, fed_all(output, group_by, nothing(), rows)),
            ),
{
    let i0 = choose|i: int| 0 <= i < output.len() && (#[trigger] output[i]) is Agg;
    aggs_at(output, i0);
    let p = fed_all(output, group_by, nothing(), rows);
    let g = p.groups;
    let keys = Seq::new(g.len(), |k: int| g[k].key);
    let result = result_rows(output, group_by, p);
    groups_hold_their_rows(output, group_by, rows, Seq::empty());
    crate::engine::laws::no_plain_rows(output, group_by, rows);
    assert(result =~= Seq::new(g.len(), |k: int| group_row(output, group_by, g[k])));
    assert forall|a: int, b: int| 0 <= a < keys.len() && 0 <= b < keys.len() && a != b implies keys[a]
        != keys[b] by {
        if a < b {
            assert(g[a].key != g[b].key);
        } else {
            assert(g[b].key != g[a].key);
        }
    }
    assert forall|k: int| #![trigger keys[k]] 0 <= k < keys.len() implies rows_with(
        group_by,
        keys[k],
        rows,
    ).len() > 0 && answers(output, group_by, rows_with(group_by, keys[k], rows), result[k]) by {
        found_first(g, k);
        groups_hold_their_rows(output, group_by, rows, g[k].key);
        group_answers(output, group_by, rows, g[k]);
    }
    assert forall|r: int| 0 <= r < rows.len() implies exists|k: int|
        0 <= k < keys.len() && has_key(group_by, #[trigger] keys[k], #[trigger] rows[r]) by {
        let key = key_of(group_by, rows[r]);
        key_is(group_by, key, rows[r]);
        groups_hold_their_rows(output, group_by, rows, key);
        a_key_tallies_its_rows(output, group_by, key, rows);
        let f = |x: RowView| has_key(group_by, key, x);
        rows.lemma_filter_contains(f, r);
        assert(rows_with(group_by, key, rows).len() > 0);
        found_somewhere(g, key);
        let k = choose|k: int| 0 <= k < g.len() && (#[trigger] g[k]).key == key;
        assert(keys[k] == key);
    }
    assert(keys.no_duplicates());
    assert(keys.len() == result.len());
    assert(one_row_per_key(output, group_by, rows, keys, result));
}

/// A query that does not aggregate has a row for each of its rows, with the
/// cells that are selected.
pub proof fn every_row_is_answered(
    output: Seq<OutExpr>,
    group_by: Seq<(usize, usize)>,
    rows: Seq<RowView>,
)
    requires
        forall|i: int| 0 <= i < output.len() ==> (#[trigger] output[i]) is Col,
    ensures
        ({
            let result = result_rows(
                output,
                group_by,
                fed_all(output, group_by, nothing(), rows),
            );
            &&& result.len() == rows.len()
            &&& forall|r: int|
                #![trigger result[r]]
                0 <= r < rows.len() ==> result[r].len() == output.len() && forall|i: int|
                    0 <= i < output.len() ==> shows(
                        #[trigger] result[r][i],
                        rows[r][output[i]->Col_0 as int][output[i]->Col_1 as int],
                    )
        }),
{
    no_aggs(output);
    crate::engine::laws::no_plain_rows(output, group_by, rows);
}

proof fn no_aggs(output: Seq<OutExpr>)
    requires
        forall|i: int| 0 <= i < output.len() ==> (#[trigger] output[i]) is Col,
    ensures
        aggs_of(output).len() == 0,
    decreases output.len(),
{
    if output.len() > 0 {
        let d = output.drop_last();
        assert forall|i: int| 0 <= i < d.len() implies (#[trigger] d[i]) is Col by {
            assert(d[i] == output[i]);
        }
        no_aggs(d);
        assert(output[output.len() - 1] is Col);
    }
}

// ---------------------------------------------------------------------------
// Orders
// ---------------------------------------------------------------------------

/// Rows put in order are the same rows, each as often.
pub proof fn an_order_keeps_every_row(
    rows: Seq<Seq<ValView>>,
    pos: int,
    ranks: Seq<u64>,
    desc: bool,
    out: Seq<Seq<ValView>>,
)
    requires
        rows.len() <= usize::MAX,
        ordered(rows, order_keys(rows, pos, ranks), desc, out),
    ensures
        out.len() == rows.len(),
        out.to_multiset() == rows.to_multiset(),
{
    let at = choose|at: Seq<usize>|
        #[trigger] sorts(row_order(order_keys(rows, pos, ranks), desc), rows.len(), at) && out
            == taken(rows, at);
    taken_rearranges(rows, at);
}

/// Rows put in order of a column of integers ascend by it, or descend.
pub proof fn ordered_integers_ascend(
    rows: Seq<Seq<ValView>>,
    pos: int,
    ranks: Seq<u64>,
    desc: bool,
    out: Seq<Seq<ValView>>,
    a: int,
    b: int,
)
    requires
        ordered(rows, order_keys(rows, pos, ranks), desc, out),
        forall|i: int| 0 <= i < rows.len() ==> (#[trigger] rows[i])[pos] is I,
        0 <= a < b < out.len(),
    ensures
        out[a][pos] is I,
        out[b][pos] is I,
        !desc ==> out[a][pos]->I_0 <= out[b][pos]->I_0,
        desc ==> out[a][pos]->I_0 >= out[b][pos]->I_0,
{
    let keys = order_keys(rows, pos, ranks);
    let less = row_order(keys, desc);
    let at = choose|at: Seq<usize>| #[trigger] sorts(less, rows.len(), at) && out == taken(rows, at);
    assert(at[a] < rows.len() && at[b] < rows.len());
    assert(rows[0][pos] is I);
    assert(rows[at[a] as int][pos] is I && rows[at[b] as int][pos] is I);
    assert(goes_before(less, at[a] as int, at[b] as int));
    assert(less(at[a] as int, at[b] as int) == keys.before(desc, at[a] as int, at[b] as int));
    assert(less(at[b] as int, at[a] as int) == keys.before(desc, at[b] as int, at[a] as int));
}

/// Rows put in order of a column of texts ascend by it, or descend.
pub proof fn ordered_texts_ascend(
    rows: Seq<Seq<ValView>>,
    pos: int,
    ranks: Seq<u64>,
    desc: bool,
    out: Seq<Seq<ValView>>,
    a: int,
    b: int,
)
    requires
        ordered(rows, order_keys(rows, pos, ranks), desc, out),
        forall|i: int| 0 <= i < rows.len() ==> (#[trigger] rows[i])[pos] is S,
        0 <= a < b < out.len(),
    ensures
        out[a][pos] is S,
        out[b][pos] is S,
        !desc ==> !text_lt(out[b][pos]->S_0, out[a][pos]->S_0),
        desc ==> !text_lt(out[a][pos]->S_0, out[b][pos]->S_0),
{
    let keys = order_keys(rows, pos, ranks);
    let less = row_order(keys, desc);
    let at = choose|at: Seq<usize>| #[trigger] sorts(less, rows.len(), at) && out == taken(rows, at);
    assert(at[a] < rows.len() && at[b] < rows.len());
    assert(rows[0][pos] is S);
    assert(rows[at[a] as int][pos] is S && rows[at[b] as int][pos] is S);
    assert(goes_before(less, at[a] as int, at[b] as int));
    assert(less(at[a] as int, at[b] as int) == keys.before(desc, at[a] as int, at[b] as int));
    assert(less(at[b] as int, at[a] as int) == keys.before(desc, at[b] as int, at[a] as int));
    let (x, y) = (rows[at[a] as int][pos]->S_0, rows[at[b] as int][pos]->S_0);
    crate::text::text_lt_total(x, y);
}

/// A limit keeps so many rows from the front, or all where there are fewer.
pub proof fn a_limit_keeps_the_front(rows: Seq<Seq<ValView>>, limit: Option<usize>)
    ensures
        ({
            let out = limited(rows, limit);
            &&& out.len() <= rows.len()
            &&& limit is None ==> out.len() == rows.len()
            &&& limit matches Some(n) ==> out.len() == n || (out.len() < n && out.len()
                == rows.len())
            &&& forall|i: int| 0 <= i < out.len() ==> #[trigger] out[i] == rows[i]
        }),
{
}

/// Rows that tie in an order keep the order they had.
pub proof fn ties_keep_their_order(
    rows: Seq<Seq<ValView>>,
    keys: OrderKeys,
    desc: bool,
    out: Seq<Seq<ValView>>,
)
    requires
        ordered(rows, keys, desc, out),
    ensures
        exists|at: Seq<usize>|
            at.len() == rows.len() && out == #[trigger] taken(rows, at) && forall|i: int, j: int|
                0 <= i < j < at.len() && !keys.before(
                    desc,
                    (#[trigger] at[i]) as int,
                    (#[trigger] at[j]) as int,
                ) ==> at[i] < at[j],
{
    let less = row_order(keys, desc);
    let at = choose|at: Seq<usize>| #[trigger] sorts(less, rows.len(), at) && out == taken(rows, at);
    assert forall|i: int, j: int| 0 <= i < j < at.len() && !keys.before(
        desc,
        (#[trigger] at[i]) as int,
        (#[trigger] at[j]) as int,
    ) implies at[i] < at[j] by {
        assert(!less(at[i] as int, at[j] as int));
    }
    assert(out == taken(rows, at));
}

/// A count that goes on modulo `2^64`.
pub proof fn counts_go_on(a: u64, b: u64)
    ensures
        a.wrapping_add(b) as int == (a + b) % 0x1_0000_0000_0000_0000,
{
    let m = 0x1_0000_0000_0000_0000int;
    if a + b < m {
        vstd::arithmetic::div_mod::lemma_small_mod((a + b) as nat, m as nat);
    } else {
        vstd::arithmetic::div_mod::lemma_fundamental_div_mod_converse(a + b, m, 1, a + b - m);
    }
}

/// Merged partial states have the rows of the first and then of the second,
/// and count the joined and the scanned rows of both, modulo `2^64`.
pub proof fn a_merge_keeps_rows_and_counts(a: PartialView, b: PartialView)
    ensures
        ({
            let m = merge_partial(a, b);
            &&& m.rows == a.rows + b.rows
            &&& m.joined_rows as int == (a.joined_rows + b.joined_rows) % 0x1_0000_0000_0000_0000
            &&& m.scanned_rows as int == (a.scanned_rows + b.scanned_rows)
                % 0x1_0000_0000_0000_0000
        }),
{
    counts_go_on(a.joined_rows, b.joined_rows);
    counts_go_on(a.scanned_rows, b.scanned_rows);
}

/// What counts as scanned: the rows of the only table, of the side that
/// probes, or of both sides where both are parted.
pub proof fn scanned_rows_are_counted(
    join: Option<JoinNode>,
    tables: Seq<Seq<Seq<CellView>>>,
)
    requires
        forall|i: int| 0 <= i < tables.len() ==> (#[trigger] tables[i]).len() < 0x8000_0000_0000_0000,
        tables.len() > 0,
        join matches Some(j) ==> j.build < tables.len() && j.probe < tables.len(),
    ensures
        join is None ==> plan_scanned(join, tables) == tables[0].len(),
        join matches Some(j) ==> plan_scanned(join, tables) == tables[j.probe as int].len() + if j.strategy
            is Broadcast {
            0
        } else {
            tables[j.build as int].len()
        },
{
    assert(tables[0].len() < 0x8000_0000_0000_0000);
    if let Some(j) = join {
        assert(tables[j.build as int].len() < 0x8000_0000_0000_0000);
        assert(tables[j.probe as int].len() < 0x8000_0000_0000_0000);
    }
}

/// A column of a printed result is as wide as the longest of its texts and its
/// heading.
pub proof fn a_column_is_as_wide_as_its_longest_text(
    header: Seq<Seq<char>>,
    rows: Seq<Seq<Seq<char>>>,
    c: int,
)
    requires
        0 <= c < header.len(),
        forall|r: int| 0 <= r < rows.len() ==> c < (#[trigger] rows[r]).len(),
    ensures
        ({
            let w = width(header, rows, c);
            &&& encode_utf8(header[c]).len() <= w
            &&& forall|r: int| 0 <= r < rows.len() ==> encode_utf8((#[trigger] rows[r])[c]).len() <= w
            &&& w == encode_utf8(header[c]).len() || exists|r: int|
                0 <= r < rows.len() && encode_utf8((#[trigger] rows[r])[c]).len() == w
        }),
    decreases rows.len(),
{
    if rows.len() > 0 {
        let d = rows.drop_last();
        assert forall|r: int| 0 <= r < d.len() implies c < (#[trigger] d[r]).len() by {
            assert(d[r] == rows[r]);
        }
        a_column_is_as_wide_as_its_longest_text(header, d, c);
        assert(rows[rows.len() - 1] == rows.last());
        let (w, v) = (width(header, rows, c), width(header, d, c));
        assert forall|r: int| 0 <= r < rows.len() implies encode_utf8((#[trigger] rows[r])[c]).len()
            <= w by {
            if r < d.len() {
                assert(d[r] == rows[r]);
            }
        }
        if w == v && v != encode_utf8(header[c]).len() {
            let r = choose|r: int| 0 <= r < d.len() && encode_utf8((#[trigger] d[r])[c]).len() == v;
            assert(rows[r] == d[r]);
        }
    }
}

/// An output column is headed by the column's name, an aggregate by its own
/// name and the column's in brackets, or a star where it is of all rows.
pub proof fn a_heading_names_its_column(scans: Seq<ScanView>, f: AggFn, s: usize, p: usize)
    ensures
        heading(scans, OutExpr::Col(s, p)) == scans[s as int].cols[p as int].name,
        heading(scans, OutExpr::Agg(f, s, usize::MAX)) == agg_word(f) + "(*)"@,
        p != usize::MAX ==> heading(scans, OutExpr::Agg(f, s, p)) == agg_word(f) + "("@
            + scans[s as int].cols[p as int].name + ")"@,
{
}

/// The lines of a printed result are as wide as its rules, where no cell is
/// wider than its column.
pub proof fn lines_are_as_wide_as_rules(cs: Seq<Seq<char>>, ws: Seq<nat>, left: bool)
    requires
        cs.len() == ws.len(),
        forall|i: int| 0 <= i < cs.len() ==> (#[trigger] cs[i]).len() <= ws[i],
    ensures
        bar_cells(cs, ws, left).len() == rule_cells(ws).len(),
        bar_cells(cs, ws, left)[0] == '|',
        rule_cells(ws)[0] == '+',
        cs.len() > 0 ==> bar_cells(cs, ws, left).last() == '|' && rule_cells(ws).last() == '+',
    decreases cs.len(),
{
    if cs.len() > 0 {
        let (c, w) = (cs.drop_last(), ws.drop_last());
        assert forall|i: int| 0 <= i < c.len() implies (#[trigger] c[i]).len() <= w[i] by {
            assert(c[i] == cs[i]);
        }
        lines_are_as_wide_as_rules(c, w, left);
        bars_of_front(c, ws, left);
        assert(cs[cs.len() - 1].len() <= ws[cs.len() - 1]);
    }
}

proof fn bars_of_front(cs: Seq<Seq<char>>, ws: Seq<nat>, left: bool)
    requires
        cs.len() < ws.len(),
    ensures
        bar_cells(cs, ws, left) == bar_cells(cs, ws.take(cs.len() as int), left),
        cs.len() == ws.len() - 1 ==> ws.take(cs.len() as int) == ws.drop_last(),
    decreases cs.len(),
{
    let n = cs.len() as int;
    if n > 0 {
        bars_of_front(cs.drop_last(), ws, left);
        bars_of_front(cs.drop_last(), ws.take(n), left);
        assert(ws.take(n).take(n - 1) =~= ws.take(n - 1));
    }
    assert(n == ws.len() - 1 ==> ws.take(n) =~= ws.drop_last());
}

/// A key goes to the partition of its remainder by their number, which is never
/// negative.
pub proof fn a_key_goes_to_one_partition(k: i64, n: int)
    requires
        n > 0,
    ensures
        0 <= partition_of(k, n) < n,
        exists|q: int| k == #[trigger] (q * n) + partition_of(k, n),
{
    vstd::arithmetic::div_mod::lemma_fundamental_div_mod(k as int, n);
    vstd::arithmetic::mul::lemma_mul_is_commutative(n, k as int / n);
    assert(k == (k as int / n) * n + partition_of(k, n));
}

} // verus!
