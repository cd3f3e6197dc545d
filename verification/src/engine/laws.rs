//! What holds of every query: neither the join strategy, nor the order of
//! rows, nor how they are split among tasks changes what is computed.
use crate::engine::execute::{executed, int_col, nothing, runs, same_rows_fit, shuffled};
use crate::engine::finish::{
    group_row, keys_order, limited, merge_groups, merged_accs, order_keys, ordered, result_rows, row_order, OrderKeys,
};
use crate::engine::join::{joined, matches_of, paired, part_rows, partition_of, probed};
use crate::engine::pipeline::{
    acc_step, accs_step, aggs_of, fed_all, key_of, no_accs, plain_row, RowView,
};
use crate::engine::values::{acc_merge_laws, accs_of, group_at, Acc, CellView, GroupView, ValView};
use crate::plan::ast::AggFn;
use crate::plan::physical::{JoinNode, JoinStrategy, OutExpr};
use crate::sort::{goes_before, sorts, taken, taken_rearranges};
use crate::text::{bytes_lt_transitive, text_lt, text_lt_total};
use vstd::utf8::encode_utf8;
use vstd::relations::{sorted_by, total_ordering};
use vstd::prelude::*;
use vstd::seq_lib::{
    commutative_foldl, group_to_multiset_ensures, lemma_fold_left_permutation,
    lemma_multiset_commutative, lemma_sorted_unique,
};

verus! {

// ---------------------------------------------------------------------------
// Shuffle and broadcast
// ---------------------------------------------------------------------------

/// The build rows with a key, in order.
spec fn keyed(build: Seq<Seq<CellView>>, pos: int, k: i64) -> Seq<Seq<CellView>>
    decreases build.len(),
{
    if build.len() == 0 {
        Seq::empty()
    } else {
        let m = keyed(build.drop_last(), pos, k);
        if build.last()[pos] == CellView::I(k) { m.push(build.last()) } else { m }
    }
}

spec fn pair_all(nscans: nat, j: JoinNode, bs: Seq<Seq<CellView>>, p: Seq<CellView>) -> Seq<
    RowView,
> {
    Seq::new(bs.len(), |i: int| paired(nscans, j, bs[i], p))
}

proof fn matches_are_keyed(build: Seq<Seq<CellView>>, pos: int, k: i64)
    requires
        build.len() <= usize::MAX,
    ensures
        matches_of(build, pos, k).len() == keyed(build, pos, k).len(),
        forall|i: int|
            0 <= i < matches_of(build, pos, k).len() ==> (#[trigger] matches_of(build, pos, k)[i])
                < build.len() && build[matches_of(build, pos, k)[i] as int] == keyed(
                build,
                pos,
                k,
            )[i],
    decreases build.len(),
{
    if build.len() > 0 {
        let d = build.drop_last();
        matches_are_keyed(d, pos, k);
        let m = matches_of(build, pos, k);
        assert forall|i: int| 0 <= i < m.len() implies (#[trigger] m[i]) < build.len()
            && build[m[i] as int] == keyed(build, pos, k)[i] by {
            if i < matches_of(d, pos, k).len() {
                assert(m[i] == matches_of(d, pos, k)[i]);
                assert(d[m[i] as int] == build[m[i] as int]);
            }
        }
    }
}

proof fn probed_is_pair_all(
    nscans: nat,
    j: JoinNode,
    build: Seq<Seq<CellView>>,
    p: Seq<CellView>,
    k: i64,
)
    requires
        build.len() <= usize::MAX,
        p[j.probe_key as int] == CellView::I(k),
    ensures
        probed(nscans, j, build, p) == pair_all(
            nscans,
            j,
            keyed(build, j.build_key as int, k),
            p,
        ),
{
    matches_are_keyed(build, j.build_key as int, k);
    let m = matches_of(build, j.build_key as int, k);
    assert forall|i: int| 0 <= i < m.len() implies #[trigger] probed(nscans, j, build, p)[i]
        == pair_all(nscans, j, keyed(build, j.build_key as int, k), p)[i] by {
        assert(m[i] < build.len());
    }
    assert(probed(nscans, j, build, p) =~= pair_all(
        nscans,
        j,
        keyed(build, j.build_key as int, k),
        p,
    ));
}

/// A key's rows are all in its partition.
proof fn keyed_in_partition(build: Seq<Seq<CellView>>, pos: int, n: int, k: i64)
    ensures
        keyed(part_rows(build, pos, n, partition_of(k, n)), pos, k) == keyed(build, pos, k),
    decreases build.len(),
{
    if build.len() > 0 {
        let d = build.drop_last();
        let p = partition_of(k, n);
        keyed_in_partition(d, pos, n, k);
        let m = part_rows(d, pos, n, p);
        if part_rows(build, pos, n, p) != m {
            assert(m.push(build.last()).drop_last() =~= m);
        }
    }
}

proof fn part_rows_len(rows: Seq<Seq<CellView>>, pos: int, n: int, p: int)
    ensures
        part_rows(rows, pos, n, p).len() <= rows.len(),
    decreases rows.len(),
{
    if rows.len() > 0 {
        part_rows_len(rows.drop_last(), pos, n, p);
    }
}

/// One more probe row adds its pairs to its partition and to no other.
proof fn shuffled_next(
    nscans: nat,
    j: JoinNode,
    build: Seq<Seq<CellView>>,
    probe: Seq<Seq<CellView>>,
    n: int,
    upto: nat,
    k: i64,
)
    requires
        build.len() <= usize::MAX,
        probe.len() > 0,
        probe.last()[j.probe_key as int] == CellView::I(k),
        n > 0,
    ensures
        shuffled(nscans, j, build, probe, n, upto).to_multiset() == (if partition_of(k, n) < upto {
            shuffled(nscans, j, build, probe.drop_last(), n, upto).to_multiset().add(
                probed(nscans, j, build, probe.last()).to_multiset(),
            )
        } else {
            shuffled(nscans, j, build, probe.drop_last(), n, upto).to_multiset()
        }),
    decreases upto,
{
    if upto > 0 {
        let d = probe.drop_last();
        let x = probe.last();
        let p = upto - 1;
        let bp = part_rows(build, j.build_key as int, n, p);
        let dp = part_rows(d, j.probe_key as int, n, p);
        let pp = part_rows(probe, j.probe_key as int, n, p);
        shuffled_next(nscans, j, build, probe, n, (upto - 1) as nat, k);
        let s1 = shuffled(nscans, j, build, probe, n, (upto - 1) as nat);
        let s0 = shuffled(nscans, j, build, d, n, (upto - 1) as nat);
        lemma_multiset_commutative(s1, joined(nscans, j, bp, pp));
        lemma_multiset_commutative(s0, joined(nscans, j, bp, dp));
        if partition_of(k, n) == p {
            assert(pp == dp.push(x));
            assert(pp.drop_last() =~= dp);
            part_rows_len(build, j.build_key as int, n, p);
            probed_is_pair_all(nscans, j, bp, x, k);
            probed_is_pair_all(nscans, j, build, x, k);
            keyed_in_partition(build, j.build_key as int, n, k);
            lemma_multiset_commutative(joined(nscans, j, bp, dp), probed(nscans, j, bp, x));
            assert(shuffled(nscans, j, build, probe, n, upto).to_multiset() =~= shuffled(
                nscans,
                j,
                build,
                d,
                n,
                upto,
            ).to_multiset().add(probed(nscans, j, build, x).to_multiset()));
        } else {
            assert(pp == dp);
            if partition_of(k, n) < upto {
                assert(shuffled(nscans, j, build, probe, n, upto).to_multiset() =~= shuffled(
                    nscans,
                    j,
                    build,
                    d,
                    n,
                    upto,
                ).to_multiset().add(probed(nscans, j, build, x).to_multiset()));
            }
        }
    }
}

proof fn shuffled_nothing(
    nscans: nat,
    j: JoinNode,
    build: Seq<Seq<CellView>>,
    probe: Seq<Seq<CellView>>,
    n: int,
    upto: nat,
)
    requires
        probe.len() == 0,
    ensures
        shuffled(nscans, j, build, probe, n, upto).len() == 0,
    decreases upto,
{
    if upto > 0 {
        shuffled_nothing(nscans, j, build, probe, n, (upto - 1) as nat);
    }
}

/// A shuffled join yields the same rows as a broadcast one, each as often.
pub proof fn shuffle_joins_as_broadcast(
    nscans: nat,
    j: JoinNode,
    build: Seq<Seq<CellView>>,
    probe: Seq<Seq<CellView>>,
    parts: nat,
)
    requires
        parts > 0,
        build.len() <= usize::MAX,
        int_col(probe, j.probe_key as int),
    ensures
        shuffled(nscans, j, build, probe, parts as int, parts).to_multiset() == joined(
            nscans,
            j,
            build,
            probe,
        ).to_multiset(),
    decreases probe.len(),
{
    if probe.len() == 0 {
        shuffled_nothing(nscans, j, build, probe, parts as int, parts);
        assert(shuffled(nscans, j, build, probe, parts as int, parts) =~= joined(
            nscans,
            j,
            build,
            probe,
        ));
    } else {
        let d = probe.drop_last();
        let x = probe.last();
        assert(probe[probe.len() - 1][j.probe_key as int] is I);
        assert forall|i: int| 0 <= i < d.len() implies (#[trigger] d[i])[j.probe_key as int] is I
            && j.probe_key < d[i].len() by {
            assert(probe[i][j.probe_key as int] is I);
            assert(j.probe_key < probe[i].len());
        }
        let k = x[j.probe_key as int]->I_0;
        shuffle_joins_as_broadcast(nscans, j, build, d, parts);
        shuffled_next(nscans, j, build, probe, parts as int, parts, k);
        lemma_multiset_commutative(joined(nscans, j, build, d), probed(nscans, j, build, x));
    }
}

// ---------------------------------------------------------------------------
// Groups
// ---------------------------------------------------------------------------

/// Whether no key stands twice.
pub open spec fn keys_distinct(g: Seq<GroupView>) -> bool {
    forall|i: int, j: int| 0 <= i < j < g.len() ==> (#[trigger] g[i]).key != (#[trigger] g[j]).key
}

proof fn group_at_is(g: Seq<GroupView>, key: Seq<CellView>)
    ensures
        group_at(g, key) <= g.len(),
        group_at(g, key) < g.len() ==> g[group_at(g, key) as int].key == key,
        forall|i: int| 0 <= i < group_at(g, key) ==> (#[trigger] g[i]).key != key,
    decreases g.len(),
{
    if g.len() > 0 && g[0].key != key {
        group_at_is(g.skip(1), key);
        assert forall|i: int| 0 <= i < group_at(g, key) implies (#[trigger] g[i]).key != key by {
            if i > 0 {
                assert(g.skip(1)[i - 1].key != key);
            }
        }
    }
}

proof fn group_at_unique(g: Seq<GroupView>, key: Seq<CellView>, n: int)
    requires
        0 <= n <= g.len(),
        forall|i: int| 0 <= i < n ==> (#[trigger] g[i]).key != key,
        n < g.len() ==> g[n].key == key,
    ensures
        group_at(g, key) == n,
    decreases g.len(),
{
    if n > 0 {
        assert(g[0].key != key);
        assert forall|i: int| 0 <= i < n - 1 implies (#[trigger] g.skip(1)[i]).key != key by {
            assert(g.skip(1)[i] == g[i + 1]);
        }
        group_at_unique(g.skip(1), key, n - 1);
    }
}

/// Changing what a key has leaves the other keys alone.
proof fn put_keeps_others(g: Seq<GroupView>, k: Seq<CellView>, accs: Seq<Acc>, key: Seq<CellView>)
    ensures
        ({
            let i = group_at(g, k) as int;
            let h = if i < g.len() {
                g.update(i, GroupView { key: g[i].key, accs })
            } else {
                g.push(GroupView { key: k, accs })
            };
            &&& accs_of(h, k) == Some(accs)
            &&& key != k ==> accs_of(h, key) == accs_of(g, key)
            &&& keys_distinct(g) ==> keys_distinct(h)
        }),
{
    let i = group_at(g, k) as int;
    let h = if i < g.len() {
        g.update(i, GroupView { key: g[i].key, accs })
    } else {
        g.push(GroupView { key: k, accs })
    };
    group_at_is(g, k);
    group_at_is(g, key);
    group_at_unique(h, k, i);
    if key != k {
        let n = group_at(g, key) as int;
        if n < g.len() {
            assert(h[n].key == key);
            assert forall|x: int| 0 <= x < n implies (#[trigger] h[x]).key != key by {
                assert(g[x].key != key);
            }
            group_at_unique(h, key, n);
        } else {
            assert forall|x: int| 0 <= x < h.len() implies (#[trigger] h[x]).key != key by {
                if x < g.len() {
                    assert(g[x].key != key);
                }
            }
            group_at_unique(h, key, h.len() as int);
        }
    }
}

/// What one row does to the accumulators of one key.
pub open spec fn key_step(
    output: Seq<OutExpr>,
    group_by: Seq<(usize, usize)>,
    key: Seq<CellView>,
    a: Option<Seq<Acc>>,
    row: RowView,
) -> Option<Seq<Acc>> {
    if key_of(group_by, row) != key {
        a
    } else {
        let aggs = aggs_of(output);
        match a {
            Some(accs) => Some(accs_step(accs, aggs, row)),
            None => Some(accs_step(no_accs(aggs.len()), aggs, row)),
        }
    }
}

/// The accumulators of a key after some rows.
pub open spec fn key_accs(
    output: Seq<OutExpr>,
    group_by: Seq<(usize, usize)>,
    key: Seq<CellView>,
    rows: Seq<RowView>,
) -> Option<Seq<Acc>> {
    rows.fold_left(
        None::<Seq<Acc>>,
        |a: Option<Seq<Acc>>, row: RowView| key_step(output, group_by, key, a, row),
    )
}

/// A group holds what its rows make of it, whatever rows of other groups came
/// between.
pub proof fn groups_hold_their_rows(
    output: Seq<OutExpr>,
    group_by: Seq<(usize, usize)>,
    rows: Seq<RowView>,
    key: Seq<CellView>,
)
    requires
        aggs_of(output).len() > 0,
    ensures
        accs_of(fed_all(output, group_by, nothing(), rows).groups, key) == key_accs(
            output,
            group_by,
            key,
            rows,
        ),
        keys_distinct(fed_all(output, group_by, nothing(), rows).groups),
    decreases rows.len(),
{
    if rows.len() > 0 {
        let d = rows.drop_last();
        let row = rows.last();
        let g = fed_all(output, group_by, nothing(), d).groups;
        let aggs = aggs_of(output);
        let k = key_of(group_by, row);
        groups_hold_their_rows(output, group_by, d, key);
        let i = group_at(g, k) as int;
        group_at_is(g, k);
        let accs = if i < g.len() {
            accs_step(g[i].accs, aggs, row)
        } else {
            accs_step(no_accs(aggs.len()), aggs, row)
        };
        put_keeps_others(g, k, accs, key);
    }
}

proof fn acc_step_commutes(a: Acc, agg: (AggFn, usize, usize), x: RowView, y: RowView)
    ensures
        acc_step(acc_step(a, agg, x), agg, y) == acc_step(acc_step(a, agg, y), agg, x),
{
}

proof fn key_step_commutes(
    output: Seq<OutExpr>,
    group_by: Seq<(usize, usize)>,
    key: Seq<CellView>,
)
    ensures
        commutative_foldl(
            |a: Option<Seq<Acc>>, row: RowView| key_step(output, group_by, key, a, row),
        ),
{
    let f = |a: Option<Seq<Acc>>, row: RowView| key_step(output, group_by, key, a, row);
    let aggs = aggs_of(output);
    assert forall|x: RowView, y: RowView, v: Option<Seq<Acc>>| #[trigger] f(f(v, x), y) == f(
        f(v, y),
        x,
    ) by {
        if key_of(group_by, x) == key && key_of(group_by, y) == key {
            let s = match v {
                Some(accs) => accs,
                None => no_accs(aggs.len()),
            };
            assert forall|i: int| 0 <= i < s.len() implies #[trigger] accs_step(
                accs_step(s, aggs, x),
                aggs,
                y,
            )[i] == accs_step(accs_step(s, aggs, y), aggs, x)[i] by {
                acc_step_commutes(s[i], aggs[i], x, y);
            }
            assert(accs_step(accs_step(s, aggs, x), aggs, y) =~= accs_step(
                accs_step(s, aggs, y),
                aggs,
                x,
            ));
        }
    }
}

/// Aggregates do not depend on the order of rows: the same rows, each as
/// often, give every group the same accumulators.
pub proof fn aggregates_ignore_order(
    output: Seq<OutExpr>,
    group_by: Seq<(usize, usize)>,
    a: Seq<RowView>,
    b: Seq<RowView>,
    key: Seq<CellView>,
)
    requires
        aggs_of(output).len() > 0,
        a.to_multiset() == b.to_multiset(),
    ensures
        accs_of(fed_all(output, group_by, nothing(), a).groups, key) == accs_of(
            fed_all(output, group_by, nothing(), b).groups,
            key,
        ),
{
    groups_hold_their_rows(output, group_by, a, key);
    groups_hold_their_rows(output, group_by, b, key);
    key_step_commutes(output, group_by, key);
    lemma_fold_left_permutation(
        a,
        b,
        |acc: Option<Seq<Acc>>, row: RowView| key_step(output, group_by, key, acc, row),
        None,
    );
}

/// The join strategy changes no aggregate.
pub proof fn strategy_changes_no_aggregate(
    output: Seq<OutExpr>,
    group_by: Seq<(usize, usize)>,
    nscans: nat,
    j: JoinNode,
    build: Seq<Seq<CellView>>,
    probe: Seq<Seq<CellView>>,
    parts: nat,
    key: Seq<CellView>,
)
    requires
        aggs_of(output).len() > 0,
        parts > 0,
        build.len() <= usize::MAX,
        int_col(probe, j.probe_key as int),
    ensures
        accs_of(
            fed_all(
                output,
                group_by,
                nothing(),
                shuffled(nscans, j, build, probe, parts as int, parts),
            ).groups,
            key,
        ) == accs_of(
            fed_all(output, group_by, nothing(), joined(nscans, j, build, probe)).groups,
            key,
        ),
{
    shuffle_joins_as_broadcast(nscans, j, build, probe, parts);
    aggregates_ignore_order(
        output,
        group_by,
        shuffled(nscans, j, build, probe, parts as int, parts),
        joined(nscans, j, build, probe),
        key,
    );
}

// ---------------------------------------------------------------------------
// Two phases
// ---------------------------------------------------------------------------

/// What two tasks have of a key, put together.
pub open spec fn both(a: Option<Seq<Acc>>, b: Option<Seq<Acc>>) -> Option<Seq<Acc>> {
    match (a, b) {
        (Some(x), Some(y)) => Some(merged_accs(x, y)),
        (Some(x), None) => Some(x),
        (None, y) => y,
    }
}

proof fn merge_groups_accs(g: Seq<GroupView>, h: Seq<GroupView>, key: Seq<CellView>)
    requires
        keys_distinct(h),
    ensures
        accs_of(merge_groups(g, h), key) == both(accs_of(g, key), accs_of(h, key)),
    decreases h.len(),
{
    if h.len() == 0 {
        group_at_is(h, key);
    } else {
        let d = h.drop_last();
        let x = h.last();
        let m = merge_groups(g, d);
        assert forall|i: int, j: int| 0 <= i < j < d.len() implies (#[trigger] d[i]).key
            != (#[trigger] d[j]).key by {
            assert(h[i].key != h[j].key);
        }
        merge_groups_accs(g, d, key);
        let i = group_at(m, x.key) as int;
        group_at_is(m, x.key);
        let accs = if i < m.len() { merged_accs(m[i].accs, x.accs) } else { x.accs };
        put_keeps_others(m, x.key, accs, key);
        if i >= m.len() {
            assert(m.push(x) =~= m.push(GroupView { key: x.key, accs }));
        }
        group_at_is(d, key);
        group_at_is(h, key);
        if key == x.key {
            // the last group's key is nowhere before it
            assert forall|k: int| 0 <= k < d.len() implies (#[trigger] d[k]).key != key by {
                assert(h[k].key != h[h.len() - 1].key);
            }
            group_at_unique(h, key, d.len() as int);
            group_at_unique(d, key, d.len() as int);
            assert(accs_of(d, key) is None);
            assert(accs_of(h, key) == Some(x.accs));
            assert(accs_of(m, key) == accs_of(g, key));
        } else {
            let n = group_at(d, key) as int;
            if n < d.len() {
                assert forall|k: int| 0 <= k < n implies (#[trigger] h[k]).key != key by {
                    assert(d[k].key != key);
                }
                group_at_unique(h, key, n);
            } else {
                assert forall|k: int| 0 <= k < h.len() implies (#[trigger] h[k]).key != key by {
                    if k < d.len() {
                        assert(d[k].key != key);
                    }
                }
                group_at_unique(h, key, h.len() as int);
            }
        }
    }
}

proof fn key_accs_len(
    output: Seq<OutExpr>,
    group_by: Seq<(usize, usize)>,
    key: Seq<CellView>,
    rows: Seq<RowView>,
)
    ensures
        key_accs(output, group_by, key, rows) matches Some(a) ==> a.len() == aggs_of(output).len(),
    decreases rows.len(),
{
    if rows.len() > 0 {
        key_accs_len(output, group_by, key, rows.drop_last());
    }
}

proof fn key_accs_concat(
    output: Seq<OutExpr>,
    group_by: Seq<(usize, usize)>,
    key: Seq<CellView>,
    a: Seq<RowView>,
    b: Seq<RowView>,
)
    ensures
        key_accs(output, group_by, key, a + b) == both(
            key_accs(output, group_by, key, a),
            key_accs(output, group_by, key, b),
        ),
    decreases b.len(),
{
    let aggs = aggs_of(output);
    if b.len() == 0 {
        assert(a + b =~= a);
    } else {
        let d = b.drop_last();
        let row = b.last();
        assert((a + b).drop_last() =~= a + d);
        key_accs_concat(output, group_by, key, a, d);
        key_accs_len(output, group_by, key, a);
        key_accs_len(output, group_by, key, d);
        if key_of(group_by, row) == key {
            if let Some(x) = key_accs(output, group_by, key, a) {
                let y = match key_accs(output, group_by, key, d) {
                    Some(y) => y,
                    None => no_accs(aggs.len()),
                };
                assert forall|i: int| 0 <= i < x.len() implies #[trigger] accs_step(
                    merged_accs(x, y),
                    aggs,
                    row,
                )[i] == merged_accs(x, accs_step(y, aggs, row))[i] by {
                    let v = match row[aggs[i].1 as int][aggs[i].2 as int] {
                        CellView::I(v) => v,
                        CellView::S(_) => 0,
                    };
                    acc_merge_laws(x[i], y[i], Acc::empty(), v);
                }
                assert(accs_step(merged_accs(x, y), aggs, row) =~= merged_accs(
                    x,
                    accs_step(y, aggs, row),
                ));
                if key_accs(output, group_by, key, d) is None {
                    assert forall|i: int| 0 <= i < x.len() implies #[trigger] merged_accs(
                        x,
                        y,
                    )[i] == x[i] by {
                        acc_merge_laws(x[i], x[i], x[i], 0);
                    }
                    assert(merged_accs(x, y) =~= x);
                }
            }
        }
    }
}

/// Aggregating in two phases is aggregating in one: what two tasks computed
/// of their rows, merged, is what one task computes of all of them.
pub proof fn two_phases_are_one(
    output: Seq<OutExpr>,
    group_by: Seq<(usize, usize)>,
    a: Seq<RowView>,
    b: Seq<RowView>,
    key: Seq<CellView>,
)
    requires
        aggs_of(output).len() > 0,
    ensures
        accs_of(
            merge_groups(
                fed_all(output, group_by, nothing(), a).groups,
                fed_all(output, group_by, nothing(), b).groups,
            ),
            key,
        ) == accs_of(fed_all(output, group_by, nothing(), a + b).groups, key),
{
    groups_hold_their_rows(output, group_by, a, key);
    groups_hold_their_rows(output, group_by, b, key);
    groups_hold_their_rows(output, group_by, a + b, key);
    merge_groups_accs(
        fed_all(output, group_by, nothing(), a).groups,
        fed_all(output, group_by, nothing(), b).groups,
        key,
    );
    key_accs_concat(output, group_by, key, a, b);
}

// ---------------------------------------------------------------------------
// Whole runs
// ---------------------------------------------------------------------------

/// What is made of each of the same things, each as often, is the same.
pub proof fn map_same<A, B>(a: Seq<A>, b: Seq<A>, f: spec_fn(A) -> B)
    requires
        a.to_multiset() == b.to_multiset(),
    ensures
        a.map_values(f).to_multiset() == b.map_values(f).to_multiset(),
    decreases a.len(),
{
    broadcast use group_to_multiset_ensures;

    assert(a.len() == a.to_multiset().len());
    assert(b.len() == b.to_multiset().len());
    if a.len() == 0 {
        assert(a.map_values(f) =~= b.map_values(f));
    } else {
        let n = a.len() - 1;
        let x = a[n];
        assert(a.contains(x));
        assert(b.to_multiset().count(x) > 0);
        assert(b.contains(x));
        let i = choose|i: int| 0 <= i < b.len() && b[i] == x;
        let c = a.remove(n);
        let d = b.remove(i);
        assert(c.to_multiset() == d.to_multiset());
        map_same(c, d, f);
        assert(a.map_values(f) =~= c.map_values(f).push(f(x)));
        assert(b.map_values(f) =~= d.map_values(f).insert(i, f(x)));
    }
}

proof fn plain_rows_are_mapped(
    output: Seq<OutExpr>,
    group_by: Seq<(usize, usize)>,
    rows: Seq<RowView>,
)
    ensures
        ({
            let p = fed_all(output, group_by, nothing(), rows);
            if aggs_of(output).len() == 0 {
                p.rows == rows.map_values(|r: RowView| plain_row(output, r))
            } else {
                p.rows.len() == 0
            }
        }),
    decreases rows.len(),
{
    let f = |r: RowView| plain_row(output, r);
    if rows.len() == 0 {
        assert(rows.map_values(f) =~= Seq::empty());
    } else {
        plain_rows_are_mapped(output, group_by, rows.drop_last());
        assert(rows.map_values(f) =~= rows.drop_last().map_values(f).push(f(rows.last())));
    }
}

/// Rows that are fed come out one by one where nothing is aggregated, and not
/// at all where something is.
pub proof fn no_plain_rows(
    output: Seq<OutExpr>,
    group_by: Seq<(usize, usize)>,
    rows: Seq<RowView>,
)
    ensures
        ({
            let p = fed_all(output, group_by, nothing(), rows);
            if aggs_of(output).len() == 0 {
                p.rows == rows.map_values(|r: RowView| plain_row(output, r))
            } else {
                p.rows.len() == 0
            }
        }),
{
    plain_rows_are_mapped(output, group_by, rows);
}

proof fn group_elsewhere(g: Seq<GroupView>, h: Seq<GroupView>, i: int)
    requires
        keys_distinct(g),
        forall|key: Seq<CellView>| #[trigger] accs_of(g, key) == accs_of(h, key),
        0 <= i < g.len(),
    ensures
        h.contains(g[i]),
{
    let key = g[i].key;
    assert forall|k: int| 0 <= k < i implies (#[trigger] g[k]).key != key by {
        assert(g[k].key != g[i].key);
    }
    group_at_unique(g, key, i);
    assert(accs_of(g, key) == Some(g[i].accs));
    assert(accs_of(h, key) == Some(g[i].accs));
    group_at_is(h, key);
    let k = group_at(h, key) as int;
    assert(h[k] == g[i]);
}

proof fn distinct_once(g: Seq<GroupView>)
    requires
        keys_distinct(g),
    ensures
        g.no_duplicates(),
{
    assert forall|i: int, j: int| 0 <= i < g.len() && 0 <= j < g.len() && i != j implies g[i]
        != g[j] by {
        if i < j {
            assert(g[i].key != g[j].key);
        } else {
            assert(g[j].key != g[i].key);
        }
    }
}

/// Groups with the same accumulators for every key are the same groups.
proof fn same_accs_same_groups(g: Seq<GroupView>, h: Seq<GroupView>)
    requires
        keys_distinct(g),
        keys_distinct(h),
        forall|key: Seq<CellView>| #[trigger] accs_of(g, key) == accs_of(h, key),
    ensures
        g.to_multiset() == h.to_multiset(),
{
    broadcast use group_to_multiset_ensures;

    distinct_once(g);
    distinct_once(h);
    g.lemma_multiset_has_no_duplicates();
    h.lemma_multiset_has_no_duplicates();
    assert forall|x: GroupView| #[trigger] g.to_multiset().count(x) == h.to_multiset().count(x) by {
        if g.contains(x) {
            let i = choose|i: int| 0 <= i < g.len() && g[i] == x;
            group_elsewhere(g, h, i);
            assert(g.to_multiset().contains(x) && h.to_multiset().contains(x));
        } else if h.contains(x) {
            let i = choose|i: int| 0 <= i < h.len() && h[i] == x;
            group_elsewhere(h, g, i);
        }
    }
    assert(g.to_multiset() =~= h.to_multiset());
}

/// A result does not depend on the order of the joined rows: the same rows,
/// each as often, give the same rows of the result, each as often.
pub proof fn results_ignore_order(
    output: Seq<OutExpr>,
    group_by: Seq<(usize, usize)>,
    a: Seq<RowView>,
    b: Seq<RowView>,
)
    requires
        a.to_multiset() == b.to_multiset(),
    ensures
        result_rows(output, group_by, fed_all(output, group_by, nothing(), a)).to_multiset()
            == result_rows(output, group_by, fed_all(output, group_by, nothing(), b)).to_multiset(),
{
    let p = fed_all(output, group_by, nothing(), a);
    let q = fed_all(output, group_by, nothing(), b);
    plain_rows_are_mapped(output, group_by, a);
    plain_rows_are_mapped(output, group_by, b);
    if aggs_of(output).len() == 0 {
        map_same(a, b, |r: RowView| plain_row(output, r));
    } else {
        groups_hold_their_rows(output, group_by, a, Seq::empty());
        groups_hold_their_rows(output, group_by, b, Seq::empty());
        assert forall|key: Seq<CellView>| #[trigger] accs_of(p.groups, key) == accs_of(
            q.groups,
            key,
        ) by {
            aggregates_ignore_order(output, group_by, a, b, key);
        }
        same_accs_same_groups(p.groups, q.groups);
        let f = |g: GroupView| group_row(output, group_by, g);
        map_same(p.groups, q.groups, f);
        assert(result_rows(output, group_by, p) =~= p.groups.map_values(f));
        assert(result_rows(output, group_by, q) =~= q.groups.map_values(f));
    }
}

/// A whole run gives the same whether its join is broadcast or shuffled: it
/// can run under both, joins as many rows, and has the same rows in its
/// result, each as often. Only what counts as scanned differs, by the build
/// side. Its headings are those of its scans and output, which are the same.
pub proof fn strategy_changes_no_result(
    output: Seq<OutExpr>,
    group_by: Seq<(usize, usize)>,
    nscans: nat,
    tables: Seq<Seq<Seq<CellView>>>,
    j: JoinNode,
    partitions: usize,
)
    requires
        0 < partitions <= i64::MAX,
        tables.len() == nscans,
        j.build < nscans,
        j.probe < nscans,
        tables[j.build as int].len() <= usize::MAX,
        int_col(tables[j.build as int], j.build_key as int),
        int_col(tables[j.probe as int], j.probe_key as int),
    ensures
        ({
            let x = Some(JoinNode { strategy: JoinStrategy::Broadcast, ..j });
            let y = Some(JoinNode { strategy: JoinStrategy::Shuffle { partitions }, ..j });
            let p = executed(output, group_by, x, nscans, tables);
            let q = executed(output, group_by, y, nscans, tables);
            &&& runs(output, group_by, x, nscans, tables) == runs(
                output,
                group_by,
                y,
                nscans,
                tables,
            )
            &&& p.joined_rows == q.joined_rows
            &&& p.scanned_rows == 0u64.wrapping_add(tables[j.probe as int].len() as u64)
            &&& q.scanned_rows == 0u64.wrapping_add(
                tables[j.build as int].len() as u64,
            ).wrapping_add(tables[j.probe as int].len() as u64)
            &&& result_rows(output, group_by, p).to_multiset() == result_rows(
                output,
                group_by,
                q,
            ).to_multiset()
        }),
{
    let jb = JoinNode { strategy: JoinStrategy::Broadcast, ..j };
    let js = JoinNode { strategy: JoinStrategy::Shuffle { partitions }, ..j };
    let build = tables[j.build as int];
    let probe = tables[j.probe as int];
    let a = joined(nscans, jb, build, probe);
    let b = shuffled(nscans, js, build, probe, partitions as int, partitions as nat);
    joined_alike(nscans, jb, js, build, probe);
    shuffle_joins_as_broadcast(nscans, js, build, probe, partitions as nat);
    same_rows_fit(output, group_by, a, b);
    results_ignore_order(output, group_by, a, b);
    let p = executed(output, group_by, Some(jb), nscans, tables);
    let q = executed(output, group_by, Some(js), nscans, tables);
    let p0 = fed_all(output, group_by, nothing(), a);
    let q0 = fed_all(output, group_by, nothing(), b);
    assert(result_rows(output, group_by, p) =~= result_rows(output, group_by, p0));
    assert(result_rows(output, group_by, q) =~= result_rows(output, group_by, q0));
}

/// The strategy of a join says nothing of its pairs.
proof fn joined_alike(
    nscans: nat,
    x: JoinNode,
    y: JoinNode,
    build: Seq<Seq<CellView>>,
    probe: Seq<Seq<CellView>>,
)
    requires
        y == (JoinNode { strategy: y.strategy, ..x }),
    ensures
        joined(nscans, x, build, probe) == joined(nscans, y, build, probe),
    decreases probe.len(),
{
    if probe.len() > 0 {
        joined_alike(nscans, x, y, build, probe.drop_last());
        let a = probed(nscans, x, build, probe.last());
        let b = probed(nscans, y, build, probe.last());
        assert(a.len() == b.len());
        assert forall|i: int| 0 <= i < a.len() implies #[trigger] a[i] == b[i] by {
            assert(a[i] =~= b[i]);
        }
        assert(a =~= b);
    }
}

// ---------------------------------------------------------------------------
// The order of a result
// ---------------------------------------------------------------------------

/// Whether the values of a column are of one kind.
pub open spec fn one_kind(rows: Seq<Seq<ValView>>, pos: int) -> bool {
    ||| forall|i: int| 0 <= i < rows.len() ==> (#[trigger] rows[i])[pos] is I
    ||| forall|i: int| 0 <= i < rows.len() ==> (#[trigger] rows[i])[pos] is S
    ||| forall|i: int| 0 <= i < rows.len() ==> (#[trigger] rows[i])[pos] is F
}

/// Whether two values come at the same place of an order, where averages are
/// told apart by their ranks.
pub open spec fn same_place(a: ValView, b: ValView, rank: spec_fn(ValView) -> u64) -> bool {
    if a is F {
        b is F && rank(a) == rank(b)
    } else {
        a == b
    }
}

/// Whether some numbers are the ranks of a column.
pub open spec fn ranked(
    rows: Seq<Seq<ValView>>,
    pos: int,
    rank: spec_fn(ValView) -> u64,
    ranks: Seq<u64>,
) -> bool {
    ranks.len() == rows.len() && forall|i: int|
        0 <= i < rows.len() ==> #[trigger] ranks[i] == rank(rows[i][pos])
}

/// The keys of rows that were put in order are in order.
proof fn keys_sorted<K>(
    rows: Seq<Seq<ValView>>,
    at: Seq<usize>,
    keys: OrderKeys,
    desc: bool,
    key: spec_fn(Seq<ValView>) -> K,
    leq: spec_fn(K, K) -> bool,
)
    requires
        sorts(row_order(keys, desc), rows.len(), at),
        forall|a: int, b: int|
            0 <= a < rows.len() && 0 <= b < rows.len() && !(#[trigger] keys.before(desc, b, a))
                ==> leq(key(rows[a]), key(rows[b])),
        total_ordering(leq),
        match keys {
            OrderKeys::Ints(v) => rows.len() <= v.len(),
            OrderKeys::Texts(v) => rows.len() <= v.len(),
            OrderKeys::Ranks(v) => rows.len() <= v.len(),
        },
    ensures
        sorted_by(taken(rows, at).map_values(key), leq),
{
    let less = row_order(keys, desc);
    keys_order(keys, desc, rows.len() as int);
    let s = taken(rows, at).map_values(key);
    assert forall|i: int, j: int| 0 <= i < j < s.len() implies #[trigger] leq(s[i], s[j]) by {
        assert(at[i] < rows.len() && at[j] < rows.len());
        assert(goes_before(less, at[i] as int, at[j] as int));
        assert(!keys.before(desc, at[j] as int, at[i] as int)) by {
            assert(less(at[i] as int, at[j] as int) == keys.before(
                desc,
                at[i] as int,
                at[j] as int,
            ));
            assert(less(at[j] as int, at[i] as int) == keys.before(
                desc,
                at[j] as int,
                at[i] as int,
            ));
        }
    }
}

proof fn texts_total(desc: bool)
    ensures
        total_ordering(
            |x: Seq<char>, y: Seq<char>|
                if desc { !text_lt(x, y) } else { !text_lt(y, x) },
        ),
{
    let leq = |x: Seq<char>, y: Seq<char>| if desc { !text_lt(x, y) } else { !text_lt(y, x) };
    assert forall|x: Seq<char>| #[trigger] leq(x, x) by {
        text_lt_total(x, x);
    }
    assert forall|x: Seq<char>, y: Seq<char>| #[trigger] leq(x, y) && #[trigger] leq(
        y,
        x,
    ) implies x == y by {
        text_lt_total(x, y);
    }
    assert forall|x: Seq<char>, y: Seq<char>| #[trigger] leq(x, y) || #[trigger] leq(y, x) by {
        text_lt_total(x, y);
    }
    assert forall|x: Seq<char>, y: Seq<char>, z: Seq<char>| #[trigger] leq(x, y) && #[trigger] leq(
        y,
        z,
    ) implies leq(x, z) by {
        text_lt_total(x, y);
        text_lt_total(y, z);
        text_lt_total(x, z);
        if desc {
            if text_lt(x, z) && text_lt(y, x) {
                bytes_lt_transitive(encode_utf8(y), encode_utf8(x), encode_utf8(z));
            }
        } else {
            if text_lt(z, x) && text_lt(y, z) {
                bytes_lt_transitive(encode_utf8(y), encode_utf8(z), encode_utf8(x));
            }
        }
    }
}

/// Rows in order of a column of integers have the same values there at each place.
proof fn ints_agree(
    a: Seq<Seq<ValView>>,
    b: Seq<Seq<ValView>>,
    pos: int,
    desc: bool,
    rank: spec_fn(ValView) -> u64,
    ranks_a: Seq<u64>,
    ranks_b: Seq<u64>,
    at_a: Seq<usize>,
    at_b: Seq<usize>,
)
    requires
        a.to_multiset() == b.to_multiset(),
        0 < a.len() <= usize::MAX,
        forall|i: int| 0 <= i < a.len() ==> (#[trigger] a[i])[pos] is I,
        forall|i: int| 0 <= i < b.len() ==> (#[trigger] b[i])[pos] is I,
        ranked(a, pos, rank, ranks_a),
        ranked(b, pos, rank, ranks_b),
        sorts(row_order(order_keys(a, pos, ranks_a), desc), a.len(), at_a),
        sorts(row_order(order_keys(b, pos, ranks_b), desc), b.len(), at_b),
    ensures
        taken(a, at_a).len() == taken(b, at_b).len(),
        forall|i: int|
            0 <= i < taken(a, at_a).len() ==> same_place(
                #[trigger] taken(a, at_a)[i][pos],
                taken(b, at_b)[i][pos],
                rank,
            ),
{
    broadcast use group_to_multiset_ensures;

    assert(a.len() == a.to_multiset().len());
    assert(b.len() == b.to_multiset().len());
    let key = |r: Seq<ValView>| match r[pos] {
        ValView::I(v) => v,
        _ => 0i64,
    };
    let leq = |x: i64, y: i64| if desc { y <= x } else { x <= y };
    assert(total_ordering(leq));
    let x = taken(a, at_a);
    let y = taken(b, at_b);
    taken_rearranges(a, at_a);
    taken_rearranges(b, at_b);
    assert(a[0][pos] is I && b[0][pos] is I);
    keys_sorted(a, at_a, order_keys(a, pos, ranks_a), desc, key, leq);
    keys_sorted(b, at_b, order_keys(b, pos, ranks_b), desc, key, leq);
    map_same(x, y, key);
    lemma_sorted_unique(x.map_values(key), y.map_values(key), leq);
    assert forall|i: int| 0 <= i < x.len() implies same_place(
        #[trigger] x[i][pos],
        y[i][pos],
        rank,
    ) by {
        assert(x.map_values(key)[i] == y.map_values(key)[i]);
        assert(at_a[i] < a.len() && at_b[i] < b.len());
        assert(a[at_a[i] as int][pos] is I);
        assert(b[at_b[i] as int][pos] is I);
    }
}

/// Rows in order of a column of texts have the same values there at each place.
proof fn texts_agree(
    a: Seq<Seq<ValView>>,
    b: Seq<Seq<ValView>>,
    pos: int,
    desc: bool,
    rank: spec_fn(ValView) -> u64,
    ranks_a: Seq<u64>,
    ranks_b: Seq<u64>,
    at_a: Seq<usize>,
    at_b: Seq<usize>,
)
    requires
        a.to_multiset() == b.to_multiset(),
        0 < a.len() <= usize::MAX,
        forall|i: int| 0 <= i < a.len() ==> (#[trigger] a[i])[pos] is S,
        forall|i: int| 0 <= i < b.len() ==> (#[trigger] b[i])[pos] is S,
        ranked(a, pos, rank, ranks_a),
        ranked(b, pos, rank, ranks_b),
        sorts(row_order(order_keys(a, pos, ranks_a), desc), a.len(), at_a),
        sorts(row_order(order_keys(b, pos, ranks_b), desc), b.len(), at_b),
    ensures
        taken(a, at_a).len() == taken(b, at_b).len(),
        forall|i: int|
            0 <= i < taken(a, at_a).len() ==> same_place(
                #[trigger] taken(a, at_a)[i][pos],
                taken(b, at_b)[i][pos],
                rank,
            ),
{
    broadcast use group_to_multiset_ensures;

    assert(a.len() == a.to_multiset().len());
    assert(b.len() == b.to_multiset().len());
    let key = |r: Seq<ValView>| match r[pos] {
        ValView::S(t) => t,
        _ => Seq::<char>::empty(),
    };
    let leq = |x: Seq<char>, y: Seq<char>| if desc { !text_lt(x, y) } else { !text_lt(y, x) };
    texts_total(desc);
    let x = taken(a, at_a);
    let y = taken(b, at_b);
    taken_rearranges(a, at_a);
    taken_rearranges(b, at_b);
    assert(a[0][pos] is S && b[0][pos] is S);
    keys_sorted(a, at_a, order_keys(a, pos, ranks_a), desc, key, leq);
    keys_sorted(b, at_b, order_keys(b, pos, ranks_b), desc, key, leq);
    map_same(x, y, key);
    lemma_sorted_unique(x.map_values(key), y.map_values(key), leq);
    assert forall|i: int| 0 <= i < x.len() implies same_place(
        #[trigger] x[i][pos],
        y[i][pos],
        rank,
    ) by {
        assert(x.map_values(key)[i] == y.map_values(key)[i]);
        assert(at_a[i] < a.len() && at_b[i] < b.len());
        assert(a[at_a[i] as int][pos] is S);
        assert(b[at_b[i] as int][pos] is S);
    }
}

/// Rows in order of a column of averages have the same values there at each place.
proof fn ranks_agree(
    a: Seq<Seq<ValView>>,
    b: Seq<Seq<ValView>>,
    pos: int,
    desc: bool,
    rank: spec_fn(ValView) -> u64,
    ranks_a: Seq<u64>,
    ranks_b: Seq<u64>,
    at_a: Seq<usize>,
    at_b: Seq<usize>,
)
    requires
        a.to_multiset() == b.to_multiset(),
        0 < a.len() <= usize::MAX,
        forall|i: int| 0 <= i < a.len() ==> (#[trigger] a[i])[pos] is F,
        forall|i: int| 0 <= i < b.len() ==> (#[trigger] b[i])[pos] is F,
        ranked(a, pos, rank, ranks_a),
        ranked(b, pos, rank, ranks_b),
        sorts(row_order(order_keys(a, pos, ranks_a), desc), a.len(), at_a),
        sorts(row_order(order_keys(b, pos, ranks_b), desc), b.len(), at_b),
    ensures
        taken(a, at_a).len() == taken(b, at_b).len(),
        forall|i: int|
            0 <= i < taken(a, at_a).len() ==> same_place(
                #[trigger] taken(a, at_a)[i][pos],
                taken(b, at_b)[i][pos],
                rank,
            ),
{
    broadcast use group_to_multiset_ensures;

    assert(a.len() == a.to_multiset().len());
    assert(b.len() == b.to_multiset().len());
    let key = |r: Seq<ValView>| rank(r[pos]);
    let leq = |x: u64, y: u64| if desc { y <= x } else { x <= y };
    assert(total_ordering(leq));
    let x = taken(a, at_a);
    let y = taken(b, at_b);
    taken_rearranges(a, at_a);
    taken_rearranges(b, at_b);
    assert(a[0][pos] is F && b[0][pos] is F);
    keys_sorted(a, at_a, order_keys(a, pos, ranks_a), desc, key, leq);
    keys_sorted(b, at_b, order_keys(b, pos, ranks_b), desc, key, leq);
    map_same(x, y, key);
    lemma_sorted_unique(x.map_values(key), y.map_values(key), leq);
    assert forall|i: int| 0 <= i < x.len() implies same_place(
        #[trigger] x[i][pos],
        y[i][pos],
        rank,
    ) by {
        assert(x.map_values(key)[i] == y.map_values(key)[i]);
        assert(at_a[i] < a.len() && at_b[i] < b.len());
        assert(a[at_a[i] as int][pos] is F);
        assert(b[at_b[i] as int][pos] is F);
    }
}

/// Put in order by a column and cut off, two results with the same rows, each
/// as often, are as long as each other and agree on that column at each place.
/// Only rows that tie may stand otherwise.
pub proof fn orders_agree(
    a: Seq<Seq<ValView>>,
    b: Seq<Seq<ValView>>,
    pos: int,
    desc: bool,
    limit: Option<usize>,
    rank: spec_fn(ValView) -> u64,
    ranks_a: Seq<u64>,
    ranks_b: Seq<u64>,
    out_a: Seq<Seq<ValView>>,
    out_b: Seq<Seq<ValView>>,
)
    requires
        a.to_multiset() == b.to_multiset(),
        a.len() <= usize::MAX,
        one_kind(a, pos),
        ranked(a, pos, rank, ranks_a),
        ranked(b, pos, rank, ranks_b),
        ordered(a, order_keys(a, pos, ranks_a), desc, out_a),
        ordered(b, order_keys(b, pos, ranks_b), desc, out_b),
    ensures
        out_a.to_multiset() == out_b.to_multiset(),
        limited(out_a, limit).len() == limited(out_b, limit).len(),
        forall|i: int|
            0 <= i < limited(out_a, limit).len() ==> same_place(
                #[trigger] limited(out_a, limit)[i][pos],
                limited(out_b, limit)[i][pos],
                rank,
            ),
{
    broadcast use group_to_multiset_ensures;

    assert(a.len() == a.to_multiset().len());
    assert(b.len() == b.to_multiset().len());
    let at_a = choose|at: Seq<usize>|
        #[trigger] sorts(row_order(order_keys(a, pos, ranks_a), desc), a.len(), at) && out_a
            == taken(a, at);
    let at_b = choose|at: Seq<usize>|
        #[trigger] sorts(row_order(order_keys(b, pos, ranks_b), desc), b.len(), at) && out_b
            == taken(b, at);
    taken_rearranges(a, at_a);
    taken_rearranges(b, at_b);
    if a.len() > 0 {
        assert forall|i: int| 0 <= i < b.len() implies a.contains(#[trigger] b[i]) by {
            assert(b.contains(b[i]));
            assert(a.to_multiset().count(b[i]) > 0);
        }
        if a[0][pos] is I {
            assert forall|i: int| 0 <= i < b.len() implies (#[trigger] b[i])[pos] is I by {
                let k = choose|k: int| 0 <= k < a.len() && a[k] == b[i];
                assert(a[k][pos] is I);
            }
            ints_agree(a, b, pos, desc, rank, ranks_a, ranks_b, at_a, at_b);
        } else if a[0][pos] is S {
            assert forall|i: int| 0 <= i < b.len() implies (#[trigger] b[i])[pos] is S by {
                let k = choose|k: int| 0 <= k < a.len() && a[k] == b[i];
                assert(a[k][pos] is S);
            }
            texts_agree(a, b, pos, desc, rank, ranks_a, ranks_b, at_a, at_b);
        } else {
            assert forall|i: int| 0 <= i < b.len() implies (#[trigger] b[i])[pos] is F by {
                let k = choose|k: int| 0 <= k < a.len() && a[k] == b[i];
                assert(a[k][pos] is F);
            }
            ranks_agree(a, b, pos, desc, rank, ranks_a, ranks_b, at_a, at_b);
        }
    }
    assert forall|i: int| 0 <= i < limited(out_a, limit).len() implies same_place(
        #[trigger] limited(out_a, limit)[i][pos],
        limited(out_b, limit)[i][pos],
        rank,
    ) by {
        assert(same_place(out_a[i][pos], out_b[i][pos], rank));
    }
}

} // verus!
