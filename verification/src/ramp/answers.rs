//! What morsels and their merge stand for, said of the rows.
use crate::kernel::{keyed_rows, picked, Acc, Block, CmpOp, Keyed};
use crate::format::reader::hits;
use crate::ramp::morsel::{
    acc_at, has_columns, merged_over, merged_over_push, partial_of, selected, task_of, vals_at,
    PartialView, Task,
};
use crate::ramp::resolve::{cte_named, overlaid, resolved};
use crate::ramp::schedule::{before, limited, morsels_of, needed_of};
use crate::ramp::shuffle::part_of;
use crate::ramp::worker::{max_id, merged_all, placed};
use crate::relations::{a_filter_finds_every_hit, stands};
use crate::cluster::skipped;
use crate::sort::positions;
use crate::sql::{QueryView, SourceView};
use crate::tally::{acc_sums_up, column_sums_up, every_key_sums_up, of_key, sums_up};
use vstd::prelude::*;

verus! {

/// Whether a row of a block passes a task's filter.
pub open spec fn passes(b: Block, t: Task, r: int) -> bool {
    t.filter matches Some((c, op, l)) ==> stands(op, b.columns@[c as int].vals()[r], l)
}

/// How many rows of a block a task looks at.
pub open spec fn looked_at(b: Block, t: Task) -> nat {
    match t.filter {
        Some((c, op, l)) => b.columns@[c as int].vals().len(),
        None => match t.group_by {
            Some(g) => b.columns@[g as int].vals().len(),
            None => b.columns@[t.agg_col as int].vals().len(),
        },
    }
}

/// Whether `sel` lists the rows of a block that pass, all of them and in order.
pub open spec fn lists_passing(sel: Seq<int>, b: Block, t: Task) -> bool {
    &&& forall|i: int, j: int| 0 <= i < j < sel.len() ==> sel[i] < sel[j]
    &&& forall|i: int|
        0 <= i < sel.len() ==> 0 <= #[trigger] sel[i] < looked_at(b, t) && passes(b, t, sel[i])
    &&& forall|r: int|
        0 <= r < looked_at(b, t) && #[trigger] passes(b, t, r) ==> sel.contains(r)
}

/// The values that a task aggregates at some rows.
pub open spec fn values_at(b: Block, t: Task, sel: Seq<int>) -> Seq<i64> {
    Seq::new(sel.len(), |i: int| b.columns@[t.agg_col as int].vals()[sel[i]])
}

/// The groups and values of some rows.
pub open spec fn keyed_at(b: Block, t: Task, g: usize, sel: Seq<int>) -> Seq<Keyed> {
    Seq::new(
        sel.len(),
        |i: int|
            Keyed {
                key: b.columns@[g as int].vals()[sel[i]],
                val: b.columns@[t.agg_col as int].vals()[sel[i]],
            },
    )
}

/// The rows that a task selects of a block.
pub open spec fn rows_selected(b: Block, t: Task) -> Seq<int> {
    match selected(b, t.filter) {
        Some(s) => Seq::new(s.len(), |i: int| s[i] as int),
        None => Seq::new(looked_at(b, t), |i: int| i),
    }
}

/// A task's part of a block is that of the rows that pass its filter: without
/// a group the sum, count and extremes of their values, with one those of each
/// key that occurs among them, and of no other.
pub proof fn a_morsel_sums_up_what_passes(b: Block, t: Task)
    requires
        has_columns(b, t),
    ensures
        ({
            let sel = rows_selected(b, t);
            let p = partial_of(b, t);
            &&& lists_passing(sel, b, t)
            &&& t.group_by is None ==> sums_up(p.scalar, values_at(b, t, sel)) && p.groups
                =~= Map::empty()
            &&& t.group_by matches Some(g) ==> sums_up(p.scalar, Seq::empty()) && forall|k: i64|
                {
                    &&& #[trigger] p.groups.contains_key(k) <==> exists|i: int|
                        0 <= i < sel.len() && #[trigger] b.columns@[g as int].vals()[sel[i]] == k
                    &&& p.groups.contains_key(k) ==> sums_up(
                        p.groups[k],
                        of_key(keyed_at(b, t, g, sel), k),
                    )
                }
        }),
{
    let sel = rows_selected(b, t);
    let p = partial_of(b, t);
    let vals = vals_at(b, t.agg_col);
    match t.filter {
        Some((c, op, l)) => {
            let f = |v: i64| op.holds(v, l);
            let cv = vals_at(b, c);
            let h = hits(cv, 0, f);
            a_filter_finds_every_hit(cv, 0, f);
            assert forall|i: int| 0 <= i < sel.len() implies 0 <= #[trigger] sel[i] < looked_at(b, t)
                && passes(b, t, sel[i]) by {
                assert(h[i] == sel[i]);
                assert(f(cv[h[i] - 0]));
            }
            assert forall|r: int| 0 <= r < looked_at(b, t) && #[trigger] passes(b, t, r) implies sel.contains(
                r,
            ) by {
                assert(f(cv[r]));
                assert(h.contains((0 + r) as u32));
                let i = choose|i: int| 0 <= i < h.len() && h[i] == r as u32;
                assert(sel[i] == r);
            }
        },
        None => {
            assert forall|r: int| 0 <= r < looked_at(b, t) && #[trigger] passes(b, t, r) implies sel.contains(
                r,
            ) by {
                assert(sel[r] == r);
            }
        },
    }
    column_sums_up(Seq::empty());
    match t.group_by {
        None => {
            let chosen = match selected(b, t.filter) {
                Some(s) => picked(vals, s),
                None => vals,
            };
            assert(chosen =~= values_at(b, t, sel));
            column_sums_up(chosen);
        },
        Some(g) => {
            let keys = vals_at(b, g);
            let rows = keyed_rows(keys, vals, selected(b, t.filter));
            assert(rows =~= keyed_at(b, t, g, sel));
            assert forall|k: i64|
                {
                    &&& #[trigger] p.groups.contains_key(k) <==> exists|i: int|
                        0 <= i < sel.len() && #[trigger] b.columns@[g as int].vals()[sel[i]] == k
                    &&& p.groups.contains_key(k) ==> sums_up(
                        p.groups[k],
                        of_key(keyed_at(b, t, g, sel), k),
                    )
                } by {
                every_key_sums_up(rows, k);
                if p.groups.contains_key(k) {
                    let i = choose|i: int| 0 <= i < rows.len() && (#[trigger] rows[i]).key == k;
                    assert(b.columns@[g as int].vals()[sel[i]] == k);
                }
                if exists|i: int|
                    0 <= i < sel.len() && #[trigger] b.columns@[g as int].vals()[sel[i]] == k {
                    let i = choose|i: int|
                        0 <= i < sel.len() && #[trigger] b.columns@[g as int].vals()[sel[i]] == k;
                    assert(rows[i].key == k);
                }
            }
        },
    }
}

/// Runs of values one after another.
pub open spec fn end_to_end(vs: Seq<Seq<i64>>) -> Seq<i64>
    decreases vs.len(),
{
    if vs.len() == 0 {
        Seq::empty()
    } else {
        end_to_end(vs.drop_last()) + vs.last()
    }
}

/// Merged morsels sum up the values of all of them.
pub proof fn a_merge_sums_up_every_morsel(
    blocks: Seq<Block>,
    t: Task,
    ms: Seq<usize>,
    vs: Seq<Seq<i64>>,
)
    requires
        vs.len() == ms.len(),
        forall|i: int|
            #![trigger ms[i]]
            0 <= i < ms.len() ==> sums_up(partial_of(blocks[ms[i] as int], t).scalar, vs[i]),
    ensures
        sums_up(merged_over(blocks, t, ms).scalar, end_to_end(vs)),
    decreases ms.len(),
{
    column_sums_up(Seq::empty());
    if ms.len() == 0 {
        reveal_with_fuel(Seq::fold_left, 1);
        assert(merged_over(blocks, t, ms) == PartialView::none());
    } else {
        let d = ms.drop_last();
        let m = ms.last();
        assert forall|i: int|
            #![trigger d[i]]
            0 <= i < d.len() implies sums_up(
            partial_of(blocks[d[i] as int], t).scalar,
            vs.drop_last()[i],
        ) by {
            assert(d[i] == ms[i]);
        }
        a_merge_sums_up_every_morsel(blocks, t, d, vs.drop_last());
        merged_over_push(blocks, t, d, m);
        assert(d.push(m) =~= ms);
        assert(ms[ms.len() - 1] == m);
        acc_sums_up(
            merged_over(blocks, t, d).scalar,
            end_to_end(vs.drop_last()),
            partial_of(blocks[m as int], t).scalar,
            vs.last(),
            0,
        );
    }
}

/// Merged morsels have the groups of all of them, and each sums up the values
/// that its key has in any.
pub proof fn a_merge_sums_up_every_group(
    blocks: Seq<Block>,
    t: Task,
    ms: Seq<usize>,
    k: i64,
    vs: Seq<Seq<i64>>,
)
    requires
        vs.len() == ms.len(),
        forall|i: int|
            #![trigger ms[i]]
            0 <= i < ms.len() ==> sums_up(acc_at(partial_of(blocks[ms[i] as int], t).groups, k), vs[i]),
    ensures
        sums_up(acc_at(merged_over(blocks, t, ms).groups, k), end_to_end(vs)),
        merged_over(blocks, t, ms).groups.contains_key(k) <==> exists|i: int|
            0 <= i < ms.len() && partial_of(
                blocks[#[trigger] ms[i] as int],
                t,
            ).groups.contains_key(k),
    decreases ms.len(),
{
    column_sums_up(Seq::empty());
    if ms.len() == 0 {
        reveal_with_fuel(Seq::fold_left, 1);
        assert(merged_over(blocks, t, ms) == PartialView::none());
    } else {
        let d = ms.drop_last();
        let m = ms.last();
        assert forall|i: int|
            #![trigger d[i]]
            0 <= i < d.len() implies sums_up(
            acc_at(partial_of(blocks[d[i] as int], t).groups, k),
            vs.drop_last()[i],
        ) by {
            assert(d[i] == ms[i]);
        }
        a_merge_sums_up_every_group(blocks, t, d, k, vs.drop_last());
        merged_over_push(blocks, t, d, m);
        assert(d.push(m) =~= ms);
        assert(ms[ms.len() - 1] == m);
        let a = merged_over(blocks, t, d);
        let b = partial_of(blocks[m as int], t);
        acc_sums_up(
            acc_at(a.groups, k),
            end_to_end(vs.drop_last()),
            acc_at(b.groups, k),
            vs.last(),
            0,
        );
        crate::kernel::acc_merge_laws(Acc::none(), Acc::none(), Acc::none(), 0);
        if exists|i: int|
            0 <= i < ms.len() && partial_of(
                blocks[#[trigger] ms[i] as int],
                t,
            ).groups.contains_key(k) {
            let i = choose|i: int|
                0 <= i < ms.len() && partial_of(
                    blocks[#[trigger] ms[i] as int],
                    t,
                ).groups.contains_key(k);
            if i < d.len() {
                assert(d[i] == ms[i]);
            }
        }
        if exists|i: int|
            0 <= i < d.len() && partial_of(blocks[#[trigger] d[i] as int], t).groups.contains_key(k) {
            let i = choose|i: int|
                0 <= i < d.len() && partial_of(
                    blocks[#[trigger] d[i] as int],
                    t,
                ).groups.contains_key(k);
            assert(ms[i] == d[i]);
        }
    }
}

/// The morsels of a query are the blocks that its filter does not rule out,
/// each once and in order.
pub proof fn morsels_are_what_is_not_ruled_out(
    blocks: Seq<Block>,
    filter: Option<(usize, CmpOp, i64)>,
    b: usize,
)
    requires
        blocks.len() <= usize::MAX,
    ensures
        morsels_of(blocks, filter).contains(b) <==> b < blocks.len() && !skipped(blocks, filter, b),
        morsels_of(blocks, filter).no_duplicates(),
        filter is None ==> morsels_of(blocks, filter).len() == blocks.len(),
{
    let p = |b: usize| !skipped(blocks, filter, b);
    let all = positions(blocks.len());
    let f = all.filter(p);
    broadcast use vstd::seq_lib::group_filter_ensures;
    if f.contains(b) {
        all.lemma_filter_contains_rev(p, b);
        let i = choose|i: int| 0 <= i < f.len() && f[i] == b;
        all.lemma_filter_pred(p, i);
        let j = choose|j: int| 0 <= j < all.len() && all[j] == b;
        assert(all[j] == j as usize);
    }
    if b < blocks.len() && !skipped(blocks, filter, b) {
        assert(all[b as int] == b);
        all.lemma_filter_contains(p, b as int);
    }
    increasing_filter(all, p);
    if filter is None {
        keeps_all(all, p);
    }
}

proof fn increasing_filter(s: Seq<usize>, p: spec_fn(usize) -> bool)
    requires
        forall|i: int, j: int| 0 <= i < j < s.len() ==> s[i] < s[j],
    ensures
        s.filter(p).no_duplicates(),
        forall|i: int, j: int| 0 <= i < j < s.filter(p).len() ==> s.filter(p)[i] < s.filter(p)[j],
        s.len() > 0 && s.filter(p).len() > 0 ==> s.filter(p).last() <= s.last(),
    decreases s.len(),
{
    reveal(Seq::filter);
    if s.len() > 0 {
        increasing_filter(s.drop_last(), p);
        if s.drop_last().len() == 0 {
            assert(s.drop_last().filter(p) =~= Seq::empty());
        }
    }
}

proof fn keeps_all(s: Seq<usize>, p: spec_fn(usize) -> bool)
    requires
        forall|b: usize| #[trigger] p(b),
    ensures
        s.filter(p).len() == s.len(),
    decreases s.len(),
{
    reveal(Seq::filter);
    if s.len() > 0 {
        keeps_all(s.drop_last(), p);
        assert(p(s.last()));
    }
}

/// The columns that a worker is sent are those that the task reads, each once.
pub proof fn a_worker_is_sent_what_it_reads(t: Task)
    ensures
        needed_of(t).no_duplicates(),
        forall|c: usize|
            #[trigger] needed_of(t).contains(c) <==> c == t.agg_col || (t.filter matches Some(
                (d, op, l),
            ) && c == d) || t.group_by == Some(c),
{
    let n = needed_of(t);
    assert(n.contains(n[0]));
    if n.len() > 1 {
        assert(n.contains(n[1]));
    }
    if n.len() > 2 {
        assert(n.contains(n[2]));
    }
    assert(n[0] == t.agg_col);
    assert(seq![t.agg_col].contains(t.agg_col)) by {
        assert(seq![t.agg_col][0] == t.agg_col);
    }
    if let Some((d, op, l)) = t.filter {
        if d != t.agg_col {
            assert(n[1] == d);
        }
    }
    if let Some(g) = t.group_by {
        if t.filter is Some {
            let (d, op, l) = t.filter->0;
            let a = seq![t.agg_col];
            if a.contains(d) {
                assert(a[0] == d);
            } else {
                let b = a.push(d);
                assert(b[0] == t.agg_col && b[1] == d);
                if b.contains(g) {
                    let i = choose|i: int| 0 <= i < b.len() && b[i] == g;
                    assert(i == 0 || i == 1);
                } else {
                    assert(n[2] == g);
                }
            }
        }
        assert(n.contains(g));
    }
}

/// Which of two keys comes first in an order upwards or downwards.
pub proof fn an_order_runs_upwards_or_downwards(a: i64, b: i64)
    ensures
        before(true, a, b) <==> a < b,
        before(false, a, b) <==> a > b,
{
}

/// Every key has one partition, below their number, and rows with the same key
/// share it.
pub proof fn a_key_has_one_partition(a: i64, b: i64, n: int)
    requires
        n > 0,
    ensures
        0 <= part_of(a, n) < n,
        a == b ==> part_of(a, n) == part_of(b, n),
{
}

// ---------------------------------------------------------------------------
// Queries over queries
// ---------------------------------------------------------------------------

/// An expression is the first of its name.
pub proof fn an_expression_is_found_by_its_name(c: Seq<(Seq<char>, QueryView)>, name: Seq<char>)
    ensures
        cte_named(c, name) matches Some(q) ==> exists|i: int|
            0 <= i < c.len() && (#[trigger] c[i]).0 == name && c[i].1 == q && forall|j: int|
                0 <= j < i ==> (#[trigger] c[j]).0 != name,
        cte_named(c, name) is None ==> forall|j: int| 0 <= j < c.len() ==> (#[trigger] c[j]).0 != name,
    decreases c.len(),
{
    if c.len() > 0 {
        let t = c.skip(1);
        an_expression_is_found_by_its_name(t, name);
        assert forall|j: int| 0 < j < c.len() implies #[trigger] c[j] == t[j - 1] by {}
        if c[0].0 == name {
        } else if let Some(q) = cte_named(c, name) {
            let i = choose|i: int|
                0 <= i < t.len() && (#[trigger] t[i]).0 == name && t[i].1 == q && forall|j: int|
                    0 <= j < i ==> (#[trigger] t[j]).0 != name;
            assert(c[i + 1] == t[i]);
            assert forall|j: int| 0 <= j < i + 1 implies (#[trigger] c[j]).0 != name by {
                if j > 0 {
                    assert(c[j] == t[j - 1]);
                }
            }
        }
    }
}

/// A query over another computes what the inner one does, on the inner one's
/// source; a clause is the outer one's where that has it. An order or a limit
/// comes from inside only through a named expression.
pub proof fn the_outer_clause_wins(q: QueryView, inner: QueryView, cte: bool)
    ensures
        ({
            let r = overlaid(q, inner, cte);
            &&& r.agg == inner.agg && r.agg_col == inner.agg_col && r.table == inner.table && r.ctes
                == inner.ctes
            &&& q.filter is Some ==> r.filter == q.filter
            &&& q.filter is None ==> r.filter == inner.filter
            &&& q.group_by is Some ==> r.group_by == q.group_by
            &&& q.group_by is None ==> r.group_by == inner.group_by
            &&& q.order_by is Some || !cte ==> r.order_by == q.order_by
            &&& q.order_by is None && cte ==> r.order_by == inner.order_by
            &&& q.limit is Some || !cte ==> r.limit == q.limit
            &&& q.limit is None && cte ==> r.limit == inner.limit
        }),
{
}

/// A query over a table is itself; one over another resolves as that one with
/// the clauses laid over it; one that names an unknown expression, or nests
/// too deep, does not resolve.
pub proof fn a_query_resolves_to_a_table(q: QueryView, fuel: nat)
    ensures
        fuel == 0 ==> resolved(q, fuel) is Err,
        fuel > 0 && q.table is Table ==> resolved(q, fuel) == Ok::<QueryView, Seq<char>>(q),
        fuel > 0 && (q.table matches SourceView::Subquery(inner, name)) ==> resolved(q, fuel)
            == resolved(overlaid(q, *q.table->Subquery_0, false), (fuel - 1) as nat),
        fuel > 0 && (q.table matches SourceView::CTE(name)) ==> (match cte_named(
            q.ctes,
            q.table->CTE_0,
        ) {
            None => resolved(q, fuel) is Err,
            Some(inner) => resolved(q, fuel) == resolved(
                overlaid(q, inner, true),
                (fuel - 1) as nat,
            ),
        }),
{
}

// ---------------------------------------------------------------------------
// Workers
// ---------------------------------------------------------------------------

/// Columns that came inline stand at the places of their numbers, and there is
/// a place for each.
pub proof fn inlined_columns_stand_at_their_numbers(cols: Seq<(usize, Seq<i64>)>, n: nat, i: int)
    requires
        0 <= i < cols.len(),
        forall|j: int, k: int|
            0 <= j < k < cols.len() ==> (#[trigger] cols[j]).0 != (#[trigger] cols[k]).0,
        forall|j: int| 0 <= j < cols.len() ==> (#[trigger] cols[j]).0 < n,
    ensures
        placed(cols, n).len() == n,
        placed(cols, n)[cols[i].0 as int] == cols[i].1,
    decreases cols.len(),
{
    let d = cols.drop_last();
    assert forall|j: int| 0 <= j < d.len() implies (#[trigger] d[j]).0 < n by {
        assert(d[j] == cols[j]);
    }
    placed_len(d, n);
    assert(cols[cols.len() - 1].0 < n);
    if i < d.len() {
        assert forall|j: int, k: int| 0 <= j < k < d.len() implies (#[trigger] d[j]).0 != (
        #[trigger] d[k]).0 by {
            assert(d[j] == cols[j] && d[k] == cols[k]);
        }
        inlined_columns_stand_at_their_numbers(d, n, i);
        assert(d[i] == cols[i]);
        assert(cols[i].0 != cols[cols.len() - 1].0);
    }
}

proof fn placed_len(cols: Seq<(usize, Seq<i64>)>, n: nat)
    requires
        forall|j: int| 0 <= j < cols.len() ==> (#[trigger] cols[j]).0 < n,
    ensures
        placed(cols, n).len() == n,
    decreases cols.len(),
{
    if cols.len() > 0 {
        let d = cols.drop_last();
        assert forall|j: int| 0 <= j < d.len() implies (#[trigger] d[j]).0 < n by {
            assert(d[j] == cols[j]);
        }
        placed_len(d, n);
        assert(cols[cols.len() - 1].0 < n);
    }
}

/// The greatest number is that of some column, and no column has a greater.
pub proof fn the_greatest_number_is_a_columns(cols: Seq<(usize, Seq<i64>)>)
    ensures
        forall|i: int| 0 <= i < cols.len() ==> (#[trigger] cols[i]).0 <= max_id(cols),
        cols.len() > 0 ==> exists|i: int| 0 <= i < cols.len() && (#[trigger] cols[i]).0 == max_id(cols),
        cols.len() == 0 ==> max_id(cols) == 0,
    decreases cols.len(),
{
    if cols.len() > 0 {
        let d = cols.drop_last();
        the_greatest_number_is_a_columns(d);
        assert(cols[cols.len() - 1] == cols.last());
        assert forall|i: int| 0 <= i < cols.len() implies (#[trigger] cols[i]).0 <= max_id(cols) by {
            if i < d.len() {
                assert(d[i] == cols[i]);
            }
        }
        if cols.last().0 <= max_id(d) {
            if d.len() > 0 {
                let i = choose|i: int| 0 <= i < d.len() && (#[trigger] d[i]).0 == max_id(d);
                assert(cols[i] == d[i]);
            }
        }
    }
}

/// Partial results merged one after another sum up the values of all.
pub proof fn merged_results_sum_up_all(p: Seq<PartialView>, vs: Seq<Seq<i64>>)
    requires
        p.len() == vs.len(),
        forall|i: int| 0 <= i < p.len() ==> sums_up((#[trigger] p[i]).scalar, vs[i]),
    ensures
        sums_up(merged_all(p).scalar, end_to_end(vs)),
    decreases p.len(),
{
    column_sums_up(Seq::empty());
    if p.len() > 0 {
        let d = p.drop_last();
        assert forall|i: int| 0 <= i < d.len() implies sums_up(
            (#[trigger] d[i]).scalar,
            vs.drop_last()[i],
        ) by {
            assert(d[i] == p[i]);
        }
        merged_results_sum_up_all(d, vs.drop_last());
        assert(p[p.len() - 1] == p.last());
        acc_sums_up(
            merged_all(d).scalar,
            end_to_end(vs.drop_last()),
            p.last().scalar,
            vs.last(),
            0,
        );
    }
}

/// What an order and a limit leave of some groups: the groups as they were, as
/// many as the limit allows, and in an order the first of them by their keys.
pub proof fn a_limit_leaves_the_first_groups(
    kept: Map<i64, Acc>,
    all: Map<i64, Acc>,
    order_by: Option<(usize, bool)>,
    limit: Option<usize>,
    a: i64,
    b: i64,
)
    requires
        limited(kept, all, order_by, limit),
    ensures
        kept.contains_key(a) ==> all.contains_key(a) && kept[a] == all[a],
        limit is None ==> kept == all,
        limit matches Some(n) ==> kept.len() <= n,
        limit matches Some(n) && all.len() >= n ==> kept.len() == limit->0,
        limit matches Some(n) && all.len() < n ==> kept.len() == all.len(),
        limit is Some && kept.contains_key(a) && all.contains_key(b) && !kept.contains_key(b) ==> (
        match order_by {
            Some((c, up)) => if up {
                a < b
            } else {
                a > b
            },
            None => true,
        }),
{
    if limit is Some {
        if kept.contains_key(a) {
            assert(kept.dom().contains(a));
        }
    }
}

/// A task reads the columns that its query names.
pub proof fn a_task_reads_what_its_query_names(q: QueryView)
    ensures
        task_of(q).agg_col == q.agg_col,
        task_of(q).filter == q.filter,
        task_of(q).group_by == q.group_by,
{
}

/// A block whose columns are of one length has what a task asks for if and only
/// if it has the columns by their numbers.
pub proof fn a_full_block_has_its_columns(b: Block, t: Task, rows: nat)
    requires
        rows <= 0x1_0000_0000,
        forall|c: int| 0 <= c < b.columns@.len() ==> (#[trigger] b.columns@[c]).vals().len() == rows,
    ensures
        has_columns(b, t) <==> t.agg_col < b.columns@.len() && (t.filter matches Some((c, op, l))
            ==> c < b.columns@.len()) && (t.group_by matches Some(g) ==> g < b.columns@.len()),
{
}

} // verus!
