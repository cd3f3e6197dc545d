//! The end of a query: partial states merged, groups turned into rows, TopN,
//! and the result in words.
use crate::engine::pipeline::aggs_of;
use crate::engine::values::{
    as_val, cell_val, cells, copy_cells, find_group, group_at, groups, val_rows, vals, Acc, Group,
    GroupView, Partial, PartialView, Val, ValView,
};
use crate::plan::ast::AggFn;
use crate::plan::physical::{scan_views, OutExpr, ScanNode, ScanView};
use crate::sort::{orders, sort_positions, sorts, taken};
use crate::text::{bytes_lt_transitive, join2, str_lt, strs, strs_push, text_lt, text_lt_total};
use vstd::prelude::*;
use vstd::utf8::encode_utf8;

verus! {

// ---------------------------------------------------------------------------
// Merging
// ---------------------------------------------------------------------------

/// Accumulators merged one by one, as far as both lists go.
pub open spec fn merged_accs(a: Seq<Acc>, b: Seq<Acc>) -> Seq<Acc> {
    Seq::new(a.len(), |i: int| if i < b.len() { a[i].merged(b[i]) } else { a[i] })
}

/// Groups after one more was merged into them.
pub open spec fn merge_group(g: Seq<GroupView>, x: GroupView) -> Seq<GroupView> {
    let i = group_at(g, x.key) as int;
    if i < g.len() {
        g.update(i, GroupView { key: g[i].key, accs: merged_accs(g[i].accs, x.accs) })
    } else {
        g.push(x)
    }
}

pub open spec fn merge_groups(g: Seq<GroupView>, more: Seq<GroupView>) -> Seq<GroupView>
    decreases more.len(),
{
    if more.len() == 0 {
        g
    } else {
        merge_group(merge_groups(g, more.drop_last()), more.last())
    }
}

pub open spec fn merge_partial(a: PartialView, b: PartialView) -> PartialView {
    PartialView {
        groups: merge_groups(a.groups, b.groups),
        rows: a.rows + b.rows,
        joined_rows: a.joined_rows.wrapping_add(b.joined_rows),
        scanned_rows: a.scanned_rows.wrapping_add(b.scanned_rows),
    }
}

/// Partial states merged in order.
pub open spec fn merge_all(start: PartialView, ps: Seq<PartialView>) -> PartialView
    decreases ps.len(),
{
    if ps.len() == 0 { start } else { merge_partial(merge_all(start, ps.drop_last()), ps.last()) }
}

pub open spec fn partials(v: Seq<Partial>) -> Seq<PartialView> {
    Seq::new(v.len(), |i: int| v[i]@)
}

fn merge_acc_lists(a: &mut Vec<Acc>, b: &Vec<Acc>)
    ensures
        final(a)@ == merged_accs(old(a)@, b@),
{
    let mut k: usize = 0;
    while k < a.len() && k < b.len()
        invariant
            k <= a@.len(),
            k <= b@.len(),
            a@.len() == old(a)@.len(),
            forall|i: int| 0 <= i < k ==> a@[i] == old(a)@[i].merged(b@[i]),
            forall|i: int| k <= i < a@.len() ==> a@[i] == old(a)@[i],
        decreases a@.len() - k,
    {
        let mut x: Acc = a[k];
        x.merge(&b[k]);
        a.set(k, x);
        k += 1;
    }
    assert(a@ =~= merged_accs(old(a)@, b@));
}

/// Merges one partial state into another.
pub fn merge_into(a: &mut Partial, b: Partial)
    ensures
        final(a)@ == merge_partial(old(a)@, b@),
{
    let ghost a0 = a@;
    let ghost bv = b@;
    let mut rows: Vec<Vec<Val>> = b.rows;
    let ghost ar = a.rows@;
    let ghost br = rows@;
    a.rows.append(&mut rows);
    assert(val_rows(a.rows@) =~= val_rows(ar) + val_rows(br));
    a.joined_rows = a.joined_rows.wrapping_add(b.joined_rows);
    a.scanned_rows = a.scanned_rows.wrapping_add(b.scanned_rows);
    let ghost rv = val_rows(a.rows@);
    let more: Vec<Group> = b.groups;
    let ghost mv = groups(more@);
    let mut k: usize = 0;
    assert(mv.take(0) =~= Seq::<GroupView>::empty());
    while k < more.len()
        invariant
            k <= more@.len(),
            mv == groups(more@),
            groups(a.groups@) == merge_groups(a0.groups, mv.take(k as int)),
            val_rows(a.rows@) == rv,
            a.joined_rows == a0.joined_rows.wrapping_add(bv.joined_rows),
            a.scanned_rows == a0.scanned_rows.wrapping_add(bv.scanned_rows),
        decreases more@.len() - k,
    {
        let ghost before = a.groups@;
        proof {
            assert(mv.take(k + 1).drop_last() =~= mv.take(k as int));
            assert(mv.take(k + 1).last() == more@[k as int]@);
        }
        let i: usize = find_group(&a.groups, &more[k].key);
        if i < a.groups.len() {
            assert(groups(before)[i as int] == before[i as int]@);
            merge_acc_lists(&mut a.groups[i].accs, &more[k].accs);
            assert(groups(a.groups@) =~= merge_group(groups(before), more@[k as int]@));
        } else {
            let g: Group = Group {
                key: copy_cells(&more[k].key),
                accs: copy_accs(&more[k].accs),
            };
            a.groups.push(g);
            assert(groups(a.groups@) =~= groups(before).push(more@[k as int]@));
        }
        k += 1;
    }
    assert(mv.take(k as int) =~= mv);
    assert(a@ =~= merge_partial(a0, bv));
}

fn copy_accs(v: &Vec<Acc>) -> (r: Vec<Acc>)
    ensures
        r@ == v@,
{
    let mut out: Vec<Acc> = Vec::new();
    let mut k: usize = 0;
    while k < v.len()
        invariant
            k <= v@.len(),
            out@ == v@.take(k as int),
        decreases v@.len() - k,
    {
        out.push(v[k]);
        k += 1;
        assert(out@ =~= v@.take(k as int));
    }
    assert(v@.take(k as int) =~= v@);
    out
}

// ---------------------------------------------------------------------------
// Groups as rows
// ---------------------------------------------------------------------------

/// The last place of a column among the grouping columns.
pub open spec fn group_place(group_by: Seq<(usize, usize)>, s: usize, p: usize) -> Option<int>
    decreases group_by.len(),
{
    if group_by.len() == 0 {
        None
    } else if group_by.last() == (s, p) {
        Some(group_by.len() - 1)
    } else {
        group_place(group_by.drop_last(), s, p)
    }
}

/// Output value `i` of a group.
pub open spec fn group_val(
    output: Seq<OutExpr>,
    group_by: Seq<(usize, usize)>,
    g: GroupView,
    i: int,
) -> ValView {
    match output[i] {
        OutExpr::Col(s, p) => as_val(g.key[group_place(group_by, s, p)->0]),
        OutExpr::Agg(f, _, _) => g.accs[aggs_of(output.take(i)).len() as int].yields(f),
    }
}

pub open spec fn group_row(
    output: Seq<OutExpr>,
    group_by: Seq<(usize, usize)>,
    g: GroupView,
) -> Seq<ValView> {
    Seq::new(output.len(), |i: int| group_val(output, group_by, g, i))
}

/// Whether every plain output column is grouped by.
pub open spec fn output_grouped(output: Seq<OutExpr>, group_by: Seq<(usize, usize)>) -> bool {
    forall|i: int|
        0 <= i < output.len() ==> match #[trigger] output[i] {
            OutExpr::Col(s, p) => group_place(group_by, s, p) is Some,
            OutExpr::Agg(_, _, _) => true,
        }
}

/// Whether every group has a cell per grouping column and an accumulator per
/// aggregate.
pub open spec fn groups_fit(
    output: Seq<OutExpr>,
    group_by: Seq<(usize, usize)>,
    g: Seq<GroupView>,
) -> bool {
    forall|i: int|
        0 <= i < g.len() ==> (#[trigger] g[i]).key.len() == group_by.len() && g[i].accs.len()
            == aggs_of(output).len()
}

/// The rows of a result before it is ordered.
pub open spec fn result_rows(
    output: Seq<OutExpr>,
    group_by: Seq<(usize, usize)>,
    p: PartialView,
) -> Seq<Seq<ValView>> {
    if aggs_of(output).len() > 0 {
        p.rows + Seq::new(p.groups.len(), |i: int| group_row(output, group_by, p.groups[i]))
    } else {
        p.rows
    }
}

proof fn group_place_in(group_by: Seq<(usize, usize)>, s: usize, p: usize)
    ensures
        group_place(group_by, s, p) matches Some(i) ==> 0 <= i < group_by.len() && group_by[i] == (
            s,
            p,
        ),
    decreases group_by.len(),
{
    if group_by.len() > 0 {
        group_place_in(group_by.drop_last(), s, p);
    }
}

proof fn aggs_grow(output: Seq<OutExpr>, k: int)
    requires
        0 <= k < output.len(),
    ensures
        aggs_of(output.take(k + 1)).len() <= aggs_of(output).len(),
        aggs_of(output.take(k + 1)).len() == aggs_of(output.take(k)).len() + (if output[k] is Agg {
            1int
        } else {
            0
        }),
    decreases output.len(),
{
    assert(output.take(k + 1).drop_last() =~= output.take(k));
    if k + 1 == output.len() {
        assert(output.take(k + 1) =~= output);
    } else {
        aggs_grow(output.drop_last(), k);
        assert(output.drop_last().take(k + 1) =~= output.take(k + 1));
    }
}

pub(crate) fn find_place(group_by: &Vec<(usize, usize)>, s: usize, p: usize) -> (r: Option<usize>)
    ensures
        match r {
            None => group_place(group_by@, s, p) is None,
            Some(i) => i < group_by@.len() && group_place(group_by@, s, p) == Some(i as int),
        },
{
    let mut k: usize = group_by.len();
    assert(group_by@.take(k as int) =~= group_by@);
    while k > 0
        invariant
            k <= group_by@.len(),
            group_place(group_by@, s, p) == group_place(group_by@.take(k as int), s, p),
        decreases k,
    {
        assert(group_by@.take(k as int).drop_last() =~= group_by@.take(k - 1));
        assert(group_by@.take(k as int).last() == group_by@[k - 1]);
        if group_by[k - 1].0 == s && group_by[k - 1].1 == p {
            return Some(k - 1);
        }
        k -= 1;
    }
    None
}

fn project_group(output: &Vec<OutExpr>, group_by: &Vec<(usize, usize)>, g: &Group) -> (r: Vec<Val>)
    requires
        output_grouped(output@, group_by@),
        g@.key.len() == group_by@.len(),
        g@.accs.len() == aggs_of(output@).len(),
    ensures
        vals(r@) == group_row(output@, group_by@, g@),
{
    let mut out: Vec<Val> = Vec::new();
    let mut ai: usize = 0;
    let mut k: usize = 0;
    assert(output@.take(0) =~= Seq::<OutExpr>::empty());
    while k < output.len()
        invariant
            k <= output@.len(),
            output_grouped(output@, group_by@),
            g@.key.len() == group_by@.len(),
            g@.accs.len() == aggs_of(output@).len(),
            ai == aggs_of(output@.take(k as int)).len(),
            ai <= aggs_of(output@).len(),
            out@.len() == k,
            forall|i: int|
                0 <= i < k ==> (#[trigger] out@[i])@ == group_val(output@, group_by@, g@, i),
        decreases output@.len() - k,
    {
        proof {
            aggs_grow(output@, k as int);
        }
        match output[k] {
            OutExpr::Col(s, p) => {
                assert(output@[k as int] == OutExpr::Col(s, p));
                proof {
                    group_place_in(group_by@, s, p);
                }
                match find_place(group_by, s, p) {
                    Some(i) => {
                        assert(cells(g.key@)[i as int] == g.key@[i as int]@);
                        out.push(cell_val(&g.key[i]));
                    },
                    None => {},
                }
            },
            OutExpr::Agg(f, _, _) => {
                let n: usize = g.accs.len();
                assert(ai < n);
                out.push(g.accs[ai].result(f));
                ai += 1;
            },
        }
        k += 1;
    }
    assert(vals(out@) =~= group_row(output@, group_by@, g@));
    out
}

/// Turns a merged state into the rows of the result.
pub fn finish(output: &Vec<OutExpr>, group_by: &Vec<(usize, usize)>, p: Partial) -> (rows: Vec<
    Vec<Val>,
>)
    requires
        aggs_of(output@).len() > 0 && p@.groups.len() > 0 ==> output_grouped(output@, group_by@),
        aggs_of(output@).len() > 0 ==> groups_fit(output@, group_by@, p@.groups),
    ensures
        val_rows(rows@) == result_rows(output@, group_by@, p@),
{
    let aggs: Vec<(AggFn, usize, usize)> = crate::engine::pipeline::collect_aggs(output);
    let mut rows: Vec<Vec<Val>> = p.rows;
    if aggs.len() == 0 {
        return rows;
    }
    let ghost start = val_rows(rows@);
    let ghost gv = groups(p.groups@);
    let ghost made = Seq::new(gv.len(), |i: int| group_row(output@, group_by@, gv[i]));
    let mut k: usize = 0;
    assert(start + made.take(0) =~= start);
    while k < p.groups.len()
        invariant
            k <= p.groups@.len(),
            gv == groups(p.groups@),
            gv.len() > 0 ==> output_grouped(output@, group_by@),
            groups_fit(output@, group_by@, gv),
            made == Seq::new(gv.len(), |i: int| group_row(output@, group_by@, gv[i])),
            val_rows(rows@) == start + made.take(k as int),
        decreases p.groups@.len() - k,
    {
        assert(gv[k as int] == p.groups@[k as int]@);
        let ghost before = val_rows(rows@);
        let r: Vec<Val> = project_group(output, group_by, &p.groups[k]);
        rows.push(r);
        proof {
            assert(val_rows(rows@) =~= before.push(vals(r@)));
            assert(start + made.take(k + 1) =~= before.push(made[k as int]));
        }
        k += 1;
    }
    assert(made.take(k as int) =~= made);
    rows
}

// ---------------------------------------------------------------------------
// TopN
// ---------------------------------------------------------------------------

/// What rows are ordered by: a column of integers or of texts, or numbers that
/// order as averages do.
pub enum OrderKeys {
    Ints(Seq<i64>),
    Texts(Seq<Seq<char>>),
    Ranks(Seq<u64>),
}

impl OrderKeys {
    pub open spec fn lt(self, a: int, b: int) -> bool {
        match self {
            OrderKeys::Ints(v) => v[a] < v[b],
            OrderKeys::Texts(v) => text_lt(v[a], v[b]),
            OrderKeys::Ranks(v) => v[a] < v[b],
        }
    }

    /// `a` before `b`, or after it where the order is descending.
    pub open spec fn before(self, desc: bool, a: int, b: int) -> bool {
        if desc { self.lt(b, a) } else { self.lt(a, b) }
    }
}

/// The keys of column `pos`: of the first row's kind, with zero or nothing
/// for a cell of another kind.
pub open spec fn order_keys(rows: Seq<Seq<ValView>>, pos: int, ranks: Seq<u64>) -> OrderKeys {
    if rows.len() == 0 || rows[0][pos] is I {
        OrderKeys::Ints(
            Seq::new(
                rows.len(),
                |i: int|
                    match rows[i][pos] {
                        ValView::I(v) => v,
                        _ => 0,
                    },
            ),
        )
    } else if rows[0][pos] is S {
        OrderKeys::Texts(
            Seq::new(
                rows.len(),
                |i: int|
                    match rows[i][pos] {
                        ValView::S(s) => s,
                        _ => Seq::empty(),
                    },
            ),
        )
    } else {
        OrderKeys::Ranks(ranks)
    }
}

/// The order of rows by their keys.
pub open spec fn row_order(keys: OrderKeys, desc: bool) -> spec_fn(int, int) -> bool {
    |a: int, b: int| keys.before(desc, a, b)
}

/// Rows in the order asked for; ties stay in their order.
pub open spec fn ordered(
    rows: Seq<Seq<ValView>>,
    keys: OrderKeys,
    desc: bool,
    out: Seq<Seq<ValView>>,
) -> bool {
    exists|at: Seq<usize>|
        #[trigger] sorts(row_order(keys, desc), rows.len(), at) && out == taken(
            rows,
            at,
        )
}

pub open spec fn limited(rows: Seq<Seq<ValView>>, limit: Option<usize>) -> Seq<Seq<ValView>> {
    match limit {
        Some(n) => if n < rows.len() { rows.take(n as int) } else { rows },
        None => rows,
    }
}

proof fn text_order(v: Seq<Seq<char>>, n: int)
    requires
        n <= v.len(),
    ensures
        forall|a: int, b: int|
            0 <= a < n && 0 <= b < n ==> !(#[trigger] text_lt(v[a], v[b]) && text_lt(v[b], v[a])),
        forall|a: int, b: int, c: int|
            #![trigger text_lt(v[a], v[b]), text_lt(v[b], v[c])]
            0 <= a < n && 0 <= b < n && 0 <= c < n && text_lt(v[a], v[b]) && text_lt(v[b], v[c])
                ==> text_lt(v[a], v[c]),
        forall|a: int, b: int, c: int|
            #![trigger text_lt(v[a], v[b]), text_lt(v[b], v[c])]
            0 <= a < n && 0 <= b < n && 0 <= c < n && !text_lt(v[a], v[b]) && !text_lt(v[b], v[c])
                ==> !text_lt(v[a], v[c]),
{
    assert forall|a: int, b: int| 0 <= a < n && 0 <= b < n implies !(#[trigger] text_lt(v[a], v[b])
        && text_lt(v[b], v[a])) by {
        text_lt_total(v[a], v[b]);
    }
    assert forall|a: int, b: int, c: int|
        #![trigger text_lt(v[a], v[b]), text_lt(v[b], v[c])]
        0 <= a < n && 0 <= b < n && 0 <= c < n && text_lt(v[a], v[b]) && text_lt(
            v[b],
            v[c],
        ) implies text_lt(v[a], v[c]) by {
        bytes_lt_transitive(encode_utf8(v[a]), encode_utf8(v[b]), encode_utf8(v[c]));
    }
    assert forall|a: int, b: int, c: int|
        #![trigger text_lt(v[a], v[b]), text_lt(v[b], v[c])]
        0 <= a < n && 0 <= b < n && 0 <= c < n && !text_lt(v[a], v[b]) && !text_lt(
            v[b],
            v[c],
        ) implies !text_lt(v[a], v[c]) by {
        text_lt_total(v[a], v[b]);
        text_lt_total(v[b], v[c]);
        text_lt_total(v[a], v[c]);
        if text_lt(v[a], v[c]) {
            if text_lt(v[b], v[a]) {
                bytes_lt_transitive(encode_utf8(v[b]), encode_utf8(v[a]), encode_utf8(v[c]));
            }
        }
    }
}

/// Keys order rows, up to ties, in either direction.
pub proof fn keys_order(keys: OrderKeys, desc: bool, n: int)
    requires
        match keys {
            OrderKeys::Ints(v) => n <= v.len(),
            OrderKeys::Texts(v) => n <= v.len(),
            OrderKeys::Ranks(v) => n <= v.len(),
        },
    ensures
        orders(row_order(keys, desc), n),
{
    let less = row_order(keys, desc);
    if let OrderKeys::Texts(v) = keys {
        text_order(v, n);
        assert forall|a: int, b: int, c: int|
            #![trigger less(a, b), less(b, c)]
            0 <= a < n && 0 <= b < n && 0 <= c < n && less(a, b) && less(b, c) implies less(
            a,
            c,
        ) by {
            if desc {
                assert(text_lt(v[c], v[b]) && text_lt(v[b], v[a]));
            } else {
                assert(text_lt(v[a], v[b]) && text_lt(v[b], v[c]));
            }
        }
        assert forall|a: int, b: int, c: int|
            #![trigger less(a, b), less(b, c)]
            0 <= a < n && 0 <= b < n && 0 <= c < n && !less(a, b) && !less(b, c) implies !less(
            a,
            c,
        ) by {
            if desc {
                assert(!text_lt(v[c], v[b]) && !text_lt(v[b], v[a]));
            } else {
                assert(!text_lt(v[a], v[b]) && !text_lt(v[b], v[c]));
            }
        }
    }
}

fn copy_row(r: &Vec<Val>) -> (out: Vec<Val>)
    ensures
        vals(out@) == vals(r@),
{
    let mut out: Vec<Val> = Vec::new();
    let mut k: usize = 0;
    assert(vals(out@) =~= vals(r@).take(0));
    while k < r.len()
        invariant
            k <= r@.len(),
            vals(out@) == vals(r@).take(k as int),
        decreases r@.len() - k,
    {
        let ghost before = vals(out@);
        let v: Val = match &r[k] {
            Val::I(x) => Val::I(*x),
            Val::S(s) => Val::S(s.clone()),
            Val::F(a, b) => Val::F(*a, *b),
        };
        out.push(v);
        proof {
            assert(vals(out@) =~= before.push(v@));
            assert(vals(r@).take(k + 1) =~= vals(r@).take(k as int).push(vals(r@)[k as int]));
        }
        k += 1;
    }
    assert(vals(r@).take(k as int) =~= vals(r@));
    out
}

fn take_rows(rows: &Vec<Vec<Val>>, at: &Vec<usize>) -> (out: Vec<Vec<Val>>)
    requires
        forall|i: int| 0 <= i < at@.len() ==> (#[trigger] at@[i]) < rows@.len(),
    ensures
        val_rows(out@) == taken(val_rows(rows@), at@),
{
    let ghost want = taken(val_rows(rows@), at@);
    let mut out: Vec<Vec<Val>> = Vec::new();
    let mut k: usize = 0;
    assert(val_rows(out@) =~= want.take(0));
    while k < at.len()
        invariant
            k <= at@.len(),
            want == taken(val_rows(rows@), at@),
            forall|i: int| 0 <= i < at@.len() ==> (#[trigger] at@[i]) < rows@.len(),
            val_rows(out@) == want.take(k as int),
        decreases at@.len() - k,
    {
        let ghost before = val_rows(out@);
        assert(at@[k as int] < rows@.len());
        let r: Vec<Val> = copy_row(&rows[at[k]]);
        out.push(r);
        proof {
            assert(val_rows(out@) =~= before.push(vals(r@)));
            assert(want.take(k + 1) =~= want.take(k as int).push(want[k as int]));
        }
        k += 1;
    }
    assert(want.take(k as int) =~= want);
    out
}

/// Sorts positions by one of three kinds of keys.
fn sort_by_column(rows: &Vec<Vec<Val>>, pos: usize, ranks: &Vec<u64>, desc: bool) -> (at: Vec<
    usize,
>)
    requires
        forall|i: int| 0 <= i < rows@.len() ==> pos < (#[trigger] rows@[i])@.len(),
        ranks@.len() == rows@.len(),
    ensures
        sorts(
            row_order(order_keys(val_rows(rows@), pos as int, ranks@), desc),
            rows@.len(),
            at@,
        ),
{
    let ghost rv = val_rows(rows@);
    let ghost keys = order_keys(rv, pos as int, ranks@);
    let ghost less = row_order(keys, desc);
    let n: usize = rows.len();
    proof {
        keys_order(keys, desc, n as int);
        assert forall|i: int| 0 <= i < n implies #[trigger] rv[i][pos as int]
            == rows@[i]@[pos as int]@ by {
            assert(pos < rows@[i]@.len());
        }
    }
    let kind: u8 = if n == 0 {
        0
    } else {
        assert(pos < rows@[0]@.len());
        match &rows[0][pos] {
            Val::I(_) => 0,
            Val::S(_) => 1,
            Val::F(_, _) => 2,
        }
    };
    assert(n > 0 ==> rv[0][pos as int] == rows@[0]@[pos as int]@);
    if kind == 0 {
        let mut ints: Vec<i64> = Vec::new();
        let mut k: usize = 0;
        while k < n
            invariant
                k <= n,
                n == rows@.len(),
                rv == val_rows(rows@),
                forall|i: int| 0 <= i < rows@.len() ==> pos < (#[trigger] rows@[i])@.len(),
                ints@.len() == k,
                forall|i: int|
                    0 <= i < k ==> #[trigger] ints@[i] == (match rv[i][pos as int] {
                        ValView::I(v) => v,
                        _ => 0,
                    }),
            decreases n - k,
        {
            assert(pos < rows@[k as int]@.len());
            assert(rv[k as int][pos as int] == rows@[k as int]@[pos as int]@);
            let v: i64 = match &rows[k][pos] {
                Val::I(v) => *v,
                _ => 0,
            };
            ints.push(v);
            k += 1;
        }
        assert(keys == OrderKeys::Ints(ints@)) by {
            assert(keys->Ints_0 =~= ints@);
        }
        let lt = |a: usize, b: usize| -> (r: bool)
            requires
                a < ints@.len(),
                b < ints@.len(),
            ensures
                r == (if desc { ints@[b as int] < ints@[a as int] } else { ints@[a as int]
                    < ints@[b as int] }),
            {
                if desc {
                    ints[b] < ints[a]
                } else {
                    ints[a] < ints[b]
                }
            };
        sort_positions(n, &lt, Ghost(less))
    } else if kind == 1 {
        let mut texts: Vec<String> = Vec::new();
        let mut k: usize = 0;
        assert(strs(texts@) =~= Seq::<Seq<char>>::empty());
        while k < n
            invariant
                k <= n,
                n == rows@.len(),
                rv == val_rows(rows@),
                forall|i: int| 0 <= i < rows@.len() ==> pos < (#[trigger] rows@[i])@.len(),
                texts@.len() == k,
                forall|i: int|
                    0 <= i < k ==> #[trigger] strs(texts@)[i] == (match rv[i][pos as int] {
                        ValView::S(s) => s,
                        _ => Seq::empty(),
                    }),
            decreases n - k,
        {
            assert(pos < rows@[k as int]@.len());
            assert(rv[k as int][pos as int] == rows@[k as int]@[pos as int]@);
            let ghost before = texts@;
            let s: String = match &rows[k][pos] {
                Val::S(s) => s.clone(),
                _ => String::new(),
            };
            texts.push(s);
            proof {
                strs_push(before, s);
            }
            k += 1;
        }
        assert(keys == OrderKeys::Texts(strs(texts@))) by {
            assert(keys->Texts_0 =~= strs(texts@));
        }
        assert(forall|i: int| 0 <= i < n ==> #[trigger] strs(texts@)[i] == texts@[i]@);
        let lt = |a: usize, b: usize| -> (r: bool)
            requires
                a < texts@.len(),
                b < texts@.len(),
            ensures
                r == (if desc { text_lt(texts@[b as int]@, texts@[a as int]@) } else { text_lt(
                    texts@[a as int]@,
                    texts@[b as int]@,
                ) }),
            {
                if desc {
                    str_lt(texts[b].as_str(), texts[a].as_str())
                } else {
                    str_lt(texts[a].as_str(), texts[b].as_str())
                }
            };
        sort_positions(n, &lt, Ghost(less))
    } else {
        assert(keys == OrderKeys::Ranks(ranks@));
        let lt = |a: usize, b: usize| -> (r: bool)
            requires
                a < ranks@.len(),
                b < ranks@.len(),
            ensures
                r == (if desc { ranks@[b as int] < ranks@[a as int] } else { ranks@[a as int]
                    < ranks@[b as int] }),
            {
                if desc {
                    ranks[b] < ranks[a]
                } else {
                    ranks[a] < ranks[b]
                }
            };
        sort_positions(n, &lt, Ghost(less))
    }
}

/// Orders the rows of a result and cuts them off at the limit. `ranks` holds,
/// for a column of averages, numbers that order as the averages do.
pub fn top_n(
    rows: Vec<Vec<Val>>,
    order_by: Option<(usize, bool)>,
    limit: Option<usize>,
    ranks: &Vec<u64>,
) -> (out: Vec<Vec<Val>>)
    requires
        order_by matches Some((pos, _)) ==> forall|i: int|
            0 <= i < rows@.len() ==> pos < (#[trigger] rows@[i])@.len(),
        ranks@.len() == rows@.len(),
    ensures
        match order_by {
            None => val_rows(out@) == limited(val_rows(rows@), limit),
            Some((pos, desc)) => exists|all: Seq<Seq<ValView>>|
                #[trigger] ordered(
                    val_rows(rows@),
                    order_keys(val_rows(rows@), pos as int, ranks@),
                    desc,
                    all,
                ) && val_rows(out@) == limited(all, limit),
        },
{
    let mut out: Vec<Vec<Val>> = match order_by {
        None => rows,
        Some((pos, desc)) => {
            let at: Vec<usize> = sort_by_column(&rows, pos, ranks, desc);
            let r: Vec<Vec<Val>> = take_rows(&rows, &at);
            assert(ordered(
                val_rows(rows@),
                order_keys(val_rows(rows@), pos as int, ranks@),
                desc,
                val_rows(r@),
            ));
            r
        },
    };
    let ghost all = val_rows(out@);
    if let Some(n) = limit {
        let ghost before = out@;
        if n < out.len() {
            out.truncate(n);
            assert(val_rows(out@) =~= all.take(n as int));
        }
    }
    assert(val_rows(out@) == limited(all, limit));
    out
}

// ---------------------------------------------------------------------------
// The result in words
// ---------------------------------------------------------------------------

pub open spec fn agg_name(f: AggFn) -> Seq<char> {
    match f {
        AggFn::Sum => "SUM"@,
        AggFn::Count => "COUNT"@,
        AggFn::Min => "MIN"@,
        AggFn::Max => "MAX"@,
        AggFn::Avg => "AVG"@,
    }
}

/// The heading of an output column.
pub open spec fn heading(scans: Seq<ScanView>, o: OutExpr) -> Seq<char> {
    match o {
        OutExpr::Col(s, p) => scans[s as int].cols[p as int].name,
        OutExpr::Agg(f, s, p) => if p == usize::MAX {
            agg_name(f) + "(*)"@
        } else {
            agg_name(f) + "("@ + scans[s as int].cols[p as int].name + ")"@
        },
    }
}

/// The headings of a result.
pub fn header(scans: &Vec<ScanNode>, output: &Vec<OutExpr>) -> (r: Vec<String>)
    requires
        forall|i: int|
            0 <= i < output@.len() ==> match #[trigger] output@[i] {
                OutExpr::Col(s, p) => s < scans@.len() && p < scans@[s as int].cols@.len(),
                OutExpr::Agg(_, s, p) => p == usize::MAX || (s < scans@.len() && p
                    < scans@[s as int].cols@.len()),
            },
    ensures
        strs(r@) == Seq::new(output@.len(), |i: int| heading(scan_views(scans@), output@[i])),
{
    let ghost want = Seq::new(output@.len(), |i: int| heading(scan_views(scans@), output@[i]));
    let mut out: Vec<String> = Vec::new();
    let mut k: usize = 0;
    assert(strs(out@) =~= want.take(0));
    while k < output.len()
        invariant
            k <= output@.len(),
            forall|i: int|
                0 <= i < output@.len() ==> match #[trigger] output@[i] {
                    OutExpr::Col(s, p) => s < scans@.len() && p < scans@[s as int].cols@.len(),
                    OutExpr::Agg(_, s, p) => p == usize::MAX || (s < scans@.len() && p
                        < scans@[s as int].cols@.len()),
                },
            want == Seq::new(output@.len(), |i: int| heading(scan_views(scans@), output@[i])),
            strs(out@) == want.take(k as int),
        decreases output@.len() - k,
    {
        let ghost before = out@;
        let ghost oo = output@[k as int];
        let h: String = match output[k] {
            OutExpr::Col(s, p) => {
                assert(oo == OutExpr::Col(s, p));
                assert(scan_views(scans@)[s as int] == scans@[s as int]@);
                scans[s].cols[p].1.clone()
            },
            OutExpr::Agg(f, s, p) => {
                assert(oo == OutExpr::Agg(f, s, p));
                let name: &str = match f {
                    AggFn::Sum => "SUM",
                    AggFn::Count => "COUNT",
                    AggFn::Min => "MIN",
                    AggFn::Max => "MAX",
                    AggFn::Avg => "AVG",
                };
                if p == usize::MAX {
                    join2(name, "(*)")
                } else {
                    assert(scan_views(scans@)[s as int] == scans@[s as int]@);
                    let a: String = join2(name, "(");
                    let b: String = join2(a.as_str(), scans[s].cols[p].1.as_str());
                    join2(b.as_str(), ")")
                }
            },
        };
        out.push(h);
        proof {
            strs_push(before, h);
            assert(want.take(k + 1) =~= want.take(k as int).push(want[k as int]));
        }
        k += 1;
    }
    assert(want.take(k as int) =~= want);
    out
}

/// `n` copies of a character.
pub open spec fn repeated(c: char, n: nat) -> Seq<char> {
    Seq::new(n, |i: int| c)
}

/// How much is missing to a width.
pub open spec fn missing(s: Seq<char>, w: nat) -> nat {
    if s.len() < w { (w - s.len()) as nat } else { 0 }
}

pub open spec fn longer(a: nat, b: nat) -> nat {
    if a > b { a } else { b }
}

/// The byte length of the longest text in a column, its heading among them.
pub open spec fn width(header: Seq<Seq<char>>, rows: Seq<Seq<Seq<char>>>, c: int) -> nat
    decreases rows.len(),
{
    if rows.len() == 0 {
        encode_utf8(header[c]).len()
    } else {
        let w = width(header, rows.drop_last(), c);
        if c < rows.last().len() { longer(w, encode_utf8(rows.last()[c]).len()) } else { w }
    }
}

pub open spec fn widths(header: Seq<Seq<char>>, rows: Seq<Seq<Seq<char>>>) -> Seq<nat> {
    Seq::new(header.len(), |c: int| width(header, rows, c))
}

/// The dashes and corners of a rule, up to a column.
pub open spec fn rule_cells(ws: Seq<nat>) -> Seq<char>
    decreases ws.len(),
{
    if ws.len() == 0 {
        seq!['+']
    } else {
        rule_cells(ws.drop_last()) + repeated('-', ws.last() + 2) + seq!['+']
    }
}

/// A row's cells between bars, to the left or to the right.
pub open spec fn bar_cells(cs: Seq<Seq<char>>, ws: Seq<nat>, left: bool) -> Seq<char>
    decreases cs.len(),
{
    if cs.len() == 0 {
        seq!['|']
    } else {
        let c = cs.last();
        let pad = repeated(' ', missing(c, ws[cs.len() - 1]));
        bar_cells(cs.drop_last(), ws, left) + seq![' '] + (if left { c + pad } else { pad + c })
            + seq![' ', '|']
    }
}

pub open spec fn body_lines(rows: Seq<Seq<Seq<char>>>, ws: Seq<nat>) -> Seq<char>
    decreases rows.len(),
{
    if rows.len() == 0 {
        Seq::empty()
    } else {
        body_lines(rows.drop_last(), ws) + bar_cells(rows.last(), ws, false).push('\n')
    }
}

/// The result as a table: headings to the left, cells to the right.
pub open spec fn rendered(header: Seq<Seq<char>>, rows: Seq<Seq<Seq<char>>>) -> Seq<char> {
    let ws = widths(header, rows);
    let rule = rule_cells(ws).push('\n');
    rule + bar_cells(header, ws, true).push('\n') + rule + body_lines(rows, ws) + rule
}

pub open spec fn text_rows(v: Seq<Vec<String>>) -> Seq<Seq<Seq<char>>> {
    Seq::new(v.len(), |i: int| strs(v[i]@))
}

fn put_repeated(out: &mut String, c: char, n: usize)
    ensures
        final(out)@ == old(out)@ + repeated(c, n as nat),
{
    let mut k: usize = 0;
    assert(out@ + repeated(c, 0) =~= out@);
    while k < n
        invariant
            k <= n,
            out@ == old(out)@ + repeated(c, k as nat),
        decreases n - k,
    {
        out.push(c);
        k += 1;
        assert(out@ =~= old(out)@ + repeated(c, k as nat));
    }
}

pub open spec fn as_nats(v: Seq<usize>) -> Seq<nat> {
    Seq::new(v.len(), |i: int| v[i] as nat)
}

fn put_rule(out: &mut String, ws: &Vec<usize>)
    requires
        forall|i: int| 0 <= i < ws@.len() ==> (#[trigger] ws@[i]) <= usize::MAX - 2,
    ensures
        final(out)@ == old(out)@ + rule_cells(as_nats(ws@)).push('\n'),
{
    let ghost wv = as_nats(ws@);
    out.push('+');
    let mut k: usize = 0;
    assert(out@ =~= old(out)@ + rule_cells(wv.take(0)));
    while k < ws.len()
        invariant
            k <= ws@.len(),
            wv == as_nats(ws@),
            forall|i: int| 0 <= i < ws@.len() ==> (#[trigger] ws@[i]) <= usize::MAX - 2,
            out@ == old(out)@ + rule_cells(wv.take(k as int)),
        decreases ws@.len() - k,
    {
        proof {
            assert(wv.take(k + 1).drop_last() =~= wv.take(k as int));
            assert(ws@[k as int] <= usize::MAX - 2);
        }
        put_repeated(out, '-', ws[k] + 2);
        out.push('+');
        assert(out@ =~= old(out)@ + rule_cells(wv.take(k + 1)));
        k += 1;
    }
    assert(wv.take(k as int) =~= wv);
    out.push('\n');
    assert(out@ =~= old(out)@ + rule_cells(wv).push('\n'));
}

fn put_bar(out: &mut String, cs: &Vec<String>, ws: &Vec<usize>, left: bool)
    requires
        cs@.len() <= ws@.len(),
    ensures
        final(out)@ == old(out)@ + bar_cells(strs(cs@), as_nats(ws@), left).push('\n'),
{
    let ghost cv = strs(cs@);
    let ghost wv = as_nats(ws@);
    out.push('|');
    let mut k: usize = 0;
    assert(out@ =~= old(out)@ + bar_cells(cv.take(0), wv, left));
    while k < cs.len()
        invariant
            k <= cs@.len(),
            cs@.len() <= ws@.len(),
            cv == strs(cs@),
            wv == as_nats(ws@),
            out@ == old(out)@ + bar_cells(cv.take(k as int), wv, left),
        decreases cs@.len() - k,
    {
        let ghost before = out@;
        let c: &str = cs[k].as_str();
        proof {
            assert(cv.take(k + 1).drop_last() =~= cv.take(k as int));
            assert(cv.take(k + 1).last() == c@);
        }
        let n: usize = c.unicode_len();
        let pad: usize = if n < ws[k] {
            ws[k] - n
        } else {
            0
        };
        out.push(' ');
        if left {
            out.append(c);
            put_repeated(out, ' ', pad);
        } else {
            put_repeated(out, ' ', pad);
            out.append(c);
        }
        out.push(' ');
        out.push('|');
        assert(out@ =~= old(out)@ + bar_cells(cv.take(k + 1), wv, left));
        k += 1;
    }
    assert(cv.take(k as int) =~= cv);
    out.push('\n');
    assert(out@ =~= old(out)@ + bar_cells(cv, wv, left).push('\n'));
}

fn column_widths(header: &Vec<String>, rows: &Vec<Vec<String>>) -> (ws: Vec<usize>)
    ensures
        as_nats(ws@) == widths(strs(header@), text_rows(rows@)),
{
    let ghost hv = strs(header@);
    let ghost rv = text_rows(rows@);
    let mut ws: Vec<usize> = Vec::new();
    let mut c: usize = 0;
    while c < header.len()
        invariant
            c <= header@.len(),
            hv == strs(header@),
            rv == text_rows(rows@),
            ws@.len() == c,
            forall|i: int| 0 <= i < c ==> (#[trigger] ws@[i]) == width(hv, rv, i),
        decreases header@.len() - c,
    {
        let mut w: usize = header[c].as_str().as_bytes().len();
        let mut r: usize = 0;
        assert(rv.take(0) =~= Seq::<Seq<Seq<char>>>::empty());
        assert(w == encode_utf8(hv[c as int]).len());
        while r < rows.len()
            invariant
                r <= rows@.len(),
                c < header@.len(),
                hv == strs(header@),
                rv == text_rows(rows@),
                w == width(hv, rv.take(r as int), c as int),
            decreases rows@.len() - r,
        {
            proof {
                assert(rv.take(r + 1).drop_last() =~= rv.take(r as int));
                assert(rv.take(r + 1).last() == strs(rows@[r as int]@));
            }
            if c < rows[r].len() {
                let n: usize = rows[r][c].as_str().as_bytes().len();
                if n > w {
                    w = n;
                }
            }
            r += 1;
        }
        assert(rv.take(r as int) =~= rv);
        ws.push(w);
        c += 1;
    }
    assert(as_nats(ws@) =~= widths(hv, rv));
    ws
}

/// Shows a result as a table. Cells come in as texts.
pub fn render(header: &Vec<String>, rows: &Vec<Vec<String>>) -> (out: String)
    requires
        forall|i: int| 0 <= i < rows@.len() ==> (#[trigger] rows@[i])@.len() <= header@.len(),
        forall|c: int|
            0 <= c < header@.len() ==> #[trigger] width(strs(header@), text_rows(rows@), c)
                <= usize::MAX - 2,
    ensures
        out@ == rendered(strs(header@), text_rows(rows@)),
{
    let ghost hv = strs(header@);
    let ghost rv = text_rows(rows@);
    let ws: Vec<usize> = column_widths(header, rows);
    let ghost wv = as_nats(ws@);
    proof {
        assert(wv.len() == header@.len());
        assert forall|i: int| 0 <= i < ws@.len() implies (#[trigger] ws@[i]) <= usize::MAX - 2 by {
            assert(wv[i] == width(hv, rv, i));
        }
    }
    let mut s: String = String::new();
    put_rule(&mut s, &ws);
    put_bar(&mut s, header, &ws, true);
    put_rule(&mut s, &ws);
    let ghost head = s@;
    let mut k: usize = 0;
    assert(s@ =~= head + body_lines(rv.take(0), wv));
    while k < rows.len()
        invariant
            k <= rows@.len(),
            rv == text_rows(rows@),
            wv == as_nats(ws@),
            wv.len() == header@.len(),
            forall|i: int| 0 <= i < rows@.len() ==> (#[trigger] rows@[i])@.len() <= header@.len(),
            s@ == head + body_lines(rv.take(k as int), wv),
        decreases rows@.len() - k,
    {
        proof {
            assert(rv.take(k + 1).drop_last() =~= rv.take(k as int));
            assert(rv.take(k + 1).last() == strs(rows@[k as int]@));
        }
        put_bar(&mut s, &rows[k], &ws, false);
        assert(s@ =~= head + body_lines(rv.take(k + 1), wv));
        k += 1;
    }
    assert(rv.take(k as int) =~= rv);
    put_rule(&mut s, &ws);
    proof {
        let rule = rule_cells(wv).push('\n');
        assert(head =~= rule + bar_cells(hv, wv, true).push('\n') + rule);
        assert(s@ =~= rendered(hv, rv));
    }
    s
}

} // verus!
