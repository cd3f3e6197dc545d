//! The pipeline over one morsel, and the partial results it leaves.
use crate::cluster::{pruned_zone_has_no_match, skipped};
use crate::format::reader::hits;
use crate::kernel::{
    acc_merge_laws, acc_of, entries, filter_i64, group_agg, grouped, keyed_rows, lists, picked,
    sum_i64, sum_i64_sel, Acc, Block, CmpOp,
};
use crate::sql::{Query, QueryView};
use std::collections::HashMap;
use vstd::prelude::*;

verus! {

broadcast use vstd::std_specs::hash::group_hash_axioms;

/// What some rows add up to: one accumulator over all, and one per group.
pub struct Partial {
    pub scalar: Acc,
    pub groups: HashMap<i64, Acc>,
}

#[verifier::ext_equal]
pub struct PartialView {
    pub scalar: Acc,
    pub groups: Map<i64, Acc>,
}

impl View for Partial {
    type V = PartialView;

    open spec fn view(&self) -> PartialView {
        PartialView { scalar: self.scalar, groups: self.groups@ }
    }
}

impl Default for Partial {
    fn default() -> (p: Partial)
        ensures
            p@ == PartialView::none(),
    {
        Partial { scalar: Acc { sum: 0, count: 0, min: i64::MAX, max: i64::MIN }, groups: HashMap::new() }
    }
}

/// The accumulator of a key, empty if there is none.
pub open spec fn acc_at(m: Map<i64, Acc>, k: i64) -> Acc {
    if m.contains_key(k) {
        m[k]
    } else {
        Acc::none()
    }
}

pub open spec fn groups_merged(a: Map<i64, Acc>, b: Map<i64, Acc>) -> Map<i64, Acc> {
    Map::new(
        |k: i64| a.contains_key(k) || b.contains_key(k),
        |k: i64| acc_at(a, k).merged(acc_at(b, k)),
    )
}

impl PartialView {
    pub open spec fn none() -> PartialView {
        PartialView { scalar: Acc::none(), groups: Map::empty() }
    }

    pub open spec fn merged(self, o: PartialView) -> PartialView {
        PartialView {
            scalar: self.scalar.merged(o.scalar),
            groups: groups_merged(self.groups, o.groups),
        }
    }
}

impl Partial {
    pub fn merge(&mut self, o: Partial)
        ensures
            final(self)@ == old(self)@.merged(o@),
    {
        let ghost g0 = self.groups@;
        self.scalar.merge(&o.scalar);
        let l: Vec<(i64, Acc)> = entries(&o.groups);
        let n: usize = l.len();
        let mut i: usize = 0;
        while i < n
            invariant
                n == l@.len(),
                i <= n,
                lists(l@, o.groups@),
                g0 == old(self).groups@,
                self.scalar == old(self).scalar.merged(o.scalar),
                forall|k: i64|
                    #![trigger self.groups@.contains_key(k)]
                    self.groups@.contains_key(k) <==> g0.contains_key(k) || exists|j: int|
                        0 <= j < i && (#[trigger] l@[j]).0 == k,
                forall|j: int|
                    #![trigger l@[j]]
                    0 <= j < i ==> self.groups@[l@[j].0] == acc_at(g0, l@[j].0).merged(l@[j].1),
                forall|k: i64|
                    #![trigger self.groups@[k]]
                    g0.contains_key(k) && (forall|j: int| 0 <= j < i ==> (#[trigger] l@[j]).0 != k)
                        ==> self.groups@[k] == g0[k],
            decreases n - i,
        {
            let (k, a): (i64, Acc) = l[i];
            let ghost before = self.groups@;
            let mut acc: Acc = match self.groups.get(&k) {
                Some(x) => *x,
                None => Acc { sum: 0, count: 0, min: i64::MAX, max: i64::MIN },
            };
            proof {
                assert forall|j: int| 0 <= j < i implies (#[trigger] l@[j]).0 != k by {
                    assert(l@[i as int].0 == k);
                }
                assert(before.contains_key(k) == g0.contains_key(k));
                if g0.contains_key(k) {
                    assert(before[k] == g0[k]);
                }
            }
            acc.merge(&a);
            self.groups.insert(k, acc);
            proof {
                assert forall|q: i64|
                    #![trigger self.groups@.contains_key(q)]
                    self.groups@.contains_key(q) <==> g0.contains_key(q) || exists|j: int|
                        0 <= j < i + 1 && (#[trigger] l@[j]).0 == q by {
                    assert(before.contains_key(q) <==> g0.contains_key(q) || exists|j: int|
                        0 <= j < i && (#[trigger] l@[j]).0 == q);
                    assert(l@[i as int].0 == k);
                }
                assert forall|j: int|
                    #![trigger l@[j]]
                    0 <= j < i + 1 implies self.groups@[l@[j].0] == acc_at(g0, l@[j].0).merged(
                    l@[j].1,
                ) by {
                    if j < i {
                        assert(l@[j].0 != k);
                        assert(before[l@[j].0] == acc_at(g0, l@[j].0).merged(l@[j].1));
                    }
                }
                assert forall|q: i64|
                    #![trigger self.groups@[q]]
                    g0.contains_key(q) && (forall|j: int|
                        0 <= j < i + 1 ==> (#[trigger] l@[j]).0 != q) implies self.groups@[q]
                    == g0[q] by {
                    assert(l@[i as int].0 != q);
                    assert(before[q] == g0[q]);
                }
            }
            i += 1;
        }
        proof {
            let want = groups_merged(g0, o.groups@);
            assert forall|k: i64|
                self.groups@.contains_key(k) <==> #[trigger] want.contains_key(k) by {
                if o.groups@.contains_key(k) {
                    let j = choose|j: int| 0 <= j < l@.len() && (#[trigger] l@[j]).0 == k;
                    assert(l@[j].0 == k);
                }
                if exists|j: int| 0 <= j < n && (#[trigger] l@[j]).0 == k {
                    let j = choose|j: int| 0 <= j < n && (#[trigger] l@[j]).0 == k;
                    assert(o.groups@.contains_key(l@[j].0));
                }
            }
            assert forall|k: i64| #[trigger] want.contains_key(k) implies self.groups@[k]
                == want[k] by {
                if o.groups@.contains_key(k) {
                    let j = choose|j: int| 0 <= j < l@.len() && (#[trigger] l@[j]).0 == k;
                    assert(l@[j].0 == k && l@[j].1 == o.groups@[k]);
                } else {
                    assert forall|j: int| 0 <= j < n implies (#[trigger] l@[j]).0 != k by {
                        assert(o.groups@.contains_key(l@[j].0));
                    }
                    acc_merge_laws(g0[k], g0[k], g0[k], 0);
                }
            }
            assert(self.groups@ =~= want);
        }
    }
}

/// Partial results merge in any order and grouping, and an empty one adds
/// nothing.
pub proof fn partial_merge_laws(a: PartialView, b: PartialView, c: PartialView)
    ensures
        a.merged(b) == b.merged(a),
        a.merged(b).merged(c) == a.merged(b.merged(c)),
        a.merged(PartialView::none()) == a,
{
    acc_merge_laws(a.scalar, b.scalar, c.scalar, 0);
    assert forall|k: i64|
        #![trigger acc_at(a.groups, k)]
        acc_at(a.groups, k).merged(acc_at(b.groups, k)) == acc_at(b.groups, k).merged(
            acc_at(a.groups, k),
        ) && acc_at(a.groups, k).merged(acc_at(b.groups, k)).merged(acc_at(c.groups, k)) == acc_at(
            a.groups,
            k,
        ).merged(acc_at(b.groups, k).merged(acc_at(c.groups, k))) && acc_at(a.groups, k).merged(
            Acc::none(),
        ) == acc_at(a.groups, k) by {
        acc_merge_laws(acc_at(a.groups, k), acc_at(b.groups, k), acc_at(c.groups, k), 0);
    }
    assert(a.merged(b).groups =~= b.merged(a).groups) by {
        assert forall|k: i64| #[trigger] a.merged(b).groups.contains_key(k) implies a.merged(
            b,
        ).groups[k] == b.merged(a).groups[k] by {
            assert(acc_at(a.groups, k).merged(acc_at(b.groups, k)) == acc_at(b.groups, k).merged(
                acc_at(a.groups, k),
            ));
        }
    }
    assert(a.merged(b).merged(c).groups =~= a.merged(b.merged(c)).groups) by {
        assert forall|k: i64|
            #[trigger] a.merged(b).merged(c).groups.contains_key(k) implies a.merged(b).merged(
            c,
        ).groups[k] == a.merged(b.merged(c)).groups[k] by {
            acc_merge_laws(acc_at(a.groups, k), acc_at(b.groups, k), acc_at(c.groups, k), 0);
            let ab = a.merged(b).groups;
            let bc = b.merged(c).groups;
            if !ab.contains_key(k) {
                assert(acc_at(ab, k) == Acc::none());
                assert(acc_at(a.groups, k).merged(acc_at(b.groups, k)) == Acc::none());
            }
            if !bc.contains_key(k) {
                assert(acc_at(b.groups, k).merged(acc_at(c.groups, k)) == Acc::none());
            }
        }
    }
    assert(a.merged(PartialView::none()).groups =~= a.groups) by {
        assert forall|k: i64| #[trigger] a.groups.contains_key(k) implies a.merged(
            PartialView::none(),
        ).groups[k] == a.groups[k] by {
            assert(acc_at(a.groups, k).merged(Acc::none()) == acc_at(a.groups, k));
        }
    }
}

// ---------------------------------------------------------------------------
// One morsel
// ---------------------------------------------------------------------------

/// What a query asks of each morsel.
pub struct Task {
    pub agg_col: usize,
    pub filter: Option<(usize, CmpOp, i64)>,
    pub group_by: Option<usize>,
}

pub open spec fn task_of(q: QueryView) -> Task {
    Task { agg_col: q.agg_col, filter: q.filter, group_by: q.group_by }
}

pub open spec fn vals_at(b: Block, c: usize) -> Seq<i64> {
    b.columns@[c as int].vals()
}

/// The rows a filter selects.
pub open spec fn selected(b: Block, filter: Option<(usize, CmpOp, i64)>) -> Option<Seq<u32>> {
    match filter {
        None => None,
        Some((c, op, lit)) => Some(hits(vals_at(b, c), 0, |v: i64| op.holds(v, lit))),
    }
}

/// Whether a block has the columns a task asks for, each with a value at every
/// row that is looked at.
pub open spec fn has_columns(b: Block, t: Task) -> bool {
    &&& t.agg_col < b.columns@.len()
    &&& t.filter matches Some((c, op, lit)) ==> c < b.columns@.len() && vals_at(b, c).len()
        <= vals_at(b, t.agg_col).len() && vals_at(b, c).len() <= 0x1_0000_0000
    &&& t.group_by matches Some(g) ==> g < b.columns@.len() && match t.filter {
        Some((c, op, lit)) => vals_at(b, c).len() <= vals_at(b, g).len(),
        None => vals_at(b, g).len() <= vals_at(b, t.agg_col).len(),
    }
}

/// What a task makes of a block.
pub open spec fn partial_of(b: Block, t: Task) -> PartialView {
    let sel = selected(b, t.filter);
    let vals = vals_at(b, t.agg_col);
    match t.group_by {
        Some(g) => PartialView {
            scalar: Acc::none(),
            groups: grouped(keyed_rows(vals_at(b, g), vals, sel)),
        },
        None => PartialView {
            scalar: acc_of(
                match sel {
                    Some(s) => picked(vals, s),
                    None => vals,
                },
            ),
            groups: Map::empty(),
        },
    }
}

proof fn hits_below(v: Seq<i64>, f: spec_fn(i64) -> bool)
    requires
        v.len() <= 0x1_0000_0000,
    ensures
        forall|i: int| 0 <= i < hits(v, 0, f).len() ==> (#[trigger] hits(v, 0, f)[i]) < v.len(),
    decreases v.len(),
{
    if v.len() > 0 {
        hits_below(v.drop_last(), f);
        let h = hits(v.drop_last(), 0, f);
        assert forall|i: int| 0 <= i < hits(v, 0, f).len() implies (#[trigger] hits(v, 0, f)[i])
            < v.len() by {
            if i < h.len() {
                assert(hits(v, 0, f)[i] == h[i]);
            }
        }
    }
}

/// Whether a block has the columns a query asks for.
pub fn fits(block: &Block, q: &Query) -> (r: bool)
    ensures
        r == has_columns(*block, task_of(q.model())),
{
    let n: usize = block.columns.len();
    if q.agg_col >= n {
        return false;
    }
    let rows: usize = block.columns[q.agg_col].len();
    if let Some((c, _op, _lit)) = q.filter {
        if c >= n {
            return false;
        }
        let k: usize = block.columns[c].len();
        if k > rows || k as u64 > 0x1_0000_0000 {
            return false;
        }
        if let Some(g) = q.group_by {
            return g < n && k <= block.columns[g].len();
        }
    } else if let Some(g) = q.group_by {
        return g < n && block.columns[g].len() <= rows;
    }
    true
}

/// Scans, filters and aggregates one morsel.
pub fn exec_morsel(block: &Block, q: &Query) -> (p: Partial)
    requires
        has_columns(*block, task_of(q.model())),
    ensures
        p@ == partial_of(*block, task_of(q.model())),
{
    let agg: &[i64] = block.columns[q.agg_col].as_i64();
    match q.filter {
        Some((c, op, lit)) => {
            let sel: Vec<u32> = filter_i64(block.columns[c].as_i64(), op, lit);
            proof {
                hits_below(vals_at(*block, c), |v: i64| op.holds(v, lit));
            }
            match q.group_by {
                Some(g) => {
                    let keys: &[i64] = block.columns[g].as_i64();
                    Partial {
                        scalar: Acc { sum: 0, count: 0, min: i64::MAX, max: i64::MIN },
                        groups: group_agg(keys, agg, Some(sel.as_slice())),
                    }
                },
                None => Partial {
                    scalar: sum_i64_sel(agg, sel.as_slice()),
                    groups: HashMap::new(),
                },
            }
        },
        None => match q.group_by {
            Some(g) => {
                let keys: &[i64] = block.columns[g].as_i64();
                Partial {
                    scalar: Acc { sum: 0, count: 0, min: i64::MAX, max: i64::MIN },
                    groups: group_agg(keys, agg, None),
                }
            },
            None => Partial { scalar: sum_i64(agg), groups: HashMap::new() },
        },
    }
}

// ---------------------------------------------------------------------------
// Laws
// ---------------------------------------------------------------------------

proof fn no_hits(v: Seq<i64>, f: spec_fn(i64) -> bool)
    requires
        forall|i: int| 0 <= i < v.len() ==> !f(#[trigger] v[i]),
    ensures
        hits(v, 0, f) == Seq::<u32>::empty(),
    decreases v.len(),
{
    if v.len() > 0 {
        assert forall|i: int| 0 <= i < v.drop_last().len() implies !f(
            #[trigger] v.drop_last()[i],
        ) by {
            assert(v.drop_last()[i] == v[i]);
        }
        no_hits(v.drop_last(), f);
    }
}

/// A morsel that its zone map rules out adds nothing to a result, so skipping
/// it changes none.
pub proof fn skipped_morsel_adds_nothing(blocks: Seq<Block>, t: Task, b: usize)
    requires
        b < blocks.len(),
        skipped(blocks, t.filter, b),
    ensures
        partial_of(blocks[b as int], t) == PartialView::none(),
{
    let k = blocks[b as int];
    if let Some((c, op, lit)) = t.filter {
        pruned_zone_has_no_match(vals_at(k, c), op, lit);
        no_hits(vals_at(k, c), |v: i64| op.holds(v, lit));
        let sel = Seq::<u32>::empty();
        assert(selected(k, t.filter) == Some(sel));
        assert(picked(vals_at(k, t.agg_col), sel) =~= Seq::<i64>::empty());
        if let Some(g) = t.group_by {
            let rows = keyed_rows(vals_at(k, g), vals_at(k, t.agg_col), Some(sel));
            assert(rows.len() == 0);
            assert(partial_of(k, t).groups =~= Map::<i64, Acc>::empty());
        } else {
            assert(acc_of(Seq::<i64>::empty()) == Acc::none());
        }
    }
}

/// The partial results of some morsels, merged one after another.
pub open spec fn merged_over(blocks: Seq<Block>, t: Task, morsels: Seq<usize>) -> PartialView {
    morsels.fold_left(
        PartialView::none(),
        |p: PartialView, m: usize| p.merged(partial_of(blocks[m as int], t)),
    )
}

/// It does not matter who takes which morsel when: the same morsels give the
/// same result in any order.
pub proof fn schedule_changes_nothing(
    blocks: Seq<Block>,
    t: Task,
    a: Seq<usize>,
    b: Seq<usize>,
)
    requires
        a.to_multiset() == b.to_multiset(),
    ensures
        merged_over(blocks, t, a) == merged_over(blocks, t, b),
{
    let f = |p: PartialView, m: usize| p.merged(partial_of(blocks[m as int], t));
    assert forall|x: usize, y: usize, p: PartialView| #[trigger] f(f(p, x), y) == f(f(p, y), x) by {
        let px = partial_of(blocks[x as int], t);
        let py = partial_of(blocks[y as int], t);
        partial_merge_laws(p, px, py);
        partial_merge_laws(p, py, px);
        partial_merge_laws(px, py, p);
    }
    vstd::seq_lib::lemma_fold_left_permutation(a, b, f, PartialView::none());
}

pub proof fn merged_over_push(blocks: Seq<Block>, t: Task, s: Seq<usize>, m: usize)
    ensures
        merged_over(blocks, t, s.push(m)) == merged_over(blocks, t, s).merged(
            partial_of(blocks[m as int], t),
        ),
{
    reveal_with_fuel(Seq::fold_left, 2);
    assert(s.push(m).drop_last() =~= s);
}

/// The morsels that pruning leaves give the same result as all of them.
pub proof fn pruning_changes_nothing(blocks: Seq<Block>, t: Task, s: Seq<usize>)
    requires
        forall|i: int| 0 <= i < s.len() ==> (#[trigger] s[i]) < blocks.len(),
    ensures
        merged_over(blocks, t, s.filter(|b: usize| !skipped(blocks, t.filter, b))) == merged_over(
            blocks,
            t,
            s,
        ),
    decreases s.len(),
{
    reveal(Seq::filter);
    let keep = |b: usize| !skipped(blocks, t.filter, b);
    if s.len() > 0 {
        let d = s.drop_last();
        let m = s.last();
        assert forall|i: int| 0 <= i < d.len() implies (#[trigger] d[i]) < blocks.len() by {
            assert(d[i] == s[i]);
        }
        pruning_changes_nothing(blocks, t, d);
        merged_over_push(blocks, t, d, m);
        assert(d.push(m) =~= s);
        if keep(m) {
            merged_over_push(blocks, t, d.filter(keep), m);
        } else {
            skipped_morsel_adds_nothing(blocks, t, m);
            partial_merge_laws(merged_over(blocks, t, d), PartialView::none(), PartialView::none());
        }
    }
}

} // verus!
