//! What comparisons, filters and zones mean, said of the values.
use crate::cluster::{along, extent, hottest, zone_of, ZoneMap};
use crate::format::meta::{holds, CmpOp as FileOp};
use crate::format::reader::hits;
use crate::format::writer::{max_of, min_max_bound, min_of};
use crate::kernel::{Block, CmpOp};
use crate::ramp::morsel::{selected, vals_at};
use crate::sort::{goes_before, sorts};
use crate::tally::spans;
use crate::text::bytes_lt;
use vstd::prelude::*;

verus! {

/// Each operator of the kernels is the relation that it is named after, and
/// its negation, its mirror and its edge are those of that relation.
pub proof fn operators_compare(v: i64, l: i64)
    ensures
        CmpOp::Gt.holds(v, l) <==> v > l,
        CmpOp::Lt.holds(v, l) <==> v < l,
        CmpOp::Ge.holds(v, l) <==> v >= l,
        CmpOp::Le.holds(v, l) <==> v <= l,
        CmpOp::Eq.holds(v, l) <==> v == l,
        CmpOp::Le.holds(v, l) <==> !CmpOp::Gt.holds(v, l),
        CmpOp::Ge.holds(v, l) <==> !CmpOp::Lt.holds(v, l),
        CmpOp::Gt.holds(v, l) <==> CmpOp::Lt.holds(l, v),
        CmpOp::Eq.holds(v, l) <==> CmpOp::Le.holds(v, l) && CmpOp::Ge.holds(v, l),
        CmpOp::Le.holds(v, v) && CmpOp::Ge.holds(v, v) && CmpOp::Eq.holds(v, v),
{
}

/// Each operator of a file's predicates is the relation that it is named after.
pub proof fn file_operators_compare(v: i64, l: i64)
    ensures
        holds(FileOp::Gt, v, l) <==> v > l,
        holds(FileOp::Lt, v, l) <==> v < l,
        holds(FileOp::Ge, v, l) <==> v >= l,
        holds(FileOp::Le, v, l) <==> v <= l,
        holds(FileOp::Eq, v, l) <==> v == l,
        holds(FileOp::Le, v, l) <==> !holds(FileOp::Gt, v, l),
        holds(FileOp::Ge, v, l) <==> !holds(FileOp::Lt, v, l),
        holds(FileOp::Eq, v, l) <==> holds(FileOp::Le, v, l) && holds(FileOp::Ge, v, l),
        holds(FileOp::Le, v, v) && holds(FileOp::Ge, v, v) && holds(FileOp::Eq, v, v),
{
}

/// The operators are numbered from zero in the order `>`, `<`, `>=`, `<=`, `=`.
pub proof fn operators_are_numbered(v: i64, l: i64, b: u8)
    ensures
        CmpOp::of_byte(0).holds(v, l) <==> v > l,
        CmpOp::of_byte(1).holds(v, l) <==> v < l,
        CmpOp::of_byte(2).holds(v, l) <==> v >= l,
        CmpOp::of_byte(3).holds(v, l) <==> v <= l,
        b >= 4 ==> (CmpOp::of_byte(b).holds(v, l) <==> v == l),
        CmpOp::of_byte(CmpOp::of_byte(b).byte()) == CmpOp::of_byte(b),
        b < 5 ==> CmpOp::of_byte(b).byte() == b,
{
}

/// What a filter finds are the numbers of the rows that pass, in order, each
/// once.
pub proof fn a_filter_finds_every_hit<T>(vals: Seq<T>, base: nat, hit: spec_fn(T) -> bool)
    requires
        base + vals.len() <= 0x1_0000_0000,
    ensures
        ({
            let h = hits(vals, base, hit);
            &&& forall|i: int, j: int| 0 <= i < j < h.len() ==> h[i] < h[j]
            &&& forall|i: int|
                0 <= i < h.len() ==> base <= (#[trigger] h[i]) < base + vals.len() && hit(
                    vals[h[i] - base],
                )
            &&& forall|r: int|
                0 <= r < vals.len() && hit(#[trigger] vals[r]) ==> h.contains((base + r) as u32)
        }),
    decreases vals.len(),
{
    if vals.len() > 0 {
        let d = vals.drop_last();
        a_filter_finds_every_hit(d, base, hit);
        let g = hits(d, base, hit);
        let h = hits(vals, base, hit);
        let n = vals.len() - 1;
        assert forall|i: int| 0 <= i < h.len() implies base <= (#[trigger] h[i]) < base + vals.len()
            && hit(vals[h[i] - base]) by {
            if i < g.len() {
                assert(h[i] == g[i]);
                assert(d[g[i] - base] == vals[g[i] - base]);
            }
        }
        assert forall|r: int| 0 <= r < vals.len() && hit(#[trigger] vals[r]) implies h.contains(
            (base + r) as u32,
        ) by {
            if r < n {
                assert(d[r] == vals[r]);
                assert(g.contains((base + r) as u32));
                let i = choose|i: int| 0 <= i < g.len() && g[i] == (base + r) as u32;
                assert(h[i] == g[i]);
            } else {
                assert(h[g.len() as int] == (base + r) as u32);
            }
        }
    }
}

/// Whether a value stands in the relation that an operator is written as.
pub open spec fn stands(op: CmpOp, v: i64, l: i64) -> bool {
    ||| op is Gt && v > l
    ||| op is Lt && v < l
    ||| op is Ge && v >= l
    ||| op is Le && v <= l
    ||| op is Eq && v == l
}

/// Filtering a column keeps the rows whose values stand in the relation, all
/// of them and no other.
pub proof fn a_column_is_filtered(data: Seq<i64>, op: CmpOp, lit: i64, r: u32)
    requires
        data.len() <= 0x1_0000_0000,
    ensures
        hits(data, 0, |v: i64| op.holds(v, lit)).contains(r) <==> r < data.len() && stands(
            op,
            data[r as int],
            lit,
        ),
{
    let f = |v: i64| op.holds(v, lit);
    a_filter_finds_every_hit(data, 0, f);
    let h = hits(data, 0, f);
    if h.contains(r) {
        let i = choose|i: int| 0 <= i < h.len() && h[i] == r;
        assert(f(data[h[i] - 0]));
    }
    if r < data.len() && stands(op, data[r as int], lit) {
        assert(f(data[r as int]));
    }
}

/// A morsel's selection is of the rows of the filtered column that stand in
/// the relation; without a filter there is none.
pub proof fn a_morsel_is_filtered(b: Block, filter: Option<(usize, CmpOp, i64)>, r: u32)
    requires
        filter matches Some((c, op, l)) ==> b.columns@[c as int].vals().len() <= 0x1_0000_0000,
    ensures
        filter is None ==> selected(b, filter) is None,
        filter matches Some((c, op, l)) ==> selected(b, filter) is Some && (selected(
            b,
            filter,
        )->0.contains(r) <==> r < b.columns@[c as int].vals().len() && stands(
            op,
            b.columns@[c as int].vals()[r as int],
            l,
        )),
{
    if let Some((c, op, l)) = filter {
        a_column_is_filtered(vals_at(b, c), op, l, r);
    }
}

/// A zone is the least and the greatest of its values.
pub proof fn a_zone_spans_its_values(v: Seq<i64>)
    ensures
        spans(zone_of(v).min, zone_of(v).max, v),
        spans(min_of(v), max_of(v), v),
    decreases v.len(),
{
    if v.len() > 0 {
        let d = v.drop_last();
        a_zone_spans_its_values(d);
        let x = v.last();
        let (lo, hi) = (min_of(v), max_of(v));
        assert(v[v.len() - 1] == x);
        min_max_bound(v);
        if d.len() > 0 {
            let i = choose|i: int| 0 <= i < d.len() && d[i] == min_of(d);
            let j = choose|j: int| 0 <= j < d.len() && d[j] == max_of(d);
            assert(v[i] == min_of(d) && v[j] == max_of(d));
        }
        assert(v.contains(lo));
        assert(v.contains(hi));
    }
}

/// A zone rules a predicate out exactly where no value between its ends stands
/// in the relation.
pub proof fn a_zone_rules_out_exactly(z: ZoneMap, op: CmpOp, l: i64)
    requires
        z.min <= z.max,
    ensures
        z.rules_out(op, l) <==> forall|v: i64| z.min <= v <= z.max ==> !#[trigger] stands(op, v, l),
{
    if !z.rules_out(op, l) {
        match op {
            CmpOp::Gt | CmpOp::Ge => assert(stands(op, z.max, l)),
            CmpOp::Lt | CmpOp::Le => assert(stands(op, z.min, l)),
            CmpOp::Eq => assert(stands(op, l, l)),
        }
    }
}

/// Byte strings are ordered by the first byte in which they differ; of two
/// where one goes on after the other has ended, the shorter comes first.
pub proof fn bytes_are_ordered_by_the_first_difference(a: Seq<u8>, b: Seq<u8>)
    ensures
        bytes_lt(a, b) <==> exists|k: int| #[trigger] parts_at(a, b, k),
    decreases a.len(),
{
    if bytes_lt(a, b) {
        if a.len() == 0 || a[0] != b[0] {
            assert(parts_at(a, b, 0));
        } else {
            bytes_are_ordered_by_the_first_difference(a.skip(1), b.skip(1));
            let k = choose|k: int| #[trigger] parts_at(a.skip(1), b.skip(1), k);
            assert forall|i: int| 0 <= i < k + 1 implies a[i] == b[i] by {
                if i > 0 {
                    assert(a.skip(1)[i - 1] == b.skip(1)[i - 1]);
                }
            }
            assert(parts_at(a, b, k + 1));
        }
    }
    if exists|k: int| #[trigger] parts_at(a, b, k) {
        let k = choose|k: int| #[trigger] parts_at(a, b, k);
        if k > 0 {
            assert(a[0] == b[0]);
            assert forall|i: int| 0 <= i < k - 1 implies a.skip(1)[i] == b.skip(1)[i] by {
                assert(a[i + 1] == b[i + 1]);
            }
            assert(parts_at(a.skip(1), b.skip(1), k - 1));
            bytes_are_ordered_by_the_first_difference(a.skip(1), b.skip(1));
        }
    }
}

/// Whether two byte strings agree before a place, and the first is smaller or
/// at its end there.
pub open spec fn parts_at(a: Seq<u8>, b: Seq<u8>, k: int) -> bool {
    &&& 0 <= k <= a.len()
    &&& k < b.len()
    &&& forall|i: int| 0 <= i < k ==> a[i] == b[i]
    &&& k == a.len() || a[k] < b[k]
}

// ---------------------------------------------------------------------------
// Clustering
// ---------------------------------------------------------------------------

/// The keys that are chosen are columns that were filtered on, the first at
/// least as often as every other column, the second at least as often as every
/// other but the first.
pub proof fn the_hottest_columns_are_chosen(h: Map<usize, u64>, keys: Seq<usize>, c: usize)
    requires
        hottest(h, keys),
        h.contains_key(c),
        h.dom().finite(),
    ensures
        keys.len() > 0,
        keys.len() <= 2,
        h.contains_key(keys[0]) && h[keys[0]] >= h[c],
        keys.len() > 1 && c != keys[0] ==> h.contains_key(keys[1]) && h[keys[1]] >= h[c],
        keys.len() == 1 ==> c == keys[0],
{
    if h.len() == 0 {
        assert(h.dom().contains(c));
        assert(h.dom().len() == 0);
        assert(false);
    }
    if keys.len() == 1 {
        if c != keys[0] {
            let two = set![c, keys[0]];
            assert(two.len() == 2);
            assert(two.subset_of(h.dom()));
            vstd::set_lib::lemma_len_subset(two, h.dom());
        }
    } else {
        if keys.contains(c) {
            let i = choose|i: int| 0 <= i < keys.len() && keys[i] == c;
            assert(i == 0 || i == 1);
        } else {
            assert(h[keys[0]] >= h[c] && h[keys[1]] >= h[c]);
        }
    }
}

/// A block's width in a column is how far its greatest value is from its least;
/// a block without rows has none.
pub proof fn a_width_is_the_distance_of_the_ends(v: Seq<i64>)
    ensures
        v.len() == 0 ==> extent(zone_of(v)) == 0,
        forall|i: int, j: int|
            0 <= i < v.len() && 0 <= j < v.len() ==> #[trigger] v[i] - #[trigger] v[j] <= extent(
                zone_of(v),
            ),
        v.len() > 0 ==> exists|i: int, j: int|
            0 <= i < v.len() && 0 <= j < v.len() && #[trigger] v[i] - #[trigger] v[j] == extent(
                zone_of(v),
            ),
{
    a_zone_spans_its_values(v);
    if v.len() > 0 {
        let z = zone_of(v);
        let i = choose|i: int| 0 <= i < v.len() && v[i] == z.max;
        let j = choose|j: int| 0 <= j < v.len() && v[j] == z.min;
        assert(v[i] - v[j] == extent(z));
    }
}

/// Sorted along the curve, rows lie in the order of their positions on it, and
/// rows at one position stay in the order they had.
pub proof fn rows_follow_the_curve(z: Seq<u64>, at: Seq<usize>, i: int, j: int)
    requires
        sorts(along(z), z.len(), at),
        0 <= i < j < at.len(),
    ensures
        z[at[i] as int] <= z[at[j] as int],
        z[at[i] as int] == z[at[j] as int] ==> at[i] < at[j],
{
    assert(goes_before(along(z), at[i] as int, at[j] as int));
}

} // verus!
