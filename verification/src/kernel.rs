//! Columnar blocks and the kernels that filter and aggregate them.
use crate::format::reader::hits;
use std::collections::HashMap;
use vstd::prelude::*;

verus! {

broadcast use vstd::std_specs::hash::group_hash_axioms;

/// Rows of a full block.
pub const BLOCK_ROWS: usize = 65536;

#[derive(Clone, Debug)]
pub enum Column {
    I64(Vec<i64>),
}

impl Column {
    pub open spec fn vals(self) -> Seq<i64> {
        match self {
            Column::I64(v) => v@,
        }
    }

    #[inline]
    pub fn as_i64(&self) -> (r: &[i64])
        ensures
            r@ == self.vals(),
    {
        match self {
            Column::I64(v) => v.as_slice(),
        }
    }

    pub fn len(&self) -> (n: usize)
        ensures
            n == self.vals().len(),
    {
        match self {
            Column::I64(v) => v.len(),
        }
    }

    pub fn is_empty(&self) -> (r: bool)
        ensures
            r == (self.vals().len() == 0),
    {
        self.len() == 0
    }
}

/// A horizontal part of a table.
#[derive(Clone, Debug)]
pub struct Block {
    pub columns: Vec<Column>,
    pub rows: usize,
}

#[derive(Clone, Copy, Debug, PartialEq, Eq, Structural)]
pub enum CmpOp {
    Gt,
    Lt,
    Ge,
    Le,
    Eq,
}

impl CmpOp {
    /// Whether a value stands in this relation to another.
    pub open spec fn holds(self, v: i64, l: i64) -> bool {
        match self {
            CmpOp::Gt => v > l,
            CmpOp::Lt => v < l,
            CmpOp::Ge => v >= l,
            CmpOp::Le => v <= l,
            CmpOp::Eq => v == l,
        }
    }

    pub open spec fn byte(self) -> u8 {
        match self {
            CmpOp::Gt => 0,
            CmpOp::Lt => 1,
            CmpOp::Ge => 2,
            CmpOp::Le => 3,
            CmpOp::Eq => 4,
        }
    }

    /// The operator a byte stands for; equality for all that are not given.
    pub open spec fn of_byte(b: u8) -> CmpOp {
        if b == 0 {
            CmpOp::Gt
        } else if b == 1 {
            CmpOp::Lt
        } else if b == 2 {
            CmpOp::Ge
        } else if b == 3 {
            CmpOp::Le
        } else {
            CmpOp::Eq
        }
    }

    pub fn to_u8(self) -> (b: u8)
        ensures
            b == self.byte(),
    {
        match self {
            CmpOp::Gt => 0,
            CmpOp::Lt => 1,
            CmpOp::Ge => 2,
            CmpOp::Le => 3,
            CmpOp::Eq => 4,
        }
    }

    pub fn from_u8(b: u8) -> (r: CmpOp)
        ensures
            r == CmpOp::of_byte(b),
    {
        match b {
            0 => CmpOp::Gt,
            1 => CmpOp::Lt,
            2 => CmpOp::Ge,
            3 => CmpOp::Le,
            _ => CmpOp::Eq,
        }
    }

    pub fn test(self, v: i64, l: i64) -> (r: bool)
        ensures
            r == self.holds(v, l),
    {
        match self {
            CmpOp::Gt => v > l,
            CmpOp::Lt => v < l,
            CmpOp::Ge => v >= l,
            CmpOp::Le => v <= l,
            CmpOp::Eq => v == l,
        }
    }
}

/// An operator is read back from its byte.
pub proof fn op_read_back(op: CmpOp)
    ensures
        CmpOp::of_byte(op.byte()) == op,
{
}

/// The rows of a column that stand in relation to a value, in order. Row
/// numbers are kept modulo `2^32`.
pub fn filter_i64(data: &[i64], op: CmpOp, lit: i64) -> (out: Vec<u32>)
    ensures
        out@ == hits(data@, 0, |v: i64| op.holds(v, lit)),
{
    let ghost f = |v: i64| op.holds(v, lit);
    let mut out: Vec<u32> = Vec::new();
    let mut i: usize = 0;
    assert(data@.take(0) =~= Seq::<i64>::empty());
    while i < data.len()
        invariant
            i <= data@.len(),
            f == (|v: i64| op.holds(v, lit)),
            out@ == hits(data@.take(i as int), 0, f),
        decreases data@.len() - i,
    {
        assert(data@.take(i + 1).drop_last() =~= data@.take(i as int));
        if op.test(data[i], lit) {
            out.push(#[verifier::truncate] (i as u32));
        }
        i += 1;
    }
    assert(data@.take(i as int) =~= data@);
    out
}

// ---------------------------------------------------------------------------
// Aggregates
// ---------------------------------------------------------------------------

/// Sum and count, modulo `2^64`, and range of some values.
#[derive(Clone, Copy, Debug, PartialEq, Eq, Structural)]
pub struct Acc {
    pub sum: i64,
    pub count: u64,
    pub min: i64,
    pub max: i64,
}

impl Default for Acc {
    fn default() -> (a: Acc)
        ensures
            a == Acc::none(),
    {
        Acc { sum: 0, count: 0, min: i64::MAX, max: i64::MIN }
    }
}

impl Acc {
    pub open spec fn none() -> Acc {
        Acc { sum: 0, count: 0, min: i64::MAX, max: i64::MIN }
    }

    pub open spec fn with(self, v: i64) -> Acc {
        Acc {
            sum: self.sum.wrapping_add(v),
            count: self.count.wrapping_add(1),
            min: if v < self.min { v } else { self.min },
            max: if v > self.max { v } else { self.max },
        }
    }

    pub open spec fn merged(self, o: Acc) -> Acc {
        Acc {
            sum: self.sum.wrapping_add(o.sum),
            count: self.count.wrapping_add(o.count),
            min: if o.min < self.min { o.min } else { self.min },
            max: if o.max > self.max { o.max } else { self.max },
        }
    }

    #[inline]
    pub fn push(&mut self, v: i64)
        ensures
            *final(self) == old(self).with(v),
    {
        self.sum = self.sum.wrapping_add(v);
        self.count = self.count.wrapping_add(1);
        if v < self.min {
            self.min = v;
        }
        if v > self.max {
            self.max = v;
        }
    }

    pub fn merge(&mut self, o: &Acc)
        ensures
            *final(self) == old(self).merged(*o),
    {
        self.sum = self.sum.wrapping_add(o.sum);
        self.count = self.count.wrapping_add(o.count);
        if o.min < self.min {
            self.min = o.min;
        }
        if o.max > self.max {
            self.max = o.max;
        }
    }
}

/// The accumulator of some values.
pub open spec fn acc_of(v: Seq<i64>) -> Acc
    decreases v.len(),
{
    if v.len() == 0 { Acc::none() } else { acc_of(v.drop_last()).with(v.last()) }
}

/// Accumulators merge in any order and grouping.
pub proof fn acc_merge_laws(a: Acc, b: Acc, c: Acc, v: i64)
    ensures
        a.merged(b) == b.merged(a),
        a.merged(b).merged(c) == a.merged(b.merged(c)),
        a.merged(Acc::none()) == a,
        Acc::none().merged(a) == a,
        a.merged(b.with(v)) == a.merged(b).with(v),
{
}

/// The accumulator of two runs of values is that of their accumulators.
pub proof fn acc_of_concat(a: Seq<i64>, b: Seq<i64>)
    ensures
        acc_of(a + b) == acc_of(a).merged(acc_of(b)),
    decreases b.len(),
{
    if b.len() == 0 {
        assert(a + b =~= a);
        acc_merge_laws(acc_of(a), acc_of(a), acc_of(a), 0);
    } else {
        assert((a + b).drop_last() =~= a + b.drop_last());
        acc_of_concat(a, b.drop_last());
        acc_merge_laws(acc_of(a), acc_of(b.drop_last()), Acc::none(), b.last());
    }
}

/// The sum of eight lanes, one after another.
spec fn lane_sum(l: Seq<i64>) -> i64 {
    0i64.wrapping_add(l[0]).wrapping_add(l[1]).wrapping_add(l[2]).wrapping_add(l[3]).wrapping_add(
        l[4],
    ).wrapping_add(l[5]).wrapping_add(l[6]).wrapping_add(l[7])
}

/// Adding to one lane adds to the sum.
proof fn lane_step(l: Seq<i64>, j: int, v: i64)
    requires
        l.len() == 8,
        0 <= j < 8,
    ensures
        lane_sum(l.update(j, l[j].wrapping_add(v))) == lane_sum(l).wrapping_add(v),
{
    let m = l.update(j, l[j].wrapping_add(v));
    lane_split(l, j + 1);
    lane_split(m, j + 1);
    lane_head_step(l, j, v);
    lane_tail(lane_head(l, j + 1), l, j + 1, v);
    lane_tail_same(lane_head(m, j + 1), l, m, j + 1);
}

/// The sum of the first `n` lanes.
spec fn lane_head(l: Seq<i64>, n: int) -> i64
    decreases n,
{
    if n <= 0 { 0 } else { lane_head(l, n - 1).wrapping_add(l[n - 1]) }
}

/// `a` with the lanes from `n` on added.
spec fn lane_rest(a: i64, l: Seq<i64>, n: int) -> i64
    decreases 8 - n,
{
    if n >= 8 { a } else { lane_rest(a.wrapping_add(l[n]), l, n + 1) }
}

proof fn lane_split(l: Seq<i64>, n: int)
    requires
        0 <= n <= 8,
        l.len() == 8,
    ensures
        lane_rest(lane_head(l, n), l, n) == lane_sum(l),
    decreases 8 - n,
{
    if n == 8 {
        reveal_with_fuel(lane_head, 9);
    } else {
        lane_split(l, n + 1);
    }
}

proof fn lane_tail(a: i64, l: Seq<i64>, n: int, v: i64)
    requires
        0 <= n <= 8,
    ensures
        lane_rest(a.wrapping_add(v), l, n) == lane_rest(a, l, n).wrapping_add(v),
    decreases 8 - n,
{
    if n < 8 {
        assert(a.wrapping_add(v).wrapping_add(l[n]) == a.wrapping_add(l[n]).wrapping_add(v));
        lane_tail(a.wrapping_add(l[n]), l, n + 1, v);
    }
}

proof fn lane_tail_same(a: i64, l: Seq<i64>, m: Seq<i64>, n: int)
    requires
        0 <= n <= 8,
        forall|i: int| n <= i < 8 ==> l[i] == m[i],
    ensures
        lane_rest(a, l, n) == lane_rest(a, m, n),
    decreases 8 - n,
{
    if n < 8 {
        lane_tail_same(a.wrapping_add(l[n]), l, m, n + 1);
    }
}

proof fn lane_head_same(l: Seq<i64>, m: Seq<i64>, n: int)
    requires
        0 <= n,
        forall|i: int| 0 <= i < n ==> l[i] == m[i],
    ensures
        lane_head(l, n) == lane_head(m, n),
    decreases n,
{
    if n > 0 {
        lane_head_same(l, m, n - 1);
    }
}

proof fn lane_head_step(l: Seq<i64>, j: int, v: i64)
    requires
        l.len() == 8,
        0 <= j < 8,
    ensures
        lane_head(l.update(j, l[j].wrapping_add(v)), j + 1) == lane_head(l, j + 1).wrapping_add(v),
{
    let m = l.update(j, l[j].wrapping_add(v));
    lane_head_same(l, m, j);
}

/// The accumulator of a whole column, summed in eight independent lanes.
pub fn sum_i64(data: &[i64]) -> (acc: Acc)
    ensures
        acc == acc_of(data@),
{
    let n: usize = data.len();
    let mut lanes: Vec<i64> = vec![0i64; 8];
    let mut min: i64 = i64::MAX;
    let mut max: i64 = i64::MIN;
    let mut count: u64 = 0;
    let mut i: usize = 0;
    proof {
        assert(data@.take(0) =~= Seq::<i64>::empty());
        assert(lane_sum(lanes@) == 0);
    }
    while n - i >= 8
        invariant
            i <= n,
            n == data@.len(),
            lanes@.len() == 8,
            acc_of(data@.take(i as int)) == (Acc { sum: lane_sum(lanes@), count, min, max }),
        decreases n - i,
    {
        let mut j: usize = 0;
        while j < 8
            invariant
                j <= 8,
                i + 8 <= n,
                n == data@.len(),
                lanes@.len() == 8,
                acc_of(data@.take(i + j)) == (Acc { sum: lane_sum(lanes@), count, min, max }),
            decreases 8 - j,
        {
            let v: i64 = data[i + j];
            proof {
                lane_step(lanes@, j as int, v);
                assert(data@.take(i + j + 1).drop_last() =~= data@.take(i + j));
            }
            lanes.set(j, lanes[j].wrapping_add(v));
            count = count.wrapping_add(1);
            if v < min {
                min = v;
            }
            if v > max {
                max = v;
            }
            j += 1;
        }
        i += 8;
    }
    let mut sum: i64 = 0;
    sum = sum.wrapping_add(lanes[0]).wrapping_add(lanes[1]).wrapping_add(lanes[2]).wrapping_add(
        lanes[3],
    ).wrapping_add(lanes[4]).wrapping_add(lanes[5]).wrapping_add(lanes[6]).wrapping_add(lanes[7]);
    let mut acc: Acc = Acc { sum, count, min, max };
    while i < n
        invariant
            i <= n,
            n == data@.len(),
            acc == acc_of(data@.take(i as int)),
        decreases n - i,
    {
        assert(data@.take(i + 1).drop_last() =~= data@.take(i as int));
        acc.push(data[i]);
        i += 1;
    }
    assert(data@.take(i as int) =~= data@);
    acc
}

/// The values at some rows.
pub open spec fn picked(data: Seq<i64>, sel: Seq<u32>) -> Seq<i64> {
    Seq::new(sel.len(), |i: int| data[sel[i] as int])
}

/// The accumulator of the values at some rows.
pub fn sum_i64_sel(data: &[i64], sel: &[u32]) -> (acc: Acc)
    requires
        forall|i: int| 0 <= i < sel@.len() ==> (#[trigger] sel@[i]) < data@.len(),
    ensures
        acc == acc_of(picked(data@, sel@)),
{
    let ghost p = picked(data@, sel@);
    let mut acc: Acc = Acc { sum: 0, count: 0, min: i64::MAX, max: i64::MIN };
    let mut i: usize = 0;
    assert(p.take(0) =~= Seq::<i64>::empty());
    while i < sel.len()
        invariant
            i <= sel@.len(),
            forall|i: int| 0 <= i < sel@.len() ==> (#[trigger] sel@[i]) < data@.len(),
            p == picked(data@, sel@),
            acc == acc_of(p.take(i as int)),
        decreases sel@.len() - i,
    {
        assert(p.take(i + 1).drop_last() =~= p.take(i as int));
        assert(sel@[i as int] < data@.len());
        acc.push(data[sel[i] as usize]);
        i += 1;
    }
    assert(p.take(i as int) =~= p);
    acc
}

// ---------------------------------------------------------------------------
// Groups
// ---------------------------------------------------------------------------

/// Whether a list holds the entries of a map, each once, in some order.
pub open spec fn lists<K, V>(l: Seq<(K, V)>, m: Map<K, V>) -> bool {
    &&& l.len() == m.len()
    &&& forall|i: int|
        #![trigger l[i]]
        0 <= i < l.len() ==> m.contains_key(l[i].0) && m[l[i].0] == l[i].1
    &&& forall|i: int, j: int| 0 <= i < j < l.len() ==> (#[trigger] l[i]).0 != (#[trigger] l[j]).0
    &&& forall|k: K|
        #[trigger]
        m.contains_key(k) ==> exists|i: int| 0 <= i < l.len() && (#[trigger] l[i]).0 == k
}

/// The entries of a map.
pub fn entries<K: Copy, V: Copy>(m: &HashMap<K, V>) -> (out: Vec<(K, V)>)
    requires
        vstd::std_specs::hash::obeys_key_model::<K>(),
    ensures
        lists(out@, m@),
{
    let mut out: Vec<(K, V)> = Vec::new();
    for kv in it: m.iter()
        invariant
            out@.len() == it.index(),
            forall|i: int|
                #![trigger out@[i]]
                #![trigger it.seq()[i]]
                0 <= i < out@.len() ==> out@[i].0 == *it.seq()[i].0 && out@[i].1 == *it.seq()[i].1,
            it.seq().no_duplicates(),
            it.seq().len() == m@.len(),
            forall|k: K| #[trigger] m@.contains_key(k) ==> it.seq().contains((&k, &m@[k])),
            forall|i: int|
                #![trigger it.seq()[i]]
                0 <= i < it.seq().len() ==> m@.contains_key(*it.seq()[i].0) && m@[*it.seq()[i].0]
                    == *it.seq()[i].1,
    {
        out.push((*kv.0, *kv.1));
    }
    out
}

/// A row's key and value.
pub struct Keyed {
    pub key: i64,
    pub val: i64,
}

/// The keys and values at some rows, or at all.
pub open spec fn keyed_rows(keys: Seq<i64>, vals: Seq<i64>, sel: Option<Seq<u32>>) -> Seq<Keyed> {
    match sel {
        Some(s) => Seq::new(
            s.len(),
            |i: int| Keyed { key: keys[s[i] as int], val: vals[s[i] as int] },
        ),
        None => Seq::new(keys.len(), |i: int| Keyed { key: keys[i], val: vals[i] }),
    }
}

/// The accumulator of each key.
pub open spec fn grouped(rows: Seq<Keyed>) -> Map<i64, Acc>
    decreases rows.len(),
{
    if rows.len() == 0 {
        Map::empty()
    } else {
        let m = grouped(rows.drop_last());
        let r = rows.last();
        m.insert(r.key, (if m.contains_key(r.key) { m[r.key] } else { Acc::none() }).with(r.val))
    }
}

/// Whether a dense table holds what a map holds, and the map nothing else.
pub open spec fn tabled(m: Map<i64, Acc>, table: Seq<Acc>, seen: Seq<bool>) -> bool {
    &&& table.len() == 4096
    &&& seen.len() == 4096
    &&& forall|k: i64| #[trigger] m.contains_key(k) ==> 0 <= k < 4096
    &&& forall|k: int|
        0 <= k < 4096 ==> #[trigger] seen[k] == m.contains_key(k as i64) && table[k] == (
        if m.contains_key(k as i64) {
            m[k as i64]
        } else {
            Acc::none()
        })
}

pub open spec fn opt_sel(sel: Option<&[u32]>) -> Option<Seq<u32>> {
    match sel {
        Some(s) => Some(s@),
        None => None,
    }
}

/// Whether every row that is asked for has a key and a value.
pub open spec fn rows_exist(keys: Seq<i64>, vals: Seq<i64>, sel: Option<Seq<u32>>) -> bool {
    match sel {
        Some(s) => forall|i: int|
            0 <= i < s.len() ==> (#[trigger] s[i]) < keys.len() && s[i] < vals.len(),
        None => keys.len() <= vals.len(),
    }
}

fn row_at(sel: Option<&[u32]>, i: usize) -> (r: usize)
    requires
        sel matches Some(s) ==> i < s@.len(),
    ensures
        r == (match sel {
            Some(s) => s@[i as int] as int,
            None => i as int,
        }),
{
    match sel {
        Some(s) => s[i] as usize,
        None => i,
    }
}

/// Groups in a dense table, if all keys fit it.
fn group_flat(keys: &[i64], vals: &[i64], sel: Option<&[u32]>, n: usize) -> (r: Option<
    HashMap<i64, Acc>,
>)
    requires
        rows_exist(keys@, vals@, opt_sel(sel)),
        n == keyed_rows(keys@, vals@, opt_sel(sel)).len(),
    ensures
        r matches Some(m) ==> m@ == grouped(keyed_rows(keys@, vals@, opt_sel(sel))),
{
    let ghost rows = keyed_rows(keys@, vals@, opt_sel(sel));
    let mut table: Vec<Acc> = Vec::new();
    let mut seen: Vec<bool> = vec![false; 4096];
    let mut z: usize = 0;
    while z < 4096
        invariant
            z <= 4096,
            table@.len() == z,
            forall|k: int| 0 <= k < z ==> table@[k] == Acc::none(),
        decreases 4096 - z,
    {
        table.push(Acc { sum: 0, count: 0, min: i64::MAX, max: i64::MIN });
        z += 1;
    }
    let mut i: usize = 0;
    assert(rows.take(0) =~= Seq::<Keyed>::empty());
    while i < n
        invariant
            i <= n,
            n == rows.len(),
            rows == keyed_rows(keys@, vals@, opt_sel(sel)),
            rows_exist(keys@, vals@, opt_sel(sel)),
            tabled(grouped(rows.take(i as int)), table@, seen@),
        decreases n - i,
    {
        let ghost m = grouped(rows.take(i as int));
        proof {
            assert(rows.take(i + 1).drop_last() =~= rows.take(i as int));
            assert(rows.take(i + 1).last() == rows[i as int]);
            if let Some(s) = sel {
                assert(s@[i as int] < keys@.len());
            }
        }
        let at: usize = row_at(sel, i);
        let k: i64 = keys[at];
        if k < 0 || k >= 4096 {
            return None;
        }
        let s: usize = k as usize;
        assert(seen@[s as int] == m.contains_key(s as i64));
        let mut a: Acc = table[s];
        a.push(vals[at]);
        let ghost seen0 = seen@;
        table.set(s, a);
        seen.set(s, true);
        proof {
            let m1 = grouped(rows.take(i + 1));
            assert(m1 == m.insert(k, a));
            assert forall|q: int| 0 <= q < 4096 implies #[trigger] seen@[q] == m1.contains_key(
                q as i64,
            ) && table@[q] == (if m1.contains_key(q as i64) {
                m1[q as i64]
            } else {
                Acc::none()
            }) by {
                if q != s {
                    assert(seen0[q] == m.contains_key(q as i64));
                }
            }
        }
        i += 1;
    }
    assert(rows.take(i as int) =~= rows);
    let ghost m = grouped(rows);
    let mut out: HashMap<i64, Acc> = HashMap::new();
    let mut k: usize = 0;
    while k < 4096
        invariant
            k <= 4096,
            tabled(m, table@, seen@),
            forall|q: i64|
                #[trigger] out@.contains_key(q) <==> (m.contains_key(q) && 0 <= q < k),
            forall|q: i64| #[trigger] out@.contains_key(q) ==> out@[q] == m[q],
        decreases 4096 - k,
    {
        assert(seen@[k as int] == m.contains_key(k as i64));
        if seen[k] {
            out.insert(k as i64, table[k]);
        }
        k += 1;
    }
    assert(out@ =~= m) by {
        assert forall|q: i64| out@.contains_key(q) <==> m.contains_key(q) by {
            if m.contains_key(q) {
                assert(0 <= q < 4096);
            }
        }
    }
    Some(out)
}

/// Grouped aggregation of the values at some rows, or at all. Keys in a small
/// range, as a sample of the first ones suggests, are kept in a dense table.
pub fn group_agg(keys: &[i64], vals: &[i64], sel: Option<&[u32]>) -> (out: HashMap<i64, Acc>)
    requires
        rows_exist(keys@, vals@, opt_sel(sel)),
    ensures
        out@ == grouped(keyed_rows(keys@, vals@, opt_sel(sel))),
{
    let ghost rows = keyed_rows(keys@, vals@, opt_sel(sel));
    let n: usize = match sel {
        Some(s) => s.len(),
        None => keys.len(),
    };
    let mut lo: i64 = i64::MAX;
    let mut hi: i64 = i64::MIN;
    let mut t: usize = 0;
    while t < keys.len() && t < 1024
        invariant
            t <= keys@.len(),
        decreases keys@.len() - t,
    {
        if keys[t] < lo {
            lo = keys[t];
        }
        if keys[t] > hi {
            hi = keys[t];
        }
        t += 1;
    }
    if lo >= 0 && hi < 4096 {
        if let Some(m) = group_flat(keys, vals, sel, n) {
            return m;
        }
    }
    let mut out: HashMap<i64, Acc> = HashMap::new();
    let mut i: usize = 0;
    assert(rows.take(0) =~= Seq::<Keyed>::empty());
    assert(out@ =~= grouped(rows.take(0)));
    while i < n
        invariant
            i <= n,
            n == rows.len(),
            rows == keyed_rows(keys@, vals@, opt_sel(sel)),
            rows_exist(keys@, vals@, opt_sel(sel)),
            out@ == grouped(rows.take(i as int)),
        decreases n - i,
    {
        proof {
            assert(rows.take(i + 1).drop_last() =~= rows.take(i as int));
            assert(rows.take(i + 1).last() == rows[i as int]);
            if let Some(s) = sel {
                assert(s@[i as int] < keys@.len());
            }
        }
        let at: usize = row_at(sel, i);
        let k: i64 = keys[at];
        let mut a: Acc = match out.get(&k) {
            Some(a) => *a,
            None => Acc { sum: 0, count: 0, min: i64::MAX, max: i64::MIN },
        };
        a.push(vals[at]);
        out.insert(k, a);
        assert(out@ =~= grouped(rows.take(i + 1)));
        i += 1;
    }
    assert(rows.take(i as int) =~= rows);
    out
}

} // verus!
