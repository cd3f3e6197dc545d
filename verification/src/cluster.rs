//! Zone maps and liquid clustering: blocks are re-sorted along a curve over the
//! columns that queries filter on, and zone maps then skip most of them.
use crate::format::writer::{max_of, min_max_bound, min_max_concat, min_of};
use crate::kernel::{entries, Block, CmpOp, Column, BLOCK_ROWS};
use crate::sort::{goes_before, positions, sort_positions, sorts, taken, taken_rearranges};
use std::collections::HashMap;
use vstd::prelude::*;

verus! {

broadcast use vstd::std_specs::hash::group_hash_axioms;

/// The range of a column's values in one block.
#[derive(Clone, Copy, Debug, PartialEq, Eq, Structural)]
pub struct ZoneMap {
    pub min: i64,
    pub max: i64,
}

pub open spec fn zone_of(v: Seq<i64>) -> ZoneMap {
    ZoneMap { min: min_of(v), max: max_of(v) }
}

impl ZoneMap {
    pub open spec fn rules_out(self, op: CmpOp, lit: i64) -> bool {
        match op {
            CmpOp::Gt => self.max <= lit,
            CmpOp::Ge => self.max < lit,
            CmpOp::Lt => self.min >= lit,
            CmpOp::Le => self.min > lit,
            CmpOp::Eq => lit < self.min || lit > self.max,
        }
    }

    pub fn build(data: &[i64]) -> (z: ZoneMap)
        ensures
            z == zone_of(data@),
    {
        let mut min: i64 = i64::MAX;
        let mut max: i64 = i64::MIN;
        let mut i: usize = 0;
        assert(data@.take(0) =~= Seq::<i64>::empty());
        while i < data.len()
            invariant
                i <= data@.len(),
                min == min_of(data@.take(i as int)),
                max == max_of(data@.take(i as int)),
            decreases data@.len() - i,
        {
            assert(data@.take(i + 1).drop_last() =~= data@.take(i as int));
            let v: i64 = data[i];
            if v < min {
                min = v;
            }
            if v > max {
                max = v;
            }
            i += 1;
        }
        assert(data@.take(i as int) =~= data@);
        ZoneMap { min, max }
    }

    /// Whether no row of the block can satisfy a predicate.
    pub fn prunes(&self, op: CmpOp, lit: i64) -> (r: bool)
        ensures
            r == self.rules_out(op, lit),
    {
        match op {
            CmpOp::Gt => self.max <= lit,
            CmpOp::Ge => self.max < lit,
            CmpOp::Lt => self.min >= lit,
            CmpOp::Le => self.min > lit,
            CmpOp::Eq => lit < self.min || lit > self.max,
        }
    }
}

/// A zone that rules out a predicate holds no value that satisfies it.
pub proof fn pruned_zone_has_no_match(v: Seq<i64>, op: CmpOp, lit: i64)
    requires
        zone_of(v).rules_out(op, lit),
    ensures
        forall|i: int| 0 <= i < v.len() ==> !op.holds(#[trigger] v[i], lit),
{
    min_max_bound(v);
}

// ---------------------------------------------------------------------------
// The curve
// ---------------------------------------------------------------------------

pub open spec fn spread_of(x: u32) -> u64 {
    let x0 = x as u64;
    let x1 = (x0 | (x0 << 16)) & 0x0000_FFFF_0000_FFFFu64;
    let x2 = (x1 | (x1 << 8)) & 0x00FF_00FF_00FF_00FFu64;
    let x3 = (x2 | (x2 << 4)) & 0x0F0F_0F0F_0F0F_0F0Fu64;
    let x4 = (x3 | (x3 << 2)) & 0x3333_3333_3333_3333u64;
    (x4 | (x4 << 1)) & 0x5555_5555_5555_5555u64
}

/// The position of a pair of keys on the curve.
pub open spec fn z_of(a: u32, b: u32) -> u64 {
    spread_of(a) | (spread_of(b) << 1)
}

pub open spec fn bit(x: u64, i: u64) -> bool {
    (x >> i) & 1 == 1
}

/// The bits of a position are those of the first key and of the second in
/// turn, from the lowest up.
pub proof fn curve_interleaves(a: u32, b: u32)
    ensures
        forall|j: u64|
            j < 64 ==> #[trigger] bit(z_of(a, b), j) == if j % 2 == 0 {
                bit(a as u64, j / 2)
            } else {
                bit(b as u64, j / 2)
            },
{
    assert(forall|j: u64|
        j < 64 ==> #[trigger] bit(z_of(a, b), j) == if j % 2 == 0 {
            bit(a as u64, j / 2)
        } else {
            bit(b as u64, j / 2)
        }) by (bit_vector);
}

/// No two pairs of keys share a position.
pub proof fn curve_is_injective(a: u32, b: u32, c: u32, d: u32)
    requires
        z_of(a, b) == z_of(c, d),
    ensures
        a == c,
        b == d,
{
    assert(z_of(a, b) == z_of(c, d) ==> a == c && b == d) by (bit_vector);
}

fn spread(x: u32) -> (r: u64)
    ensures
        r == spread_of(x),
{
    let x: u64 = x as u64;
    let x: u64 = (x | (x << 16)) & 0x0000_FFFF_0000_FFFF;
    let x: u64 = (x | (x << 8)) & 0x00FF_00FF_00FF_00FF;
    let x: u64 = (x | (x << 4)) & 0x0F0F_0F0F_0F0F_0F0F;
    let x: u64 = (x | (x << 2)) & 0x3333_3333_3333_3333;
    (x | (x << 1)) & 0x5555_5555_5555_5555
}

/// Interleaves two keys into a position on the curve.
pub fn zorder(a: u32, b: u32) -> (z: u64)
    ensures
        z == z_of(a, b),
        forall|j: u64|
            j < 64 ==> #[trigger] bit(z, j) == if j % 2 == 0 {
                bit(a as u64, j / 2)
            } else {
                bit(b as u64, j / 2)
            },
{
    let z: u64 = spread(a) | (spread(b) << 1);
    proof {
        curve_interleaves(a, b);
        assert(z == z_of(a, b));
    }
    z
}

// ---------------------------------------------------------------------------
// Workload statistics
// ---------------------------------------------------------------------------

/// How often queries filter on each column.
pub struct LiquidStats {
    pub predicate_hits: HashMap<usize, u64>,
}

impl Default for LiquidStats {
    fn default() -> (s: LiquidStats)
        ensures
            s.predicate_hits@ == Map::<usize, u64>::empty(),
    {
        LiquidStats { predicate_hits: HashMap::new() }
    }
}

/// How often a column was filtered on.
pub open spec fn hits_on(h: Map<usize, u64>, col: usize) -> u64 {
    if h.contains_key(col) {
        h[col]
    } else {
        0
    }
}

/// Whether `keys` are the (up to) two hottest columns, the hottest first.
/// Which of equally hot ones come first is left open.
pub open spec fn hottest(h: Map<usize, u64>, keys: Seq<usize>) -> bool {
    &&& keys.len() == if h.len() < 2 {
        h.len()
    } else {
        2
    }
    &&& keys.no_duplicates()
    &&& forall|i: int| 0 <= i < keys.len() ==> h.contains_key(#[trigger] keys[i])
    &&& keys.len() == 2 ==> h[keys[0]] >= h[keys[1]]
    &&& forall|c: usize|
        #![trigger h.contains_key(c)]
        h.contains_key(c) && !keys.contains(c) ==> forall|i: int|
            0 <= i < keys.len() ==> h[#[trigger] keys[i]] >= h[c]
}

pub open spec fn hotter(l: Seq<(usize, u64)>) -> spec_fn(int, int) -> bool {
    |a: int, b: int| l[a].1 > l[b].1
}

proof fn sorted_holds_all(l: Seq<(usize, u64)>, at: Seq<usize>, i: int)
    requires
        sorts(hotter(l), l.len(), at),
        0 <= i < l.len() <= usize::MAX,
    ensures
        exists|q: int| 0 <= q < at.len() && #[trigger] at[q] == i,
        forall|q: int, r: int| 0 <= q < r < at.len() ==> at[q] != at[r],
{
    broadcast use vstd::seq_lib::group_to_multiset_ensures;

    let p = positions(l.len());
    assert(p[i] == i as usize);
    assert(p.contains(i as usize));
    assert(p.to_multiset().count(i as usize) > 0);
    assert(at.contains(i as usize));
    let q = choose|q: int| 0 <= q < at.len() && at[q] == i as usize;
    assert(at[q] == i);
    assert forall|q: int, r: int| 0 <= q < r < at.len() implies at[q] != at[r] by {
        assert(goes_before(hotter(l), at[q] as int, at[r] as int));
    }
}

impl LiquidStats {
    /// Counts one predicate on a column, modulo `2^64`.
    pub fn record_predicate(&mut self, col: usize)
        ensures
            final(self).predicate_hits@ == old(self).predicate_hits@.insert(
                col,
                hits_on(old(self).predicate_hits@, col).wrapping_add(1),
            ),
    {
        let n: u64 = match self.predicate_hits.get(&col) {
            Some(n) => *n,
            None => 0,
        };
        self.predicate_hits.insert(col, n.wrapping_add(1));
    }

    /// The (up to) two hottest predicate columns.
    pub fn choose_keys(&self) -> (keys: Vec<usize>)
        ensures
            hottest(self.predicate_hits@, keys@),
    {
        let ghost h = self.predicate_hits@;
        let l: Vec<(usize, u64)> = entries(&self.predicate_hits);
        let n: usize = l.len();
        let lt = |a: usize, b: usize| -> (r: bool)
            requires
                a < l@.len(),
                b < l@.len(),
            ensures
                a < l@.len() && b < l@.len() ==> r == (l@[a as int].1 > l@[b as int].1),
            { l[a].1 > l[b].1 };
        let at: Vec<usize> = sort_positions(n, &lt, Ghost(hotter(l@)));
        let mut keys: Vec<usize> = Vec::new();
        let mut i: usize = 0;
        while i < n && i < 2
            invariant
                i <= n,
                i <= 2,
                n == l@.len(),
                sorts(hotter(l@), l@.len(), at@),
                keys@.len() == i,
                forall|k: int| 0 <= k < i ==> keys@[k] == l@[at@[k] as int].0,
            decreases 2 - i,
        {
            assert(at@[i as int] < l@.len());
            keys.push(l[at[i]].0);
            i += 1;
        }
        proof {
            assert forall|k: int| 0 <= k < keys@.len() implies h.contains_key(
                #[trigger] keys@[k],
            ) && h[keys@[k]] == l@[at@[k] as int].1 by {
                assert(at@[k] < l@.len());
            }
            if n > 0 {
                sorted_holds_all(l@, at@, 0);
            }
            if keys@.len() == 2 {
                assert(goes_before(hotter(l@), at@[0] as int, at@[1] as int));
                assert(l@[at@[0] as int].0 != l@[at@[1] as int].0);
            }
            assert forall|c: usize|
                #![trigger h.contains_key(c)]
                h.contains_key(c) && !keys@.contains(c) implies forall|i: int|
                0 <= i < keys@.len() ==> h[#[trigger] keys@[i]] >= h[c] by {
                let j = choose|j: int| 0 <= j < l@.len() && (#[trigger] l@[j]).0 == c;
                sorted_holds_all(l@, at@, j);
                let q = choose|q: int| 0 <= q < at@.len() && #[trigger] at@[q] == j;
                if q < keys@.len() {
                    assert(keys@[q] == c);
                }
                assert forall|i: int| 0 <= i < keys@.len() implies h[#[trigger] keys@[i]]
                    >= h[c] by {
                    assert(goes_before(hotter(l@), at@[i] as int, at@[q] as int));
                }
            }
        }
        keys
    }
}

// ---------------------------------------------------------------------------
// Clustered tables
// ---------------------------------------------------------------------------

pub struct ClusteredTable {
    pub blocks: Vec<Block>,
    /// One range per block and column.
    pub zones: Vec<Vec<ZoneMap>>,
    pub cluster_keys: Vec<usize>,
}

/// Whether a block has some number of columns, each as long as its rows ask.
pub open spec fn block_ok(b: Block, ncols: nat) -> bool {
    &&& b.columns@.len() == ncols
    &&& forall|c: int| 0 <= c < ncols ==> (#[trigger] b.columns@[c]).vals().len() >= b.rows
}

pub open spec fn blocks_ok(blocks: Seq<Block>, ncols: nat) -> bool {
    forall|b: int| 0 <= b < blocks.len() ==> block_ok(#[trigger] blocks[b], ncols)
}

pub open spec fn row_at(b: Block, r: int) -> Seq<i64> {
    Seq::new(b.columns@.len(), |c: int| b.columns@[c].vals()[r])
}

pub open spec fn block_rows(b: Block) -> Seq<Seq<i64>> {
    Seq::new(b.rows as nat, |r: int| row_at(b, r))
}

/// The rows of some blocks, in order.
pub open spec fn rows_of(blocks: Seq<Block>) -> Seq<Seq<i64>>
    decreases blocks.len(),
{
    if blocks.len() == 0 {
        Seq::empty()
    } else {
        rows_of(blocks.drop_last()) + block_rows(blocks.last())
    }
}

pub open spec fn zones_ok(zones: Seq<Vec<ZoneMap>>, blocks: Seq<Block>) -> bool {
    &&& zones.len() == blocks.len()
    &&& forall|b: int|
        #![trigger zones[b]]
        0 <= b < zones.len() ==> zones[b]@.len() == blocks[b].columns@.len() && forall|c: int|
            0 <= c < zones[b]@.len() ==> #[trigger] zones[b]@[c] == zone_of(
                blocks[b].columns@[c].vals(),
            )
}

/// The values of one column over all blocks.
pub open spec fn column_of(blocks: Seq<Block>, col: int) -> Seq<i64>
    decreases blocks.len(),
{
    if blocks.len() == 0 {
        Seq::empty()
    } else {
        column_of(blocks.drop_last(), col) + blocks.last().columns@[col].vals()
    }
}

/// The position of a row on the curve: over two keys, or along one.
pub open spec fn z_at(norms: Seq<Vec<Vec<u32>>>, b: int, r: int) -> u64 {
    if norms.len() > 1 {
        z_of(norms[0]@[b]@[r], norms[1]@[b]@[r])
    } else {
        (norms[0]@[b]@[r] as u64) << 32
    }
}

/// The positions of the rows of some blocks, in order.
pub open spec fn zs_of(blocks: Seq<Block>, norms: Seq<Vec<Vec<u32>>>) -> Seq<u64>
    decreases blocks.len(),
{
    if blocks.len() == 0 {
        Seq::empty()
    } else {
        zs_of(blocks.drop_last(), norms) + Seq::new(
            blocks.last().rows as nat,
            |r: int| z_at(norms, blocks.len() - 1, r),
        )
    }
}

pub open spec fn along(z: Seq<u64>) -> spec_fn(int, int) -> bool {
    |a: int, b: int| z[a] < z[b]
}

/// Whether keys on the curve are given for each row of each block.
pub open spec fn norms_ok(norms: Seq<Vec<Vec<u32>>>, blocks: Seq<Block>) -> bool {
    forall|k: int, b: int|
        #![trigger norms[k]@[b]]
        0 <= k < norms.len() && 0 <= b < blocks.len() ==> norms[k]@.len() == blocks.len()
            && norms[k]@[b]@.len() >= blocks[b].rows
}

/// Whether blocks hold rows in runs of the full block size, the last one of
/// what is left.
pub open spec fn full_blocks(blocks: Seq<Block>) -> bool {
    forall|b: int|
        0 <= b < blocks.len() ==> 0 < (#[trigger] blocks[b]).rows <= BLOCK_ROWS && (b
            < blocks.len() - 1 ==> blocks[b].rows == BLOCK_ROWS)
}

fn build_zones(blocks: &Vec<Block>) -> (zones: Vec<Vec<ZoneMap>>)
    ensures
        zones_ok(zones@, blocks@),
{
    let mut zones: Vec<Vec<ZoneMap>> = Vec::new();
    let mut b: usize = 0;
    while b < blocks.len()
        invariant
            b <= blocks@.len(),
            zones_ok(zones@, blocks@.take(b as int)),
        decreases blocks@.len() - b,
    {
        let mut of: Vec<ZoneMap> = Vec::new();
        let mut c: usize = 0;
        while c < blocks[b].columns.len()
            invariant
                b < blocks@.len(),
                c <= blocks@[b as int].columns@.len(),
                of@.len() == c,
                forall|k: int|
                    0 <= k < c ==> #[trigger] of@[k] == zone_of(
                        blocks@[b as int].columns@[k].vals(),
                    ),
            decreases blocks@[b as int].columns@.len() - c,
        {
            of.push(ZoneMap::build(blocks[b].columns[c].as_i64()));
            c += 1;
        }
        zones.push(of);
        b += 1;
    }
    assert(blocks@.take(b as int) =~= blocks@);
    zones
}

/// The values of one column as wide as they go: the greatest less the least.
pub open spec fn extent(z: ZoneMap) -> int {
    if z.max - z.min > 0 {
        z.max - z.min
    } else {
        0
    }
}

proof fn rows_snoc(blocks: Seq<Block>, b: Block)
    ensures
        rows_of(blocks.push(b)) == rows_of(blocks) + block_rows(b),
{
    assert(blocks.push(b).drop_last() =~= blocks);
}

proof fn rows_take_step(blocks: Seq<Block>, b: int)
    requires
        0 <= b < blocks.len(),
    ensures
        rows_of(blocks.take(b + 1)) == rows_of(blocks.take(b)) + block_rows(blocks[b]),
{
    assert(blocks.take(b + 1) =~= blocks.take(b).push(blocks[b]));
    rows_snoc(blocks.take(b), blocks[b]);
}

/// Rows gathered column by column.
pub open spec fn gathered(cur: Seq<Vec<i64>>, n: nat) -> Seq<Seq<i64>> {
    Seq::new(n, |r: int| Seq::new(cur.len(), |c: int| cur[c]@[r]))
}

pub(crate) fn empty_columns(n: usize) -> (cur: Vec<Vec<i64>>)
    ensures
        cur@.len() == n,
        forall|c: int| 0 <= c < n ==> (#[trigger] cur@[c])@ == Seq::<i64>::empty(),
{
    let mut cur: Vec<Vec<i64>> = Vec::new();
    let mut c: usize = 0;
    while c < n
        invariant
            c <= n,
            cur@.len() == c,
            forall|k: int| 0 <= k < c ==> (#[trigger] cur@[k])@ == Seq::<i64>::empty(),
        decreases n - c,
    {
        cur.push(Vec::new());
        c += 1;
    }
    cur
}

/// A block of gathered columns.
pub(crate) fn block_from(mut cur: Vec<Vec<i64>>, rows: usize) -> (b: Block)
    requires
        forall|c: int| 0 <= c < cur@.len() ==> (#[trigger] cur@[c])@.len() == rows,
    ensures
        b.rows == rows,
        block_ok(b, cur@.len()),
        forall|c: int|
            0 <= c < b.columns@.len() ==> (#[trigger] b.columns@[c]).vals().len() == rows,
        block_rows(b) == gathered(cur@, rows as nat),
{
    let ghost all = cur@;
    let mut back: Vec<Column> = Vec::new();
    let n: usize = cur.len();
    while cur.len() > 0
        invariant
            n == all.len(),
            cur@.len() <= n,
            cur@ == all.take(cur@.len() as int),
            back@.len() == n - cur@.len(),
            forall|k: int| 0 <= k < back@.len() ==> (#[trigger] back@[k]).vals() == all[n - 1 - k]@,
        decreases cur@.len(),
    {
        if let Some(v) = cur.pop() {
            assert(cur@ =~= all.take(cur@.len() as int));
            back.push(Column::I64(v));
        }
    }
    let mut columns: Vec<Column> = Vec::new();
    while back.len() > 0
        invariant
            n == all.len(),
            columns@.len() + back@.len() == n,
            forall|k: int| 0 <= k < back@.len() ==> (#[trigger] back@[k]).vals() == all[n - 1 - k]@,
            forall|k: int| 0 <= k < columns@.len() ==> (#[trigger] columns@[k]).vals() == all[k]@,
        decreases back@.len(),
    {
        if let Some(c) = back.pop() {
            columns.push(c);
        }
    }
    let b: Block = Block { columns, rows };
    proof {
        assert forall|r: int| 0 <= r < rows implies #[trigger] block_rows(b)[r] == gathered(
            all,
            rows as nat,
        )[r] by {
            assert(row_at(b, r) =~= gathered(all, rows as nat)[r]);
        }
        assert(block_rows(b) =~= gathered(all, rows as nat));
    }
    b
}

/// The blocks that hold some rows, taken in order.
fn rebuild(blocks: &Vec<Block>, ncols: usize, idx: &Vec<(usize, usize)>, at: &Vec<usize>) -> (out:
    Vec<Block>)
    requires
        ncols > 0,
        blocks_ok(blocks@, ncols as nat),
        idx@.len() == rows_of(blocks@).len(),
        forall|k: int|
            #![trigger idx@[k]]
            0 <= k < idx@.len() ==> idx@[k].0 < blocks@.len() && idx@[k].1
                < blocks@[idx@[k].0 as int].rows && rows_of(blocks@)[k] == row_at(
                blocks@[idx@[k].0 as int],
                idx@[k].1 as int,
            ),
        forall|i: int| 0 <= i < at@.len() ==> (#[trigger] at@[i]) < idx@.len(),
    ensures
        blocks_ok(out@, ncols as nat),
        full_blocks(out@),
        rows_of(out@) == taken(rows_of(blocks@), at@),
{
    let ghost rows = rows_of(blocks@);
    let ghost want = taken(rows, at@);
    let mut out: Vec<Block> = Vec::new();
    let mut cur: Vec<Vec<i64>> = empty_columns(ncols);
    let mut held: usize = 0;
    let mut i: usize = 0;
    assert(rows_of(out@) + gathered(cur@, 0) =~= want.take(0));
    while i < at.len()
        invariant
            ncols > 0,
            blocks_ok(blocks@, ncols as nat),
            rows == rows_of(blocks@),
            want == taken(rows, at@),
            idx@.len() == rows.len(),
            forall|k: int|
                #![trigger idx@[k]]
                0 <= k < idx@.len() ==> idx@[k].0 < blocks@.len() && idx@[k].1
                    < blocks@[idx@[k].0 as int].rows && rows[k] == row_at(
                    blocks@[idx@[k].0 as int],
                    idx@[k].1 as int,
                ),
            forall|i: int| 0 <= i < at@.len() ==> (#[trigger] at@[i]) < idx@.len(),
            i <= at@.len(),
            held < BLOCK_ROWS,
            cur@.len() == ncols,
            forall|c: int| 0 <= c < ncols ==> (#[trigger] cur@[c])@.len() == held,
            blocks_ok(out@, ncols as nat),
            forall|b: int| 0 <= b < out@.len() ==> (#[trigger] out@[b]).rows == BLOCK_ROWS,
            rows_of(out@) + gathered(cur@, held as nat) == want.take(i as int),
        decreases at@.len() - i,
    {
        let k: usize = at[i];
        assert(at@[i as int] < idx@.len());
        let (bi, r): (usize, usize) = idx[k];
        let ghost before = cur@;
        assert(block_ok(blocks@[bi as int], ncols as nat));
        let mut c: usize = 0;
        while c < ncols
            invariant
                c <= ncols,
                cur@.len() == ncols,
                before.len() == ncols,
                bi < blocks@.len(),
                r < blocks@[bi as int].rows,
                block_ok(blocks@[bi as int], ncols as nat),
                forall|j: int| c <= j < ncols ==> cur@[j] == before[j],
                forall|j: int|
                    0 <= j < c ==> (#[trigger] cur@[j])@ == before[j]@.push(
                        blocks@[bi as int].columns@[j].vals()[r as int],
                    ),
            decreases ncols - c,
        {
            assert(blocks@[bi as int].columns@[c as int].vals().len() >= blocks@[bi as int].rows);
            let v: i64 = blocks[bi].columns[c].as_i64()[r];
            cur[c].push(v);
            c += 1;
        }
        proof {
            let g = gathered(cur@, (held + 1) as nat);
            assert forall|q: int| 0 <= q < held + 1 implies g[q] == gathered(
                before,
                held as nat,
            ).push(rows[k as int])[q] by {
                if q < held {
                    assert(g[q] =~= gathered(before, held as nat)[q]);
                } else {
                    assert(g[q] =~= rows[k as int]);
                }
            }
            assert(g =~= gathered(before, held as nat).push(rows[k as int]));
            assert(want.take(i + 1) =~= want.take(i as int).push(rows[k as int]));
            assert(rows_of(out@) + g =~= want.take(i + 1));
        }
        held += 1;
        i += 1;
        if held == BLOCK_ROWS {
            let b: Block = block_from(cur, held);
            proof {
                rows_snoc(out@, b);
            }
            out.push(b);
            cur = empty_columns(ncols);
            held = 0;
            assert(rows_of(out@) + gathered(cur@, 0) =~= want.take(i as int));
        }
    }
    assert(want.take(i as int) =~= want);
    if held > 0 {
        let b: Block = block_from(cur, held);
        proof {
            rows_snoc(out@, b);
        }
        out.push(b);
    } else {
        assert(rows_of(out@) + gathered(cur@, 0) =~= rows_of(out@));
    }
    out
}

impl ClusteredTable {
    pub open spec fn wf(self) -> bool {
        zones_ok(self.zones@, self.blocks@)
    }

    pub fn from_blocks(blocks: Vec<Block>) -> (t: ClusteredTable)
        ensures
            t.wf(),
            t.blocks == blocks,
            t.cluster_keys@ == Seq::<usize>::empty(),
    {
        let zones: Vec<Vec<ZoneMap>> = build_zones(&blocks);
        ClusteredTable { blocks, zones, cluster_keys: Vec::new() }
    }

    /// The range of a column over all blocks, and how wide each block's range
    /// is. The quality of the clustering is the mean width over the width of
    /// the whole, of which both are given.
    pub fn zone_spread(&self, col: usize) -> (r: (ZoneMap, Vec<i128>))
        requires
            self.wf(),
            forall|b: int| 0 <= b < self.blocks@.len() ==> col < (#[trigger] self.blocks@[b]).columns@.len(),
        ensures
            r.0 == zone_of(column_of(self.blocks@, col as int)),
            r.1@.len() == self.blocks@.len(),
            forall|b: int|
                0 <= b < self.blocks@.len() ==> #[trigger] r.1@[b] == extent(
                    zone_of(self.blocks@[b].columns@[col as int].vals()),
                ),
    {
        let mut lo: i64 = i64::MAX;
        let mut hi: i64 = i64::MIN;
        let mut widths: Vec<i128> = Vec::new();
        let n: usize = self.zones.len();
        let mut b: usize = 0;
        assert(self.blocks@.take(0) =~= Seq::<Block>::empty());
        while b < n
            invariant
                self.wf(),
                n == self.blocks@.len(),
                forall|b: int|
                    0 <= b < self.blocks@.len() ==> col < (#[trigger] self.blocks@[b]).columns@.len(),
                b <= n,
                lo == min_of(column_of(self.blocks@.take(b as int), col as int)),
                hi == max_of(column_of(self.blocks@.take(b as int), col as int)),
                widths@.len() == b,
                forall|k: int|
                    0 <= k < b ==> #[trigger] widths@[k] == extent(
                        zone_of(self.blocks@[k].columns@[col as int].vals()),
                    ),
            decreases n - b,
        {
            proof {
                assert(col < self.blocks@[b as int].columns@.len());
                assert(self.zones@[b as int]@.len() == self.blocks@[b as int].columns@.len());
                assert(self.zones@[b as int]@[col as int] == zone_of(
                    self.blocks@[b as int].columns@[col as int].vals(),
                ));
                assert(self.blocks@.take(b + 1).drop_last() =~= self.blocks@.take(b as int));
                min_max_concat(
                    column_of(self.blocks@.take(b as int), col as int),
                    self.blocks@[b as int].columns@[col as int].vals(),
                );
            }
            let z: ZoneMap = self.zones[b][col];
            if z.min < lo {
                lo = z.min;
            }
            if z.max > hi {
                hi = z.max;
            }
            let w: i128 = z.max as i128 - z.min as i128;
            widths.push(if w > 0 { w } else { 0 });
            b += 1;
        }
        assert(self.blocks@.take(b as int) =~= self.blocks@);
        (ZoneMap { min: lo, max: hi }, widths)
    }

    /// Re-sorts all rows along the curve over one or two columns and rebuilds
    /// full blocks and their zone maps. `norms` holds each row's place in the
    /// range of each of those columns, scaled to 32 bits.
    pub fn recluster(&mut self, keys: Vec<usize>, norms: &Vec<Vec<Vec<u32>>>)
        requires
            keys@.len() > 0 ==> old(self).blocks@.len() > 0 && old(self).blocks@[0].columns@.len()
                > 0 && blocks_ok(old(self).blocks@, old(self).blocks@[0].columns@.len())
                && norms@.len() == keys@.len() && keys@.len() <= 2 && norms_ok(
                norms@,
                old(self).blocks@,
            ),
        ensures
            keys@.len() == 0 ==> *final(self) == *old(self),
            keys@.len() > 0 ==> {
                &&& final(self).wf()
                &&& final(self).cluster_keys == keys
                &&& blocks_ok(final(self).blocks@, old(self).blocks@[0].columns@.len())
                &&& full_blocks(final(self).blocks@)
                &&& exists|at: Seq<usize>|
                    sorts(
                        along(zs_of(old(self).blocks@, norms@)),
                        rows_of(old(self).blocks@).len(),
                        at,
                    ) && rows_of(final(self).blocks@) == #[trigger] taken(
                        rows_of(old(self).blocks@),
                        at,
                    )
            },
    {
        if keys.len() == 0 {
            return ;
        }
        let ghost rows = rows_of(self.blocks@);
        let ncols: usize = self.blocks[0].columns.len();
        let mut idx: Vec<(usize, usize)> = Vec::new();
        let mut zs: Vec<u64> = Vec::new();
        let n: usize = self.blocks.len();
        let mut b: usize = 0;
        assert(self.blocks@.take(0) =~= Seq::<Block>::empty());
        while b < n
            invariant
                n == self.blocks@.len(),
                b <= n,
                blocks_ok(self.blocks@, ncols as nat),
                0 < norms@.len() <= 2,
                norms_ok(norms@, self.blocks@),
                zs@ == zs_of(self.blocks@.take(b as int), norms@),
                idx@.len() == zs@.len(),
                idx@.len() == rows_of(self.blocks@.take(b as int)).len(),
                forall|k: int|
                    #![trigger idx@[k]]
                    0 <= k < idx@.len() ==> idx@[k].0 < b && idx@[k].1
                        < self.blocks@[idx@[k].0 as int].rows && rows_of(
                        self.blocks@.take(b as int),
                    )[k] == row_at(self.blocks@[idx@[k].0 as int], idx@[k].1 as int),
            decreases n - b,
        {
            let ghost z0 = zs@;
            let ghost i0 = idx@;
            let ghost r0 = rows_of(self.blocks@.take(b as int));
            let count: usize = self.blocks[b].rows;
            let mut r: usize = 0;
            proof {
                assert(norms@[0]@[b as int]@.len() >= count);
                if norms@.len() > 1 {
                    assert(norms@[1]@[b as int]@.len() >= count);
                }
                assert(z0 + Seq::new(0, |r: int| z_at(norms@, b as int, r)) =~= z0);
            }
            while r < count
                invariant
                    b < n,
                    n == self.blocks@.len(),
                    r <= count,
                    count == self.blocks@[b as int].rows,
                    0 < norms@.len() <= 2,
                    forall|k: int| 0 <= k < norms@.len() ==> (#[trigger] norms@[k])@.len() == n,
                    norms@[0]@[b as int]@.len() >= count,
                    norms@.len() > 1 ==> norms@[1]@[b as int]@.len() >= count,
                    zs@ == z0 + Seq::new(r as nat, |r: int| z_at(norms@, b as int, r)),
                    idx@.len() == i0.len() + r,
                    forall|k: int| 0 <= k < i0.len() ==> idx@[k] == i0[k],
                    forall|k: int|
                        0 <= k < r ==> #[trigger] idx@[i0.len() + k] == (b, k as usize),
                decreases count - r,
            {
                let a: u32 = norms[0][b][r];
                let z: u64 = if norms.len() > 1 {
                    zorder(a, norms[1][b][r])
                } else {
                    (a as u64) << 32
                };
                zs.push(z);
                idx.push((b, r));
                assert(zs@ =~= z0 + Seq::new((r + 1) as nat, |r: int| z_at(norms@, b as int, r)));
                r += 1;
            }
            proof {
                rows_take_step(self.blocks@, b as int);
                assert(self.blocks@.take(b + 1).drop_last() =~= self.blocks@.take(b as int));
                let r1 = rows_of(self.blocks@.take(b + 1));
                assert forall|k: int|
                    #![trigger idx@[k]]
                    0 <= k < idx@.len() implies idx@[k].0 < b + 1 && idx@[k].1
                    < self.blocks@[idx@[k].0 as int].rows && r1[k] == row_at(
                    self.blocks@[idx@[k].0 as int],
                    idx@[k].1 as int,
                ) by {
                    if k < i0.len() {
                        assert(idx@[k] == i0[k]);
                        assert(r1[k] == r0[k]);
                    } else {
                        assert(idx@[i0.len() + (k - i0.len())] == (b, (k - i0.len()) as usize));
                        assert(r1[k] == block_rows(self.blocks@[b as int])[k - i0.len()]);
                    }
                }
            }
            b += 1;
        }
        assert(self.blocks@.take(b as int) =~= self.blocks@);
        let total: usize = zs.len();
        let lt = |a: usize, b: usize| -> (r: bool)
            requires
                a < zs@.len(),
                b < zs@.len(),
            ensures
                a < zs@.len() && b < zs@.len() ==> r == (zs@[a as int] < zs@[b as int]),
            { zs[a] < zs[b] };
        let at: Vec<usize> = sort_positions(total, &lt, Ghost(along(zs@)));
        let blocks: Vec<Block> = rebuild(&self.blocks, ncols, &idx, &at);
        proof {
            assert(rows_of(blocks@) == taken(rows, at@));
        }
        self.zones = build_zones(&blocks);
        self.blocks = blocks;
        self.cluster_keys = keys;
    }

    /// The blocks that may hold a row that satisfies a predicate.
    pub fn pruned_morsels(&self, filter: Option<(usize, CmpOp, i64)>) -> (out: Vec<usize>)
        requires
            self.wf(),
            filter matches Some((col, op, lit)) ==> forall|b: int|
                0 <= b < self.blocks@.len() ==> col < (#[trigger] self.blocks@[b]).columns@.len(),
        ensures
            out@ == positions(self.blocks@.len()).filter(|b: usize| !skipped(self.blocks@, filter, b)),
    {
        let mut out: Vec<usize> = Vec::new();
        let n: usize = self.blocks.len();
        let ghost p = positions(n as nat);
        let ghost keep = |b: usize| !skipped(self.blocks@, filter, b);
        let mut b: usize = 0;
        assert(p.take(0) =~= Seq::<usize>::empty());
        reveal(Seq::filter);
        while b < n
            invariant
                self.wf(),
                filter matches Some((col, op, lit)) ==> forall|b: int|
                    0 <= b < self.blocks@.len() ==> col < (#[trigger] self.blocks@[b]).columns@.len(),
                n == self.blocks@.len(),
                p == positions(n as nat),
                keep == (|b: usize| !skipped(self.blocks@, filter, b)),
                b <= n,
                out@ == p.take(b as int).filter(keep),
            decreases n - b,
        {
            reveal(Seq::filter);
            let skip: bool = match filter {
                None => false,
                Some((col, op, lit)) => {
                    proof {
                        assert(col < self.blocks@[b as int].columns@.len());
                        assert(self.zones@[b as int]@.len()
                            == self.blocks@[b as int].columns@.len());
                        assert(self.zones@[b as int]@[col as int] == zone_of(
                            self.blocks@[b as int].columns@[col as int].vals(),
                        ));
                    }
                    self.zones[b][col].prunes(op, lit)
                },
            };
            assert(p.take(b + 1).drop_last() =~= p.take(b as int));
            assert(p.take(b + 1).last() == b);
            if !skip {
                out.push(b);
            }
            b += 1;
        }
        assert(p.take(b as int) =~= p);
        out
    }
}

/// Whether the zone map of a block rules out a predicate.
pub open spec fn skipped(blocks: Seq<Block>, filter: Option<(usize, CmpOp, i64)>, b: usize) -> bool {
    filter matches Some((col, op, lit)) && zone_of(
        blocks[b as int].columns@[col as int].vals(),
    ).rules_out(op, lit)
}

/// Skipping loses nothing: no row of a skipped block satisfies the predicate.
pub proof fn skipped_block_has_no_match(
    blocks: Seq<Block>,
    ncols: nat,
    col: usize,
    op: CmpOp,
    lit: i64,
    b: usize,
)
    requires
        blocks_ok(blocks, ncols),
        b < blocks.len(),
        col < ncols,
        skipped(blocks, Some((col, op, lit)), b),
    ensures
        forall|r: int|
            0 <= r < blocks[b as int].rows ==> !op.holds(
                #[trigger] block_rows(blocks[b as int])[r][col as int],
                lit,
            ),
{
    let k = blocks[b as int];
    assert(block_ok(k, ncols));
    assert(k.columns@[col as int].vals().len() >= k.rows);
    pruned_zone_has_no_match(k.columns@[col as int].vals(), op, lit);
}

/// Reclustering neither loses, adds nor changes a row: it only moves them.
pub proof fn recluster_keeps_rows(
    before: Seq<Block>,
    after: Seq<Block>,
    norms: Seq<Vec<Vec<u32>>>,
    at: Seq<usize>,
)
    requires
        rows_of(before).len() <= usize::MAX,
        sorts(along(zs_of(before, norms)), rows_of(before).len(), at),
        rows_of(after) == taken(rows_of(before), at),
    ensures
        rows_of(after).to_multiset() == rows_of(before).to_multiset(),
{
    taken_rearranges(rows_of(before), at);
}

/// Where a row of some blocks stands.
proof fn row_place(blocks: Seq<Block>, norms: Seq<Vec<Vec<u32>>>, k: int) -> (p: (int, int))
    requires
        0 <= k < rows_of(blocks).len(),
    ensures
        0 <= p.0 < blocks.len(),
        0 <= p.1 < blocks[p.0].rows,
        rows_of(blocks)[k] == row_at(blocks[p.0], p.1),
        zs_of(blocks, norms).len() == rows_of(blocks).len(),
        zs_of(blocks, norms)[k] == z_at(norms, p.0, p.1),
    decreases blocks.len(),
{
    let d = blocks.drop_last();
    same_lengths(d, norms);
    if k < rows_of(d).len() {
        row_place(d, norms, k)
    } else {
        (blocks.len() - 1, k - rows_of(d).len())
    }
}

proof fn same_lengths(blocks: Seq<Block>, norms: Seq<Vec<Vec<u32>>>)
    ensures
        zs_of(blocks, norms).len() == rows_of(blocks).len(),
    decreases blocks.len(),
{
    if blocks.len() > 0 {
        same_lengths(blocks.drop_last(), norms);
    }
}

/// Whether a key on the curve is less wherever the value of a column is.
pub open spec fn keeps_order(blocks: Seq<Block>, norm: Vec<Vec<u32>>, c: int) -> bool {
    forall|a: int, i: int, b: int, j: int|
        #![trigger norm@[a]@[i], norm@[b]@[j]]
        0 <= a < blocks.len() && 0 <= i < blocks[a].rows && 0 <= b < blocks.len() && 0 <= j
            < blocks[b].rows && row_at(blocks[a], i)[c] < row_at(blocks[b], j)[c]
            ==> norm@[a]@[i] < norm@[b]@[j]
}

/// Sorting along one key that keeps the order of a column leaves that column
/// ascending over all rows.
pub proof fn one_key_ascends(blocks: Seq<Block>, norms: Seq<Vec<Vec<u32>>>, c: int, at: Seq<usize>)
    requires
        norms.len() == 1,
        keeps_order(blocks, norms[0], c),
        sorts(along(zs_of(blocks, norms)), rows_of(blocks).len(), at),
    ensures
        forall|i: int, j: int|
            #![trigger taken(rows_of(blocks), at)[i], taken(rows_of(blocks), at)[j]]
            0 <= i < j < at.len() ==> taken(rows_of(blocks), at)[i][c] <= taken(
                rows_of(blocks),
                at,
            )[j][c],
{
    let rows = rows_of(blocks);
    let z = zs_of(blocks, norms);
    let got = taken(rows, at);
    assert forall|i: int, j: int|
        #![trigger got[i], got[j]]
        0 <= i < j < at.len() implies got[i][c] <= got[j][c] by {
        let p = at[i] as int;
        let q = at[j] as int;
        assert(0 <= p < rows.len() && 0 <= q < rows.len());
        assert(goes_before(along(z), p, q));
        assert(!(z[q] < z[p]));
        let (a, k) = row_place(blocks, norms, p);
        let (b, l) = row_place(blocks, norms, q);
        if got[j][c] < got[i][c] {
            let x = norms[0]@[a]@[k];
            let y = norms[0]@[b]@[l];
            assert(y < x);
            assert((y as u64) << 32 < (x as u64) << 32) by (bit_vector)
                requires
                    y < x,
            ;
        }
    }
}

} // verus!
