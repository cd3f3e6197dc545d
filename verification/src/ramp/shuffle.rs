//! Parting blocks by a key, so that rows of equal keys meet on one worker.
use crate::cluster::{block_from, block_ok, block_rows, empty_columns, gathered};
use crate::kernel::{Block, Column};
use crate::ramp::message::MSG_SHUFFLE;
use crate::wire::{le, le_i64, put_i64, put_len32, wr_list, wr_list_push};
use vstd::multiset::Multiset;
use vstd::prelude::*;

verus! {

/// A key's bits, mixed.
pub open spec fn mixed(key: i64) -> i64 {
    (2166136261i64 ^ key).wrapping_mul(16777619)
}

pub open spec fn magnitude(v: int) -> int {
    if v < 0 {
        -v
    } else {
        v
    }
}

/// The partition of a key.
pub open spec fn part_of(key: i64, n: int) -> int {
    magnitude(mixed(key) as int) % n
}

/// The partition of a key. One key has no magnitude that fits 64 bits.
pub fn partition_key(key: i64, num_partitions: usize) -> (p: usize)
    requires
        0 < num_partitions <= i64::MAX,
        mixed(key) != i64::MIN,
    ensures
        p == part_of(key, num_partitions as int),
        p < num_partitions,
{
    let mut h: i64 = 2166136261;
    h = h ^ key;
    h = h.wrapping_mul(16777619);
    let m: i64 = if h < 0 { -h } else { h };
    (m % num_partitions as i64) as usize
}

/// Whether a row goes to a partition.
pub open spec fn goes_to(col: int, n: int, p: int) -> spec_fn(Seq<i64>) -> bool {
    |row: Seq<i64>| part_of(row[col], n) == p
}

/// Whether every key of a block can be parted.
pub open spec fn keys_part(b: Block, col: int) -> bool {
    forall|r: int| 0 <= r < b.rows ==> mixed(#[trigger] b.columns@[col].vals()[r]) != i64::MIN
}

/// The rows of a block that go to one partition, in order.
fn part_block(block: &Block, col: usize, n: usize, p: usize) -> (out: Block)
    requires
        0 < n <= i64::MAX,
        p < n,
        block_ok(*block, block.columns@.len()),
        col < block.columns@.len(),
        keys_part(*block, col as int),
    ensures
        block_ok(out, block.columns@.len()),
        block_rows(out) == block_rows(*block).filter(goes_to(col as int, n as int, p as int)),
        forall|c: int|
            0 <= c < out.columns@.len() ==> (#[trigger] out.columns@[c]).vals().len() == out.rows,
{
    let ghost rows = block_rows(*block);
    let ghost f = goes_to(col as int, n as int, p as int);
    let ncols: usize = block.columns.len();
    let mut cur: Vec<Vec<i64>> = empty_columns(ncols);
    let mut held: usize = 0;
    let mut r: usize = 0;
    proof {
        reveal(Seq::filter);
        assert(rows.take(0) =~= Seq::<Seq<i64>>::empty());
        assert(gathered(cur@, 0) =~= rows.take(0).filter(f));
    }
    while r < block.rows
        invariant
            0 < n <= i64::MAX,
            block_ok(*block, ncols as nat),
            ncols == block.columns@.len(),
            col < ncols,
            keys_part(*block, col as int),
            rows == block_rows(*block),
            f == goes_to(col as int, n as int, p as int),
            r <= block.rows,
            held <= r,
            cur@.len() == ncols,
            forall|k: int| 0 <= k < ncols ==> (#[trigger] cur@[k])@.len() == held,
            gathered(cur@, held as nat) == rows.take(r as int).filter(f),
        decreases block.rows - r,
    {
        assert(block.columns@[col as int].vals().len() >= block.rows);
        let key: i64 = block.columns[col].as_i64()[r];
        assert(mixed(block.columns@[col as int].vals()[r as int]) != i64::MIN);
        proof {
            reveal(Seq::filter);
            assert(rows.take(r + 1).drop_last() =~= rows.take(r as int));
            assert(rows.take(r + 1).last() == rows[r as int]);
            assert(rows[r as int][col as int] == key);
        }
        if partition_key(key, n) == p {
            let ghost before = cur@;
            let mut k: usize = 0;
            while k < ncols
                invariant
                    k <= ncols,
                    ncols == block.columns@.len(),
                    block_ok(*block, ncols as nat),
                    r < block.rows,
                    before.len() == ncols,
                    cur@.len() == ncols,
                    forall|j: int| k <= j < ncols ==> cur@[j] == before[j],
                    forall|j: int|
                        0 <= j < k ==> (#[trigger] cur@[j])@ == before[j]@.push(
                            block.columns@[j].vals()[r as int],
                        ),
                decreases ncols - k,
            {
                assert(block.columns@[k as int].vals().len() >= block.rows);
                let v: i64 = block.columns[k].as_i64()[r];
                cur[k].push(v);
                k += 1;
            }
            proof {
                let g = gathered(cur@, (held + 1) as nat);
                let h = gathered(before, held as nat).push(rows[r as int]);
                assert forall|q: int| 0 <= q < held + 1 implies g[q] == h[q] by {
                    assert(g[q] =~= h[q]);
                }
                assert(g =~= h);
            }
            held += 1;
        }
        r += 1;
    }
    assert(rows.take(r as int) =~= rows);
    block_from(cur, held)
}

/// A column's values behind the count of their bytes.
pub open spec fn wr_vals(v: Seq<i64>) -> Seq<u8> {
    le(8 * v.len(), 4) + wr_list(v, |x: i64| le_i64(x))
}

/// A shuffled part of a block: its partition, how many columns and rows it
/// has, and the columns.
pub open spec fn wr_shuffle(p: nat, cols: Seq<Column>, rows: nat) -> Seq<u8> {
    seq![MSG_SHUFFLE] + (le(p, 4) + (le(cols.len(), 4) + (le(rows, 4) + wr_list(
        cols,
        |c: Column| wr_vals(c.vals()),
    ))))
}

fn put_vals(out: &mut Vec<u8>, v: &[i64])
    requires
        8 * v@.len() <= u64::MAX,
    ensures
        final(out)@ == old(out)@ + wr_vals(v@),
{
    let ghost enc = |x: i64| le_i64(x);
    let n: u64 = v.len() as u64;
    crate::wire::put_u32(out, (8 * n % 0x1_0000_0000) as u32);
    proof {
        crate::wire::le_wraps(8 * v@.len());
    }
    let ghost head = out@;
    let mut i: usize = 0;
    assert(v@.take(0) =~= Seq::<i64>::empty());
    assert(out@ =~= head + wr_list(v@.take(0), enc));
    while i < v.len()
        invariant
            i <= v@.len(),
            enc == (|x: i64| le_i64(x)),
            out@ == head + wr_list(v@.take(i as int), enc),
        decreases v@.len() - i,
    {
        let ghost o = out@;
        put_i64(out, v[i]);
        proof {
            wr_list_push(v@.take(i as int), v@[i as int], enc);
            assert(v@.take(i + 1) =~= v@.take(i as int).push(v@[i as int]));
            assert(out@ =~= head + wr_list(v@.take(i + 1), enc));
        }
        i += 1;
    }
    assert(v@.take(i as int) =~= v@);
    assert(out@ =~= old(out)@ + wr_vals(v@));
}

fn shuffle_message(p: usize, b: &Block) -> (out: Vec<u8>)
    requires
        forall|c: int|
            0 <= c < b.columns@.len() ==> 8 * (#[trigger] b.columns@[c]).vals().len() <= u64::MAX,
    ensures
        out@ == wr_shuffle(p as nat, b.columns@, b.rows as nat),
{
    let ghost enc = |c: Column| wr_vals(c.vals());
    let mut out: Vec<u8> = Vec::new();
    out.push(MSG_SHUFFLE);
    put_len32(&mut out, p);
    put_len32(&mut out, b.columns.len());
    put_len32(&mut out, b.rows);
    let ghost head = out@;
    let mut c: usize = 0;
    assert(b.columns@.take(0) =~= Seq::<Column>::empty());
    assert(out@ =~= head + wr_list(b.columns@.take(0), enc));
    while c < b.columns.len()
        invariant
            c <= b.columns@.len(),
            forall|c: int|
                0 <= c < b.columns@.len() ==> 8 * (#[trigger] b.columns@[c]).vals().len()
                    <= u64::MAX,
            enc == (|c: Column| wr_vals(c.vals())),
            out@ == head + wr_list(b.columns@.take(c as int), enc),
        decreases b.columns@.len() - c,
    {
        assert(8 * b.columns@[c as int].vals().len() <= u64::MAX);
        put_vals(&mut out, b.columns[c].as_i64());
        proof {
            wr_list_push(b.columns@.take(c as int), b.columns@[c as int], enc);
            assert(b.columns@.take(c + 1) =~= b.columns@.take(c as int).push(b.columns@[c as int]));
            assert(out@ =~= head + wr_list(b.columns@.take(c + 1), enc));
        }
        c += 1;
    }
    assert(b.columns@.take(c as int) =~= b.columns@);
    assert(out@ =~= wr_shuffle(p as nat, b.columns@, b.rows as nat));
    out
}

/// Whether a message carries the rows of a block that go to a partition.
pub open spec fn carries(m: Seq<u8>, b: Block, col: int, n: int, p: int) -> bool {
    exists|part: Block|
        #![trigger block_rows(part)]
        block_ok(part, b.columns@.len()) && block_rows(part) == block_rows(b).filter(
            goes_to(col, n, p),
        ) && m == wr_shuffle(p as nat, part.columns@, part.rows as nat)
}

pub open spec fn part_is_empty(b: Block, col: int, n: int, p: int) -> bool {
    block_rows(b).filter(goes_to(col, n, p)).len() == 0
}

/// Parts a block by a column: one message for each partition that gets a row,
/// in order of the partitions.
pub fn serialize_shuffled_block(block: &Block, partition_col: usize, num_partitions: usize) -> (out:
    Vec<(usize, Vec<u8>)>)
    requires
        0 < num_partitions <= i64::MAX,
        block_ok(*block, block.columns@.len()),
        partition_col < block.columns@.len(),
        keys_part(*block, partition_col as int),
        8 * block.rows <= u64::MAX,
    ensures
        forall|i: int|
            #![trigger out@[i]]
            0 <= i < out@.len() ==> out@[i].0 < num_partitions && carries(
                out@[i].1@,
                *block,
                partition_col as int,
                num_partitions as int,
                out@[i].0 as int,
            ),
        forall|i: int, j: int| 0 <= i < j < out@.len() ==> (#[trigger] out@[i]).0 < (#[trigger] out@[j]).0,
        forall|p: int|
            #![trigger part_is_empty(*block, partition_col as int, num_partitions as int, p)]
            0 <= p < num_partitions ==> (part_is_empty(
                *block,
                partition_col as int,
                num_partitions as int,
                p,
            ) <==> !exists|i: int| 0 <= i < out@.len() && (#[trigger] out@[i]).0 == p),
{
    let ghost col = partition_col as int;
    let ghost n = num_partitions as int;
    let mut out: Vec<(usize, Vec<u8>)> = Vec::new();
    let mut p: usize = 0;
    while p < num_partitions
        invariant
            0 < num_partitions <= i64::MAX,
            block_ok(*block, block.columns@.len()),
            partition_col < block.columns@.len(),
            keys_part(*block, partition_col as int),
            8 * block.rows <= u64::MAX,
            col == partition_col as int,
            n == num_partitions as int,
            p <= num_partitions,
            forall|i: int|
                #![trigger out@[i]]
                0 <= i < out@.len() ==> out@[i].0 < p && carries(
                    out@[i].1@,
                    *block,
                    col,
                    n,
                    out@[i].0 as int,
                ),
            forall|i: int, j: int|
                0 <= i < j < out@.len() ==> (#[trigger] out@[i]).0 < (#[trigger] out@[j]).0,
            forall|q: int|
                #![trigger part_is_empty(*block, col, n, q)]
                0 <= q < p ==> (part_is_empty(*block, col, n, q) <==> !exists|i: int|
                    0 <= i < out@.len() && (#[trigger] out@[i]).0 == q),
        decreases num_partitions - p,
    {
        let part: Block = part_block(block, partition_col, num_partitions, p);
        let ghost before = out@;
        proof {
            filter_shorter(block_rows(*block), goes_to(col, n, p as int));
            assert(block_rows(part).len() == part.rows);
        }
        if part.rows > 0 {
            let m: Vec<u8> = shuffle_message(p, &part);
            assert(carries(m@, *block, col, n, p as int)) by {
                assert(block_rows(part).len() == part.rows);
            }
            out.push((p, m));
        }
        proof {
            assert forall|q: int|
                #![trigger part_is_empty(*block, col, n, q)]
                0 <= q < p + 1 implies (part_is_empty(*block, col, n, q) <==> !exists|i: int|
                0 <= i < out@.len() && (#[trigger] out@[i]).0 == q) by {
                if q < p {
                    assert(part_is_empty(*block, col, n, q) <==> !exists|i: int|
                        0 <= i < before.len() && (#[trigger] before[i]).0 == q);
                    if exists|i: int| 0 <= i < before.len() && (#[trigger] before[i]).0 == q {
                        let i = choose|i: int| 0 <= i < before.len() && (#[trigger] before[i]).0 == q;
                        assert(out@[i].0 == q);
                    }
                    if exists|i: int| 0 <= i < out@.len() && (#[trigger] out@[i]).0 == q {
                        let i = choose|i: int| 0 <= i < out@.len() && (#[trigger] out@[i]).0 == q;
                        assert(before[i].0 == q);
                    }
                } else {
                    if part.rows > 0 {
                        assert(out@[before.len() as int].0 == q);
                    }
                }
            }
        }
        p += 1;
    }
    out
}

proof fn filter_shorter<T>(s: Seq<T>, f: spec_fn(T) -> bool)
    ensures
        s.filter(f).len() <= s.len(),
    decreases s.len(),
{
    reveal(Seq::filter);
    if s.len() > 0 {
        filter_shorter(s.drop_last(), f);
    }
}

/// The rows of the first `k` partitions.
pub open spec fn in_parts(rows: Seq<Seq<i64>>, col: int, n: int, k: nat) -> Multiset<Seq<i64>>
    decreases k,
{
    if k == 0 {
        Multiset::empty()
    } else {
        in_parts(rows, col, n, (k - 1) as nat).add(
            rows.filter(goes_to(col, n, k - 1)).to_multiset(),
        )
    }
}

proof fn in_parts_empty(rows: Seq<Seq<i64>>, col: int, n: int, k: nat)
    requires
        rows.len() == 0,
    ensures
        in_parts(rows, col, n, k) == Multiset::<Seq<i64>>::empty(),
    decreases k,
{
    if k > 0 {
        reveal(Seq::filter);
        in_parts_empty(rows, col, n, (k - 1) as nat);
        let f = rows.filter(goes_to(col, n, k - 1));
        assert(f =~= Seq::<Seq<i64>>::empty());
        f.to_multiset_ensures();
        assert(f.to_multiset() =~= Multiset::<Seq<i64>>::empty());
        assert(in_parts(rows, col, n, k) =~= Multiset::<Seq<i64>>::empty());
    }
}

proof fn in_parts_step(rows: Seq<Seq<i64>>, x: Seq<i64>, col: int, n: int, k: nat)
    requires
        n > 0,
    ensures
        in_parts(rows.push(x), col, n, k) == if part_of(x[col], n) < k {
            in_parts(rows, col, n, k).insert(x)
        } else {
            in_parts(rows, col, n, k)
        },
    decreases k,
{
    if k > 0 {
        reveal(Seq::filter);
        in_parts_step(rows, x, col, n, (k - 1) as nat);
        let g = goes_to(col, n, k - 1);
        assert(rows.push(x).drop_last() =~= rows);
        let f = rows.filter(g);
        f.to_multiset_ensures();
        if g(x) {
            assert(rows.push(x).filter(g) == f.push(x));
            assert(f.push(x).to_multiset() =~= f.to_multiset().insert(x));
        }
        if part_of(x[col], n) < k {
            assert(in_parts(rows.push(x), col, n, k) =~= in_parts(rows, col, n, k).insert(x));
        } else {
            assert(in_parts(rows.push(x), col, n, k) =~= in_parts(rows, col, n, k));
        }
    }
}

/// Parting loses and doubles no row: the partitions together hold the rows of
/// the block.
pub proof fn partitions_hold_all_rows(rows: Seq<Seq<i64>>, col: int, n: int)
    requires
        n > 0,
    ensures
        in_parts(rows, col, n, n as nat) == rows.to_multiset(),
    decreases rows.len(),
{
    rows.to_multiset_ensures();
    if rows.len() == 0 {
        in_parts_empty(rows, col, n, n as nat);
        assert(rows.to_multiset() =~= Multiset::<Seq<i64>>::empty());
    } else {
        let d = rows.drop_last();
        let x = rows.last();
        partitions_hold_all_rows(d, col, n);
        in_parts_step(d, x, col, n, n as nat);
        assert(d.push(x) =~= rows);
        d.to_multiset_ensures();
        assert(rows.to_multiset() =~= d.to_multiset().insert(x));
    }
}

} // verus!
