//! Generated tables and work to try the engine on.
use crate::cluster::{block_from, block_rows, blocks_ok, full_blocks, row_at, rows_of};
use crate::kernel::{Block, BLOCK_ROWS};
use crate::stream::source::WorkUnit;
use vstd::prelude::*;

verus! {

/// The state behind another (xorshift).
pub open spec fn stepped(x: u64) -> u64 {
    let a = x ^ (x >> 12);
    let b = a ^ (a << 25);
    b ^ (b >> 27)
}

/// The state after `n` draws.
pub open spec fn state_after(seed: u64, n: nat) -> u64
    decreases n,
{
    if n == 0 {
        seed
    } else {
        stepped(state_after(seed, (n - 1) as nat))
    }
}

/// What a state gives.
pub open spec fn drawn(x: u64) -> u64 {
    x.wrapping_mul(0x2545F4914F6CDD1D)
}

/// The draw of a place in the sequence of a seed, below a limit.
pub open spec fn draw_below(seed: u64, n: nat, limit: u64) -> i64 {
    (drawn(state_after(seed, n + 1)) % limit) as i64
}

/// A generator of pseudo-random numbers.
pub struct Rng {
    pub state: u64,
}

impl Rng {
    pub fn new(seed: u64) -> (r: Rng)
        ensures
            r.state == seed,
    {
        Rng { state: seed }
    }

    pub fn next(&mut self) -> (v: u64)
        ensures
            final(self).state == stepped(old(self).state),
            v == drawn(final(self).state),
    {
        let mut x: u64 = self.state;
        x = x ^ (x >> 12);
        x = x ^ (x << 25);
        x = x ^ (x >> 27);
        self.state = x;
        x.wrapping_mul(0x2545F4914F6CDD1D)
    }

    /// The next number below a limit.
    pub fn range(&mut self, n: u64) -> (v: u64)
        requires
            n > 0,
        ensures
            final(self).state == stepped(old(self).state),
            v == drawn(final(self).state) % n,
            v < n,
    {
        self.next() % n
    }
}

/// The seed of the sample table.
pub const SEED: u64 = 0x9E3779B97F4A7C15;

/// A row of the sample table: a key, a measure, a group of sixteen, and a
/// second key that goes with the first.
pub open spec fn sample_row(r: nat) -> Seq<i64> {
    let k = draw_below(SEED, 4 * r, 100_000_000);
    seq![
        k,
        draw_below(SEED, 4 * r + 1, 10_000),
        draw_below(SEED, 4 * r + 2, 16),
        (k as int / 1000 + draw_below(SEED, 4 * r + 3, 500)) as i64,
    ]
}

pub open spec fn sample_rows(from: nat, n: nat) -> Seq<Seq<i64>> {
    Seq::new(n, |i: int| sample_row((from + i) as nat))
}

/// Draws a row.
fn draw_row(rng: &mut Rng, Ghost(r): Ghost<nat>) -> (v: (i64, i64, i64, i64))
    requires
        old(rng).state == state_after(SEED, 4 * r),
    ensures
        final(rng).state == state_after(SEED, 4 * (r + 1)),
        seq![v.0, v.1, v.2, v.3] == sample_row(r),
{
    proof {
        reveal_with_fuel(state_after, 5);
    }
    let k: i64 = rng.range(100_000_000) as i64;
    assert(rng.state == state_after(SEED, 4 * r + 1));
    let a: i64 = rng.range(10_000) as i64;
    assert(rng.state == state_after(SEED, 4 * r + 2));
    let b: i64 = rng.range(16) as i64;
    assert(rng.state == state_after(SEED, 4 * r + 3));
    let c: i64 = k / 1000 + rng.range(500) as i64;
    assert(rng.state == state_after(SEED, 4 * r + 4));
    assert(seq![k, a, b, c] =~= sample_row(r));
    (k, a, b, c)
}

/// The sample table of so many rows, in blocks.
pub fn gen_table(rows: usize) -> (blocks: Vec<Block>)
    ensures
        blocks_ok(blocks@, 4),
        rows_of(blocks@) == sample_rows(0, rows as nat),
        full_blocks(blocks@),
{
    let mut rng: Rng = Rng::new(SEED);
    let mut blocks: Vec<Block> = Vec::new();
    let mut done: usize = 0;
    assert(rows_of(blocks@) =~= sample_rows(0, 0));
    while done < rows
        invariant
            done <= rows,
            rng.state == state_after(SEED, 4 * (done as nat)),
            blocks_ok(blocks@, 4),
            rows_of(blocks@) == sample_rows(0, done as nat),
            full_blocks(blocks@),
            done < rows ==> forall|b: int|
                0 <= b < blocks@.len() ==> (#[trigger] blocks@[b]).rows == BLOCK_ROWS,
        decreases rows - done,
    {
        let left: usize = rows - done;
        let n: usize = if left < BLOCK_ROWS { left } else { BLOCK_ROWS };
        let mut c0: Vec<i64> = Vec::new();
        let mut c1: Vec<i64> = Vec::new();
        let mut c2: Vec<i64> = Vec::new();
        let mut c3: Vec<i64> = Vec::new();
        let mut i: usize = 0;
        while i < n
            invariant
                i <= n,
                done + n <= rows,
                rng.state == state_after(SEED, 4 * ((done + i) as nat)),
                c0@.len() == i,
                c1@.len() == i,
                c2@.len() == i,
                c3@.len() == i,
                forall|j: int|
                    #![trigger c0@[j]]
                    0 <= j < i ==> seq![c0@[j], c1@[j], c2@[j], c3@[j]] == sample_row(
                        (done + j) as nat,
                    ),
            decreases n - i,
        {
            let (a, b, c, d) = draw_row(&mut rng, Ghost((done + i) as nat));
            c0.push(a);
            c1.push(b);
            c2.push(c);
            c3.push(d);
            i += 1;
        }
        let mut cur: Vec<Vec<i64>> = Vec::new();
        cur.push(c0);
        cur.push(c1);
        cur.push(c2);
        cur.push(c3);
        let blk: Block = block_from(cur, n);
        let ghost before = blocks@;
        blocks.push(blk);
        proof {
            let got = block_rows(blk);
            let want = sample_rows(done as nat, n as nat);
            assert forall|j: int| 0 <= j < n implies got[j] == want[j] by {
                assert(got[j] == row_at(blk, j));
                assert(row_at(blk, j) =~= seq![c0@[j], c1@[j], c2@[j], c3@[j]]);
                assert(c0@[j] == c0@[j]);
            }
            assert(got =~= want);
            assert(blocks@.drop_last() =~= before);
            assert(sample_rows(0, done as nat) + want =~= sample_rows(0, (done + n) as nat));
        }
        done = done + n;
    }
    blocks
}

/// The state behind another of the plain generator.
pub open spec fn shifted(x: u64) -> u64 {
    let a = x ^ (x << 13);
    let b = a ^ (a >> 7);
    b ^ (b << 17)
}

/// What the plain generator gives at a place.
pub open spec fn shifted_at(n: nat) -> u64
    decreases n,
{
    if n == 0 {
        0xC0FFEE
    } else {
        shifted(shifted_at((n - 1) as nat))
    }
}

/// A row of the plain table: a key, a measure and a group of sixteen.
pub open spec fn plain_row(r: nat) -> Seq<i64> {
    seq![
        (shifted_at(3 * r + 1) % 100_000_000) as i64,
        (shifted_at(3 * r + 2) % 10_000) as i64,
        (shifted_at(3 * r + 3) % 16) as i64,
    ]
}

pub open spec fn plain_rows(from: nat, n: nat) -> Seq<Seq<i64>> {
    Seq::new(n, |i: int| plain_row((from + i) as nat))
}

fn shift(x: u64) -> (r: u64)
    ensures
        r == shifted(x),
{
    let mut y: u64 = x;
    y = y ^ (y << 13);
    y = y ^ (y >> 7);
    y ^ (y << 17)
}

/// The plain table of so many rows, in blocks.
pub fn gen_plain_table(rows: usize) -> (blocks: Vec<Block>)
    ensures
        blocks_ok(blocks@, 3),
        rows_of(blocks@) == plain_rows(0, rows as nat),
        full_blocks(blocks@),
{
    let mut state: u64 = 0xC0FFEE;
    let mut blocks: Vec<Block> = Vec::new();
    let mut done: usize = 0;
    assert(rows_of(blocks@) =~= plain_rows(0, 0));
    while done < rows
        invariant
            done <= rows,
            state == shifted_at(3 * (done as nat)),
            blocks_ok(blocks@, 3),
            rows_of(blocks@) == plain_rows(0, done as nat),
            full_blocks(blocks@),
            done < rows ==> forall|b: int|
                0 <= b < blocks@.len() ==> (#[trigger] blocks@[b]).rows == BLOCK_ROWS,
        decreases rows - done,
    {
        let left: usize = rows - done;
        let n: usize = if left < BLOCK_ROWS { left } else { BLOCK_ROWS };
        let mut c0: Vec<i64> = Vec::new();
        let mut c1: Vec<i64> = Vec::new();
        let mut c2: Vec<i64> = Vec::new();
        let mut i: usize = 0;
        while i < n
            invariant
                i <= n,
                done + n <= rows,
                state == shifted_at(3 * ((done + i) as nat)),
                c0@.len() == i,
                c1@.len() == i,
                c2@.len() == i,
                forall|j: int|
                    #![trigger c0@[j]]
                    0 <= j < i ==> seq![c0@[j], c1@[j], c2@[j]] == plain_row((done + j) as nat),
            decreases n - i,
        {
            let ghost r = (done + i) as nat;
            proof {
                reveal_with_fuel(shifted_at, 4);
            }
            let a: u64 = shift(state);
            assert(a == shifted_at(3 * r + 1));
            let b: u64 = shift(a);
            assert(b == shifted_at(3 * r + 2));
            state = shift(b);
            assert(state == shifted_at(3 * r + 3));
            c0.push((a % 100_000_000) as i64);
            c1.push((b % 10_000) as i64);
            c2.push((state % 16) as i64);
            assert(seq![c0@[i as int], c1@[i as int], c2@[i as int]] =~= plain_row(r));
            i += 1;
        }
        let mut cur: Vec<Vec<i64>> = Vec::new();
        cur.push(c0);
        cur.push(c1);
        cur.push(c2);
        let blk: Block = block_from(cur, n);
        let ghost before = blocks@;
        blocks.push(blk);
        proof {
            let got = block_rows(blk);
            let want = plain_rows(done as nat, n as nat);
            assert forall|j: int| 0 <= j < n implies got[j] == want[j] by {
                assert(got[j] == row_at(blk, j));
                assert(row_at(blk, j) =~= seq![c0@[j], c1@[j], c2@[j]]);
                assert(c0@[j] == c0@[j]);
            }
            assert(got =~= want);
            assert(blocks@.drop_last() =~= before);
            assert(plain_rows(0, done as nat) + want =~= plain_rows(0, (done + n) as nat));
        }
        done = done + n;
    }
    blocks
}

/// Stands in for the processing of a unit: gives the number of its records.
pub fn process_unit(u: &WorkUnit) -> (n: u64)
    ensures
        n == u.records@.len(),
{
    u.records.len() as u64
}

// ---------------------------------------------------------------------------
// Laws
// ---------------------------------------------------------------------------

/// A step is linear in the bits of a state, and never gives one state for two:
/// what it does to the ends of a state is moved along by it.
pub proof fn steps_are_linear(x: u64, y: u64)
    ensures
        stepped(x ^ y) == stepped(x) ^ stepped(y),
        x != y ==> stepped(x) != stepped(y),
        stepped(1) == 0x0200_0001,
        stepped(0x8000_0000_0000_0000) == 0x8008_0010_0100_0000,
{
    assert(stepped(x ^ y) == stepped(x) ^ stepped(y)) by (bit_vector);
    let (a, c) = (x ^ (x >> 12), y ^ (y >> 12));
    let (b, d) = (a ^ (a << 25), c ^ (c << 25));
    assert(x != y ==> x ^ (x >> 12) != y ^ (y >> 12)) by (bit_vector);
    assert(a != c ==> a ^ (a << 25) != c ^ (c << 25)) by (bit_vector);
    assert(b != d ==> b ^ (b >> 27) != d ^ (d >> 27)) by (bit_vector);
    assert(stepped(1) == 0x0200_0001) by (bit_vector);
    assert(stepped(0x8000_0000_0000_0000) == 0x8008_0010_0100_0000) by (bit_vector);
}

/// So is a step of the plain generator.
pub proof fn shifts_are_linear(x: u64, y: u64)
    ensures
        shifted(x ^ y) == shifted(x) ^ shifted(y),
        x != y ==> shifted(x) != shifted(y),
        shifted(1) == 0x4082_2041,
        shifted(0x8000_0000_0000_0000) == 0x8100_0000_0000_0000,
{
    assert(shifted(x ^ y) == shifted(x) ^ shifted(y)) by (bit_vector);
    let (a, c) = (x ^ (x << 13), y ^ (y << 13));
    let (b, d) = (a ^ (a >> 7), c ^ (c >> 7));
    assert(x != y ==> x ^ (x << 13) != y ^ (y << 13)) by (bit_vector);
    assert(a != c ==> a ^ (a >> 7) != c ^ (c >> 7)) by (bit_vector);
    assert(b != d ==> b ^ (b << 17) != d ^ (d << 17)) by (bit_vector);
    assert(shifted(1) == 0x4082_2041) by (bit_vector);
    assert(shifted(0x8000_0000_0000_0000) == 0x8100_0000_0000_0000) by (bit_vector);
}

/// The states after some draws and then others are those after both.
pub proof fn draws_go_on(seed: u64, m: nat, n: nat)
    ensures
        state_after(seed, m + n) == state_after(state_after(seed, m), n),
        state_after(seed, 0) == seed,
        state_after(seed, 1) == stepped(seed),
    decreases n,
{
    reveal_with_fuel(state_after, 2);
    if n > 0 {
        draws_go_on(seed, m, (n - 1) as nat);
    }
}

/// A row takes four draws, in the order of its columns: a key, a measure, a
/// group of sixteen, and a second key within five hundred of a thousandth of
/// the first.
pub proof fn sample_rows_are_drawn(r: nat)
    ensures
        ({
            let s = sample_row(r);
            let a = stepped(state_after(SEED, 4 * r));
            let b = stepped(a);
            let c = stepped(b);
            let d = stepped(c);
            &&& s.len() == 4
            &&& s[0] == drawn(a) as int % 100_000_000 && s[1] == drawn(b) as int % 10_000
            &&& s[2] == drawn(c) as int % 16
            &&& s[3] == s[0] as int / 1000 + drawn(d) as int % 500
            &&& state_after(SEED, 4 * (r + 1)) == d
        }),
{
    reveal_with_fuel(state_after, 5);
    assert(4 * (r + 1) == 4 * r + 4);
}

/// A row of the plain table takes three draws, in the order of its columns.
pub proof fn plain_rows_are_drawn(r: nat)
    ensures
        ({
            let s = plain_row(r);
            let a = shifted(shifted_at(3 * r));
            let b = shifted(a);
            let c = shifted(b);
            &&& s.len() == 3
            &&& s[0] == a as int % 100_000_000 && s[1] == b as int % 10_000 && s[2] == c as int % 16
            &&& shifted_at(3 * (r + 1)) == c
        }),
{
    reveal_with_fuel(shifted_at, 4);
    assert(3 * (r + 1) == 3 * r + 3);
}

} // verus!
