//! Floating-point numbers of single and of double precision, as their bits.
use crate::iceberg::integer::{find_top, half_even, power, top, top_bounds, two, two_grows, two_sum};
use vstd::arithmetic::div_mod::lemma_fundamental_div_mod_converse;
use vstd::prelude::*;

verus! {

/// The bits of a double without its sign, rounded to single precision: `e` is
/// its exponent and `m` its fraction. What is too large becomes infinite, what
/// is too small loses places or vanishes, and what is not a number stays so,
/// made quiet.
pub open spec fn narrow_magnitude(e: nat, m: nat) -> nat {
    if e == 2047 {
        if m == 0 {
            0x7f80_0000
        } else {
            0x7fc0_0000 + (m / 0x2000_0000) % 0x40_0000
        }
    } else if e > 896 {
        let x = ((e - 897) * 0x80_0000 + half_even(0x10_0000_0000_0000 + m, 0x2000_0000)) as nat;
        if x >= 0x7f80_0000 { 0x7f80_0000 } else { x }
    } else if e > 0 {
        half_even(0x10_0000_0000_0000 + m, two((926 - e) as nat))
    } else {
        0
    }
}

/// A double rounded to single precision.
pub open spec fn narrow(b: u64) -> u32 {
    let x = narrow_magnitude(
        ((b / 0x10_0000_0000_0000) % 0x800) as nat,
        (b % 0x10_0000_0000_0000) as nat,
    );
    (if b >= 0x8000_0000_0000_0000 { 0x8000_0000 + x } else { x }) as u32
}

/// The bits of a single without its sign, as those of the double that it is.
pub open spec fn widen_magnitude(e: nat, m: nat) -> nat {
    if e == 255 {
        if m == 0 {
            0x7ff0_0000_0000_0000
        } else {
            0x7ff8_0000_0000_0000 + (m % 0x40_0000) * 0x2000_0000
        }
    } else if e > 0 {
        (e + 896) * 0x10_0000_0000_0000 + m * 0x2000_0000
    } else if m > 0 {
        let k = top(m) as nat;
        ((k + 874) * 0x10_0000_0000_0000 + (m - two(k)) * two((52 - k) as nat)) as nat
    } else {
        0
    }
}

/// The double that a single is.
pub open spec fn widen(b: u32) -> u64 {
    let x = widen_magnitude(((b / 0x80_0000) % 0x100) as nat, (b % 0x80_0000) as nat);
    (if b >= 0x8000_0000 { 0x8000_0000_0000_0000 + x } else { x }) as u64
}

/// Whether the bits are those of something that is not a number, and not
/// quiet about it.
pub open spec fn signals(b: u32) -> bool {
    (b / 0x80_0000) % 0x100 == 255 && 0 < b % 0x80_0000 < 0x40_0000
}

proof fn some_powers()
    ensures
        two(22) == 0x40_0000,
        two(23) == 0x80_0000,
        two(30) == 0x4000_0000,
        two(52) == 0x10_0000_0000_0000,
        two(54) == 0x40_0000_0000_0000,
{
    reveal_with_fuel(two, 55);
}

/// How the fraction of a single that is not normal lies in a double.
proof fn low_bits(m: nat)
    requires
        0 < m < 0x80_0000,
    ensures
        0 <= top(m) <= 22,
        m >= two(top(m) as nat),
        (m - two(top(m) as nat)) * two((52 - top(m)) as nat) < 0x10_0000_0000_0000,
        0x10_0000_0000_0000 + (m - two(top(m) as nat)) * two((52 - top(m)) as nat) == m * two(
            (52 - top(m)) as nat,
        ),
{
    some_powers();
    top_bounds(m);
    let k = top(m) as nat;
    if k >= 23 {
        two_grows(23, k);
    }
    two_sum(k, (52 - k) as nat);
    two_grows(0, (52 - k) as nat);
    let a = two(k);
    let c = two((52 - k) as nat);
    assert(two((k + 1) as nat) == 2 * a);
    assert((m - a) * c < a * c && a * c + (m - a) * c == m * c) by (nonlinear_arith)
        requires
            a <= m < 2 * a,
            c >= 1,
    ;
}

proof fn narrow_fits(e: nat, m: nat)
    requires
        e < 2048,
        m < 0x10_0000_0000_0000,
    ensures
        narrow_magnitude(e, m) < 0x8000_0000,
{
    if 0 < e <= 896 {
        some_powers();
        let v = 0x10_0000_0000_0000 + m;
        let d = two((926 - e) as nat);
        two_grows(30, (926 - e) as nat);
        assert(v / d <= v / 0x4000_0000) by {
            vstd::arithmetic::div_mod::lemma_div_is_ordered_by_denominator(
                v as int,
                0x4000_0000,
                d as int,
            );
        }
    }
}

/// Rounds a double to single precision.
pub fn to_single(b: u64) -> (r: u32)
    ensures
        r == narrow(b),
{
    let e: u64 = (b / 0x10_0000_0000_0000) % 0x800;
    let m: u64 = b % 0x10_0000_0000_0000;
    proof {
        narrow_fits(e as nat, m as nat);
    }
    let x: u64 = if e == 2047 {
        if m == 0 {
            0x7f80_0000
        } else {
            0x7fc0_0000 + (m / 0x2000_0000) % 0x40_0000
        }
    } else if e > 896 {
        let y: u64 = (e - 897) * 0x80_0000 + rounded(0x10_0000_0000_0000 + m, 0x2000_0000);
        if y >= 0x7f80_0000 { 0x7f80_0000 } else { y }
    } else if e > 872 {
        proof {
            some_powers();
            two_grows((926 - e) as nat, 54);
            two_grows(0, (926 - e) as nat);
        }
        let d: u128 = power((926 - e) as usize);
        rounded(0x10_0000_0000_0000 + m, d as u64)
    } else {
        proof {
            if e > 0 {
                let v = (0x10_0000_0000_0000 + m) as int;
                let d = two((926 - e) as nat) as int;
                some_powers();
                two_grows(54, (926 - e) as nat);
                lemma_fundamental_div_mod_converse(v, d, 0, v);
            }
        }
        0
    };
    if b >= 0x8000_0000_0000_0000 {
        (0x8000_0000 + x) as u32
    } else {
        x as u32
    }
}

fn rounded(n: u64, d: u64) -> (r: u64)
    requires
        0 < d <= 0x40_0000_0000_0000,
        n < 0x20_0000_0000_0000,
    ensures
        r == half_even(n as nat, d as nat),
        r <= n + 1,
{
    let q: u64 = n / d;
    let r: u64 = n % d;
    proof {
        assert(q <= n) by (nonlinear_arith)
            requires
                q == n / d,
                d > 0,
        ;
    }
    if 2 * r > d || (2 * r == d && q % 2 == 1) {
        q + 1
    } else {
        q
    }
}

/// The double that a single is.
pub fn to_double(b: u32) -> (r: u64)
    ensures
        r == widen(b),
{
    let e: u64 = ((b / 0x80_0000) % 0x100) as u64;
    let m: u64 = (b % 0x80_0000) as u64;
    let x: u64 = if e == 255 {
        if m == 0 {
            0x7ff0_0000_0000_0000
        } else {
            0x7ff8_0000_0000_0000 + (m % 0x40_0000) * 0x2000_0000
        }
    } else if e > 0 {
        (e + 896) * 0x10_0000_0000_0000 + m * 0x2000_0000
    } else if m > 0 {
        let k: usize = find_top(m);
        proof {
            low_bits(m as nat);
            some_powers();
            two_grows((52 - k) as nat, 52);
            two_grows(k as nat, 22);
        }
        let a: u64 = power(k) as u64;
        let c: u64 = power(52 - k) as u64;
        (k as u64 + 874) * 0x10_0000_0000_0000 + (m - a) * c
    } else {
        0
    };
    if b >= 0x8000_0000 {
        0x8000_0000_0000_0000 + x
    } else {
        x
    }
}

/// A single is kept by its double: rounded again, it is what it was. Only what
/// is not a number comes back quiet.
pub proof fn single_survives(b: u32)
    requires
        !signals(b),
    ensures
        narrow(widen(b)) == b,
{
    let e = ((b / 0x80_0000) % 0x100) as nat;
    let m = (b % 0x80_0000) as nat;
    let x = widen_magnitude(e, m);
    let f = (x / 0x10_0000_0000_0000) as nat;
    let n = (x % 0x10_0000_0000_0000) as nat;
    let w = widen(b);
    if e == 255 {
    } else if e > 0 {
        assert(f == e + 896 && n == m * 0x2000_0000);
        let v = (0x10_0000_0000_0000 + n) as int;
        lemma_fundamental_div_mod_converse(v, 0x2000_0000, (0x80_0000 + m) as int, 0);
    } else if m > 0 {
        low_bits(m);
        let k = top(m) as nat;
        let c = two((52 - k) as nat);
        let y = ((m - two(k)) * c) as nat;
        assert(f == k + 874 && n == y);
        assert((926 - f) as nat == (52 - k) as nat);
        two_grows(0, (52 - k) as nat);
        let v = (0x10_0000_0000_0000 + n) as int;
        assert(v == c * m) by (nonlinear_arith)
            requires
                v == m * c,
        ;
        lemma_fundamental_div_mod_converse(v, c as int, m as int, 0);
    }
    assert(x < 0x8000_0000_0000_0000);
    assert(w % 0x10_0000_0000_0000 == n);
    assert((w / 0x10_0000_0000_0000) % 0x800 == f);
    assert(narrow_magnitude(f, n) == e * 0x80_0000 + m);
}

} // verus!
