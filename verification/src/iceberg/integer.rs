//! The integer part of a number: that of the double nearest to it.
use crate::iceberg::json::{digit_byte, is_number, spells_number};
use crate::iceberg::number::{
    all_digits, number_parts, part_digits, shift, sign_end, significant, significant_digits,
    whole_end,
};
use crate::iceberg::warehouse::text_bytes;
use vstd::arithmetic::div_mod::{lemma_div_is_ordered, lemma_fundamental_div_mod_converse};
use vstd::prelude::*;
use vstd::utf8::encode_utf8;

verus! {

pub open spec fn two(n: nat) -> nat
    decreases n,
{
    if n == 0 { 1 } else { 2 * two((n - 1) as nat) }
}

pub open spec fn ten(n: nat) -> nat
    decreases n,
{
    if n == 0 { 1 } else { 10 * ten((n - 1) as nat) }
}

/// The number that some digits stand for.
pub open spec fn value(d: Seq<u8>) -> nat
    decreases d.len(),
{
    if d.len() == 0 { 0 } else { value(d.drop_last()) * 10 + (d.last() - 48) as nat }
}

/// The exponent of the power of two at the head of a whole number; below zero
/// for zero.
pub open spec fn top(q: nat) -> int
    decreases q,
{
    if q == 0 { -1 } else { 1 + top(q / 2) }
}

/// The whole number nearest to `n / d`, of two the even one.
pub open spec fn half_even(n: nat, d: nat) -> nat {
    let q = n / d;
    let r = n % d;
    if 2 * r > d || (2 * r == d && q % 2 == 1) { q + 1 } else { q }
}

/// The integer part of the double nearest to `n / d`. A double has 53 binary
/// places. From 2^52 on it is a whole number, a multiple of a power of two.
/// Below that every whole number is a double, and `n / d` is nearest to the
/// next one only where half a place is missing at most.
pub open spec fn double_part(n: nat, d: nat) -> nat {
    let q = n / d;
    if q < two(52) {
        let t = two((53 - top(q)) as nat);
        if d * ((q + 1) * t - 1) <= n * t { q + 1 } else { q }
    } else {
        let unit = two((top(q) - 52) as nat);
        half_even(n, d * unit) * unit
    }
}

/// The integer part of a number without its sign.
pub open spec fn magnitude(b: Seq<u8>) -> nat {
    if shift(b) >= 0 {
        double_part(value(all_digits(b)) * ten(shift(b) as nat), 1)
    } else {
        double_part(value(all_digits(b)), ten((-shift(b)) as nat))
    }
}

/// A whole number with its sign, or the nearest that there is room for.
pub open spec fn saturated(negative: bool, v: nat) -> i64 {
    if negative {
        if v > i64::MAX { i64::MIN } else { (-v) as i64 }
    } else {
        if v > i64::MAX { i64::MAX } else { v as i64 }
    }
}

/// The integer part of a number that is spelled out.
pub open spec fn integer_part(t: Seq<char>) -> Option<i64> {
    let b = encode_utf8(t);
    if spells_number(b) { Some(saturated(b[0] == 45, magnitude(b))) } else { None }
}

pub open spec fn are_digits(d: Seq<u8>) -> bool {
    forall|i: int| 0 <= i < d.len() ==> digit_byte(#[trigger] d[i])
}

pub proof fn two_grows(a: nat, b: nat)
    requires
        a <= b,
    ensures
        0 < two(a) <= two(b),
    decreases b,
{
    if a < b {
        two_grows(a, (b - 1) as nat);
    } else if a > 0 {
        two_grows((a - 1) as nat, (a - 1) as nat);
    }
}

pub proof fn two_sum(a: nat, b: nat)
    ensures
        two(a + b) == two(a) * two(b),
    decreases b,
{
    if b > 0 {
        two_sum(a, (b - 1) as nat);
        let x = two(a);
        let y = two((b - 1) as nat);
        assert(two(a + b) == 2 * two((a + b - 1) as nat));
        assert(x * (2 * y) == 2 * (x * y)) by (nonlinear_arith);
        assert((a + b - 1) as nat == a + (b - 1) as nat);
    } else {
        let x = two(a);
        assert(x * 1 == x) by (nonlinear_arith);
    }
}

proof fn ten_grows(a: nat, b: nat)
    requires
        a <= b,
    ensures
        0 < ten(a) <= ten(b),
    decreases b,
{
    if a < b {
        ten_grows(a, (b - 1) as nat);
    } else if a > 0 {
        ten_grows((a - 1) as nat, (a - 1) as nat);
    }
}

proof fn powers()
    ensures
        two(11) == 0x800,
        two(52) == 0x10_0000_0000_0000,
        two(63) == 0x8000_0000_0000_0000,
        two(64) == 0x1_0000_0000_0000_0000,
        ten(19) == 10_000_000_000_000_000_000,
{
    reveal_with_fuel(two, 65);
    reveal_with_fuel(ten, 20);
}

/// A whole number lies between the power at its head and the next one.
pub proof fn top_bounds(q: nat)
    requires
        q > 0,
    ensures
        top(q) >= 0,
        two(top(q) as nat) <= q < two((top(q) + 1) as nat),
    decreases q,
{
    if q > 1 {
        top_bounds(q / 2);
    } else {
        assert(top(0) == -1);
        assert(top(1) == 0);
        assert(two(1) == 2 * two(0));
    }
}

proof fn top_at_least(q: nat, n: nat)
    requires
        two(n) <= q,
    ensures
        top(q) >= n,
{
    two_grows(0, n);
    top_bounds(q);
    if top(q) < n {
        two_grows((top(q) + 1) as nat, n);
    }
}

proof fn value_bound(d: Seq<u8>)
    requires
        are_digits(d),
    ensures
        value(d) < ten(d.len()),
    decreases d.len(),
{
    if d.len() > 0 {
        assert(digit_byte(d[d.len() - 1]));
        value_bound(d.drop_last());
    }
}

/// Digits that do not begin with a zero.
proof fn value_at_least(d: Seq<u8>)
    requires
        are_digits(d),
        d.len() > 0,
        d[0] != 48,
    ensures
        value(d) >= ten((d.len() - 1) as nat),
    decreases d.len(),
{
    assert(digit_byte(d[d.len() - 1]));
    if d.len() > 1 {
        value_at_least(d.drop_last());
    } else {
        assert(d.drop_last() =~= Seq::<u8>::empty());
    }
}

proof fn value_split(a: Seq<u8>, b: Seq<u8>)
    ensures
        value(a + b) == value(a) * ten(b.len()) + value(b),
    decreases b.len(),
{
    if b.len() > 0 {
        value_split(a, b.drop_last());
        assert((a + b).drop_last() =~= a + b.drop_last());
        assert((a + b).last() == b.last());
        let x = value(a);
        let y = ten((b.len() - 1) as nat);
        assert(x * (10 * y) == 10 * (x * y)) by (nonlinear_arith);
    } else {
        assert(a + b =~= a);
        let x = value(a);
        assert(x * 1 == x) by (nonlinear_arith);
    }
}

proof fn zeros_value(n: nat)
    ensures
        value(Seq::new(n, |i: int| 48u8)) == 0,
    decreases n,
{
    let z = Seq::new(n, |i: int| 48u8);
    if n > 0 {
        assert(z.drop_last() =~= Seq::new((n - 1) as nat, |i: int| 48u8));
        zeros_value((n - 1) as nat);
    }
}

/// The digits of a number are digits, and the first is not a zero.
proof fn significant_first(d: Seq<u8>)
    requires
        are_digits(d),
    ensures
        are_digits(significant(d)),
        significant(d).len() > 0 ==> significant(d)[0] != 48,
    decreases d.len(),
{
    if d.len() > 0 {
        assert(digit_byte(d[d.len() - 1]));
        significant_first(d.drop_last());
    }
}

/// Doubles the fraction that some digits behind a point stand for; gives what
/// comes before the point.
fn double(f: &mut Vec<u8>) -> (carry: u8)
    requires
        are_digits(old(f)@),
    ensures
        carry <= 1,
        are_digits(final(f)@),
        final(f)@.len() == old(f)@.len(),
        2 * value(old(f)@) == carry * ten(old(f)@.len()) + value(final(f)@),
{
    let ghost was = f@;
    let n: usize = f.len();
    let carry: u8 = if n > 0 && f[0] >= 53 { 1 } else { 0 };
    let mut i: usize = 0;
    assert(was.take(0) =~= Seq::<u8>::empty());
    while i < n
        invariant
            i <= n,
            n == f@.len() == was.len(),
            are_digits(was),
            are_digits(f@),
            f@.skip(i as int) == was.skip(i as int),
            2 * value(was.take(i as int)) + (if i < n && was[i as int] >= 53 { 1int } else { 0int })
                == carry * ten(i as nat) + value(f@.take(i as int)),
        decreases n - i,
    {
        let ghost before = f@;
        assert(f@[i as int] == f@.skip(i as int)[0]);
        assert(was[i as int] == was.skip(i as int)[0]);
        assert(digit_byte(was[i as int]));
        if i + 1 < n {
            assert(f@[i + 1] == f@.skip(i as int)[1]);
            assert(was[i + 1] == was.skip(i as int)[1]);
            assert(digit_byte(was[i + 1]));
        }
        let x: u8 = f[i] - 48;
        let more: u8 = if i + 1 < n && f[i + 1] >= 53 { 1 } else { 0 };
        let y: u8 = (if x >= 5 { 2 * x - 10 } else { 2 * x }) + more;
        f.set(i, 48 + y);
        proof {
            assert forall|j: int| 0 <= j < f@.len() implies digit_byte(#[trigger] f@[j]) by {
                if j != i {
                    assert(digit_byte(before[j]));
                }
            }
            assert(f@.skip(i + 1) =~= before.skip(i as int).skip(1));
            assert(was.skip(i + 1) =~= was.skip(i as int).skip(1));
            assert(was.take(i + 1).drop_last() =~= was.take(i as int));
            assert(f@.take(i + 1).drop_last() =~= before.take(i as int));
            let t = ten(i as nat);
            assert(ten((i + 1) as nat) == 10 * t);
            assert(carry * (10 * t) == 10 * (carry * t)) by (nonlinear_arith);
        }
        i += 1;
    }
    assert(was.take(n as int) =~= was);
    assert(f@.take(n as int) =~= f@);
    carry
}

/// Whether the first `t` binary places of a fraction are all ones, that is,
/// whether one of the last of them would make it whole.
fn all_ones(f: &mut Vec<u8>, t: usize) -> (r: bool)
    requires
        are_digits(old(f)@),
    ensures
        r == (ten(old(f)@.len()) * (two(t as nat) - 1) <= value(old(f)@) * two(t as nat)),
{
    let ghost d = ten(f@.len());
    let ghost all = value(f@);
    let ghost len = f@.len();
    let mut s: usize = 0;
    proof {
        value_bound(f@);
        assert(d * (two(0) - 1) == 0) by (nonlinear_arith)
            requires
                two(0) == 1,
        ;
    }
    while s < t
        invariant
            s <= t,
            are_digits(f@),
            f@.len() == len,
            d == ten(len),
            len == old(f)@.len(),
            all == value(old(f)@),
            all * two(s as nat) == d * (two(s as nat) - 1) + value(f@),
        decreases t - s,
    {
        let ghost v = value(f@);
        let carry: u8 = double(f);
        proof {
            value_bound(f@);
            let p = two(s as nat);
            assert(two((s + 1) as nat) == 2 * p);
            assert(all * (2 * p) == 2 * (all * p)) by (nonlinear_arith);
            assert(d * (2 * p - 1) == 2 * (d * (p - 1)) + d) by (nonlinear_arith);
            if carry == 0 {
                assert(0 * d == 0) by (nonlinear_arith);
                let u = two((s + 1) as nat);
                let w = two((t - s - 1) as nat);
                two_sum((s + 1) as nat, (t - s - 1) as nat);
                two_grows(0, (t - s - 1) as nat);
                assert(all * (u * w) < d * (u * w - 1)) by (nonlinear_arith)
                    requires
                        all * u < d * (u - 1),
                        w >= 1,
                        d >= 0,
                ;
            } else {
                assert(1 * d == d) by (nonlinear_arith);
            }
        }
        if carry == 0 {
            return false;
        }
        s += 1;
    }
    true
}

/// Whether a fraction is not zero.
fn some_part(f: &Vec<u8>) -> (r: bool)
    requires
        are_digits(f@),
    ensures
        r == (value(f@) > 0),
{
    let mut i: usize = 0;
    assert(f@.take(0) =~= Seq::<u8>::empty());
    while i < f.len()
        invariant
            i <= f@.len(),
            are_digits(f@),
            value(f@.take(i as int)) == 0,
        decreases f@.len() - i,
    {
        assert(f@.take(i + 1).drop_last() =~= f@.take(i as int));
        assert(digit_byte(f@[i as int]));
        if f[i] != 48 {
            proof {
                value_split(f@.take(i + 1), f@.skip(i + 1));
                assert(f@.take(i + 1) + f@.skip(i + 1) =~= f@);
                ten_grows(0, f@.skip(i + 1).len());
                let a = value(f@.take(i + 1));
                let b = ten(f@.skip(i + 1).len());
                assert(a * b > 0) by (nonlinear_arith)
                    requires
                        a > 0,
                        b > 0,
                ;
            }
            return true;
        }
        i += 1;
    }
    assert(f@.take(i as int) =~= f@);
    false
}

pub(crate) fn find_top(q: u64) -> (r: usize)
    requires
        q > 0,
    ensures
        r == top(q as nat),
        r < 64,
{
    let mut x: u64 = q;
    let mut r: usize = 0;
    proof {
        powers();
        top_bounds(q as nat);
        if top(q as nat) >= 64 {
            two_grows(64, top(q as nat) as nat);
        }
    }
    while x > 1
        invariant
            x > 0,
            top(q as nat) == r + top(x as nat),
            top(q as nat) < 64,
        decreases x,
    {
        proof {
            top_bounds((x / 2) as nat);
        }
        x = x / 2;
        r += 1;
    }
    assert(top(0) == -1);
    assert(top(1) == 0);
    r
}

pub(crate) fn power(n: usize) -> (r: u128)
    requires
        n <= 64,
    ensures
        r == two(n as nat),
{
    let mut r: u128 = 1;
    let mut i: usize = 0;
    while i < n
        invariant
            i <= n <= 64,
            r == two(i as nat),
        decreases n - i,
    {
        proof {
            powers();
            two_grows((i + 1) as nat, 64);
        }
        r = 2 * r;
        i += 1;
    }
    r
}

/// The integer part of the double nearest to a whole number and a fraction.
fn nearest(q: u64, f: &mut Vec<u8>) -> (r: u128)
    requires
        are_digits(old(f)@),
    ensures
        r == double_part(
            (q * ten(old(f)@.len()) + value(old(f)@)) as nat,
            ten(old(f)@.len()),
        ),
{
    let ghost d = ten(f@.len());
    let ghost v = value(f@);
    let ghost n = (q * d + v) as nat;
    proof {
        value_bound(f@);
        ten_grows(0, f@.len());
        lemma_fundamental_div_mod_converse(n as int, d as int, q as int, v as int);
        powers();
    }
    if q < 0x10_0000_0000_0000 {
        let t: usize = if q == 0 {
            54
        } else {
            let k: usize = find_top(q);
            proof {
                top_bounds(q as nat);
                if k >= 52 {
                    two_grows(52, k as nat);
                }
            }
            53 - k
        };
        proof {
            let p = two(t as nat);
            assert((d * ((q + 1) * p - 1) <= n * p) == (d * (p - 1) <= v * p)) by (nonlinear_arith)
                requires
                    n == q * d + v,
            ;
        }
        if all_ones(f, t) {
            q as u128 + 1
        } else {
            q as u128
        }
    } else {
        proof {
            top_at_least(q as nat, 52);
            top_bounds(q as nat);
        }
        let k: usize = find_top(q);
        let unit: u128 = power(k - 52);
        proof {
            two_grows(0, (k - 52) as nat);
            two_grows((k - 52) as nat, k as nat);
        }
        let a: u128 = q as u128 / unit;
        let r: u128 = q as u128 % unit;
        let carry: u8 = double(f);
        let over: u128 = 2 * r + carry as u128;
        let more: bool = some_part(f);
        proof {
            let u = unit as nat;
            let w = value(f@);
            value_bound(f@);
            let rest = r * d + v;
            assert(q == unit * a + r) by {
                vstd::arithmetic::div_mod::lemma_fundamental_div_mod(q as int, unit as int);
            }
            assert(n == a * (d * u) + rest) by (nonlinear_arith)
                requires
                    n == q * d + v,
                    q == u * a + r,
                    rest == r * d + v,
            ;
            assert(0 <= rest < d * u) by (nonlinear_arith)
                requires
                    rest == r * d + v,
                    v < d,
                    r + 1 <= u,
            ;
            lemma_fundamental_div_mod_converse(n as int, (d * u) as int, a as int, rest);
            assert(2 * rest == over * d + w) by (nonlinear_arith)
                requires
                    rest == r * d + v,
                    2 * v == carry * d + w,
                    over == 2 * r + carry,
            ;
            if over > u {
                assert(over * d + w > d * u) by (nonlinear_arith)
                    requires
                        over >= u + 1,
                        d > 0,
                        w >= 0,
                ;
            } else if over < u {
                assert(over * d + w < d * u) by (nonlinear_arith)
                    requires
                        over + 1 <= u,
                        w < d,
                ;
            } else {
                assert(over * d == d * u) by (nonlinear_arith)
                    requires
                        over == u,
                ;
            }
            assert(a * unit <= q && a <= q && (a + 1) * unit <= q + unit) by (nonlinear_arith)
                requires
                    q == unit * a + r,
                    unit >= 1,
                    a >= 0,
                    r >= 0,
            ;
        }
        if over > unit || (over == unit && (more || a % 2 == 1)) {
            (a + 1) * unit
        } else {
            a * unit
        }
    }
}

/// Where the integer part is too large, so is that of the nearest double.
proof fn large_part(n: nat, d: nat)
    requires
        d > 0,
        n / d >= ten(19),
    ensures
        double_part(n, d) > i64::MAX,
{
    powers();
    let q = n / d;
    top_bounds(q);
    top_at_least(q, 63);
    let k = top(q) as nat;
    let unit = two((k - 52) as nat);
    two_grows(0, (k - 52) as nat);
    two_sum((k - 52) as nat, 52);
    two_grows(63, k);
    let c = two(52);
    let r = (n % d) as int;
    vstd::arithmetic::div_mod::lemma_fundamental_div_mod(n as int, d as int);
    assert(d * unit > 0) by (nonlinear_arith)
        requires
            d > 0,
            unit > 0,
    ;
    assert(c * (d * unit) <= n) by (nonlinear_arith)
        requires
            n == d * q + r,
            r >= 0,
            unit * c <= q,
    ;
    lemma_div_is_ordered((c * (d * unit)) as int, n as int, (d * unit) as int);
    vstd::arithmetic::div_mod::lemma_div_multiples_vanish(c as int, (d * unit) as int);
    assert(c * (d * unit) == (d * unit) * c) by (nonlinear_arith);
    let h = half_even(n, d * unit);
    assert(h >= c);
    assert(h * unit >= c * unit) by (nonlinear_arith)
        requires
            h >= c,
    ;
    assert(c * unit == unit * c) by (nonlinear_arith);
}

/// A number below a tenth has no integer part.
proof fn tiny_part(n: nat, d: nat)
    requires
        10 * n < d,
    ensures
        double_part(n, d) == 0,
{
    powers();
    lemma_fundamental_div_mod_converse(n as int, d as int, 0, n as int);
    assert(top(0) == -1);
    let t = two(54);
    two_grows(1, 54);
    assert(two(1) == 2 * two(0));
    assert(d * (1 * t - 1) > n * t) by (nonlinear_arith)
        requires
            10 * n < d,
            t >= 2,
            n >= 0,
    ;
    assert((0 + 1) * t == 1 * t);
}

fn small_value(m: &Vec<u8>, to: usize) -> (r: u64)
    requires
        to <= 19,
        to <= m@.len(),
        are_digits(m@),
    ensures
        r == value(m@.take(to as int)),
{
    let mut v: u64 = 0;
    let mut i: usize = 0;
    assert(m@.take(0) =~= Seq::<u8>::empty());
    while i < to
        invariant
            i <= to <= 19,
            to <= m@.len(),
            are_digits(m@),
            v == value(m@.take(i as int)),
        decreases to - i,
    {
        proof {
            let p = m@.take(i + 1);
            assert(digit_byte(m@[i as int]));
            assert(p.drop_last() =~= m@.take(i as int));
            value_bound(p);
            ten_grows((i + 1) as nat, 19);
            powers();
        }
        v = v * 10 + (m[i] - 48) as u64;
        i += 1;
    }
    v
}

fn signed(negative: bool, v: u128) -> (r: i64)
    ensures
        r == saturated(negative, v as nat),
{
    if negative {
        if v > 0x7fff_ffff_ffff_ffff { i64::MIN } else { -(v as i64) }
    } else {
        if v > 0x7fff_ffff_ffff_ffff { i64::MAX } else { v as i64 }
    }
}

/// The integer part of digits with a point behind the first `whole` of them.
fn pointed(m: &Vec<u8>, whole: usize) -> (r: u128)
    requires
        are_digits(m@),
        m@.len() > 0 ==> m@[0] != 48,
        whole <= m@.len(),
    ensures
        ({
            let x = double_part(value(m@), ten((m@.len() - whole) as nat));
            r == x || r > i64::MAX && x > i64::MAX
        }),
{
    let ghost head = m@.take(whole as int);
    let ghost tail = m@.skip(whole as int);
    proof {
        assert(head + tail =~= m@);
        value_split(head, tail);
        assert forall|i: int| 0 <= i < tail.len() implies digit_byte(#[trigger] tail[i]) by {
            assert(digit_byte(m@[whole + i]));
        }
        value_bound(tail);
        ten_grows(0, tail.len());
    }
    if whole > 19 {
        proof {
            assert(head[0] == m@[0]);
            value_at_least(head);
            ten_grows(19, (whole - 1) as nat);
            lemma_fundamental_div_mod_converse(
                value(m@) as int,
                ten(tail.len()) as int,
                value(head) as int,
                value(tail) as int,
            );
            large_part(value(m@), ten(tail.len()));
        }
        return u128::MAX;
    }
    let q: u64 = small_value(m, whole);
    let mut f: Vec<u8> = Vec::new();
    let mut i: usize = whole;
    while i < m.len()
        invariant
            whole <= i <= m@.len(),
            f@ == m@.subrange(whole as int, i as int),
        decreases m@.len() - i,
    {
        f.push(m[i]);
        i += 1;
        assert(f@ =~= m@.subrange(whole as int, i as int));
    }
    assert(f@ =~= tail);
    nearest(q, &mut f)
}

fn magnitude_of(b: &Vec<u8>) -> (r: u128)
    requires
        spells_number(b@),
    ensures
        r == magnitude(b@) || r > i64::MAX && magnitude(b@) > i64::MAX,
{
    let (mut m, k): (Vec<u8>, Result<i128, bool>) = significant_digits(b);
    let ghost all = all_digits(b@);
    let n: usize = m.len();
    proof {
        number_parts(b@);
        let d = b@.subrange(sign_end(b@), whole_end(b@)) + part_digits(b@);
        let w = whole_end(b@) - sign_end(b@);
        assert forall|i: int| 0 <= i < d.len() implies digit_byte(#[trigger] d[i]) by {
            if i < w {
                assert(digit_byte(b@[sign_end(b@) + i]));
            } else {
                assert(digit_byte(b@[whole_end(b@) + 1 + (i - w)]));
            }
        }
        significant_first(d);
        value_bound(all);
    }
    if n == 0 {
        proof {
            let s = shift(b@);
            let d = if s >= 0 { 1nat } else { ten((-s) as nat) };
            ten_grows(0, if s >= 0 { 0 } else { (-s) as nat });
            assert(0 * ten(if s >= 0 { s as nat } else { 0 }) == 0) by (nonlinear_arith);
            tiny_part(0, d);
        }
        return 0;
    }
    proof {
        value_at_least(all);
    }
    match k {
        Err(negative) => {
            if negative {
                proof {
                    far_left(all, (-shift(b@)) as nat);
                }
                0
            } else {
                proof {
                    far_right(all, shift(b@) as nat);
                }
                u128::MAX
            }
        },
        Ok(k) => {
            if k >= 0 {
                if k >= 19 {
                    proof {
                        far_right(all, k as nat);
                    }
                    return u128::MAX;
                }
                let mut i: i128 = 0;
                assert(m@ =~= all + Seq::new(0, |i: int| 48u8));
                while i < k
                    invariant
                        0 <= i <= k,
                        m@ == all + Seq::new(i as nat, |i: int| 48u8),
                    decreases k - i,
                {
                    m.push(48);
                    i += 1;
                    assert(m@ =~= all + Seq::new(i as nat, |i: int| 48u8));
                }
                proof {
                    let z = Seq::new(k as nat, |i: int| 48u8);
                    value_split(all, z);
                    zeros_value(k as nat);
                    assert forall|i: int| 0 <= i < m@.len() implies digit_byte(#[trigger] m@[i]) by {
                        if i < all.len() {
                            assert(digit_byte(all[i]));
                        }
                    }
                    assert(m@[0] == all[0]);
                }
                let whole: usize = m.len();
                pointed(&m, whole)
            } else if k < -(n as i128) {
                proof {
                    far_left(all, (-k) as nat);
                }
                0
            } else {
                pointed(&m, (n as i128 + k) as usize)
            }
        },
    }
}

proof fn far_left(all: Seq<u8>, k: nat)
    requires
        are_digits(all),
        all.len() < k,
    ensures
        double_part(value(all), ten(k)) == 0,
{
    value_bound(all);
    ten_grows(all.len(), (k - 1) as nat);
    tiny_part(value(all), ten(k));
}

proof fn far_right(all: Seq<u8>, k: nat)
    requires
        value(all) > 0,
        k >= 19,
    ensures
        double_part(value(all) * ten(k), 1) > i64::MAX,
{
    ten_grows(19, k);
    let n = value(all) * ten(k);
    assert(n >= ten(k)) by (nonlinear_arith)
        requires
            n == value(all) * ten(k),
            value(all) >= 1,
    ;
    large_part(n, 1);
}

/// The integer part of the double nearest to a number that is spelled out. One
/// too large for an `i64` gives the largest, one too small the least.
pub fn integer_part_of(t: &str) -> (r: Option<i64>)
    ensures
        r == integer_part(t@),
{
    let b: Vec<u8> = text_bytes(t);
    if is_number(&b) {
        proof {
            number_parts(b@);
        }
        let v: u128 = magnitude_of(&b);
        Some(signed(b[0] == 45, v))
    } else {
        None
    }
}

} // verus!
