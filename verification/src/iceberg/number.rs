//! How a number is written: one that is whole and not too large as an integer,
//! any other of so few digits that a double keeps them apart plainly, without
//! an exponent or zeros at its end, and what is left as it was spelled.
use crate::iceberg::json::{
    ascii_chars, byte_at, digit_byte, digits, digits_end, is_number, sign_byte, spells_number,
};
use crate::iceberg::warehouse::text_bytes;
use crate::text::{dec, dec_int, dec_value, digits_value, is_digit};
use vstd::prelude::*;
use vstd::utf8::encode_utf8;

verus! {

/// Where the digits of a number begin.
pub open spec fn sign_end(b: Seq<u8>) -> int {
    if b.len() > 0 && sign_byte(b[0]) {
        1
    } else {
        0
    }
}

/// Where the digits before the point end.
pub open spec fn whole_end(b: Seq<u8>) -> int {
    digits_end(b, sign_end(b))
}

pub open spec fn has_point(b: Seq<u8>) -> bool {
    byte_at(b, whole_end(b), 46)
}

/// Where the digits behind the point end.
pub open spec fn part_end(b: Seq<u8>) -> int {
    if has_point(b) {
        digits_end(b, whole_end(b) + 1)
    } else {
        whole_end(b)
    }
}

/// The digits behind the point.
pub open spec fn part_digits(b: Seq<u8>) -> Seq<u8> {
    if has_point(b) {
        b.subrange(whole_end(b) + 1, part_end(b))
    } else {
        Seq::empty()
    }
}

/// Where the digits of the exponent begin.
pub open spec fn exponent_start(b: Seq<u8>) -> int {
    let p = part_end(b) + 1;
    if p < b.len() && sign_byte(b[p]) {
        p + 1
    } else {
        p
    }
}

/// The exponent of a number.
pub open spec fn exponent(b: Seq<u8>) -> int {
    if part_end(b) == b.len() {
        0
    } else {
        let v = digits_value(ascii_chars(b.subrange(exponent_start(b), b.len() as int))) as int;
        if b[part_end(b) + 1] == 45 {
            -v
        } else {
            v
        }
    }
}

/// Digits without the zeros in front.
pub open spec fn significant(d: Seq<u8>) -> Seq<u8>
    decreases d.len(),
{
    if d.len() == 0 {
        Seq::empty()
    } else {
        let a = significant(d.drop_last());
        if a.len() == 0 && d.last() == 48 {
            a
        } else {
            a.push(d.last())
        }
    }
}

/// Digits with the point moved by `k` places to the right, where nothing but
/// zeros then stands behind it.
pub open spec fn moved(d: Seq<u8>, k: int) -> Option<Seq<u8>> {
    if k >= 0 {
        Some(d + Seq::new(k as nat, |i: int| 48u8))
    } else if d.len() + k >= 0 && forall|i: int|
        d.len() + k <= i < d.len() ==> #[trigger] d[i] == 48 {
        Some(d.take(d.len() + k))
    } else {
        None
    }
}

/// The digits of a number, without zeros in front.
pub open spec fn all_digits(b: Seq<u8>) -> Seq<u8> {
    significant(b.subrange(sign_end(b), whole_end(b)) + part_digits(b))
}

/// How far to the right the point stands of the end of those digits.
pub open spec fn shift(b: Seq<u8>) -> int {
    exponent(b) - part_digits(b).len()
}

/// The digits of a number that is whole; none at all for zero.
pub open spec fn whole_digits(b: Seq<u8>) -> Option<Seq<u8>> {
    let d = all_digits(b);
    if d.len() == 0 {
        Some(d)
    } else {
        moved(d, shift(b))
    }
}

/// Whether digits stand for a number below 9000000000000000.
pub open spec fn smaller(d: Seq<u8>) -> bool {
    d.len() < 16 || d.len() == 16 && d[0] < 57
}

/// An integer of some digits, with its sign.
pub open spec fn integer_text(negative: bool, d: Seq<u8>) -> Seq<char> {
    if d.len() == 0 {
        seq!['0']
    } else if negative {
        seq!['-'] + ascii_chars(d)
    } else {
        ascii_chars(d)
    }
}

/// Digits without the zeros at their end.
pub open spec fn trimmed(d: Seq<u8>) -> Seq<u8>
    decreases d.len(),
{
    if d.len() > 0 && d.last() == 48 {
        trimmed(d.drop_last())
    } else {
        d
    }
}

pub open spec fn zeros(n: int) -> Seq<u8> {
    Seq::new(n as nat, |i: int| 48u8)
}

/// Digits with a point behind the first `p` of them, and with the zeros that
/// this takes.
pub open spec fn plain_digits(c: Seq<u8>, p: int) -> Seq<u8> {
    if p >= c.len() {
        c + zeros(p - c.len())
    } else if p > 0 {
        c.take(p) + seq![46u8] + c.skip(p)
    } else {
        seq![48u8, 46u8] + zeros(-p) + c
    }
}

/// Whether a double tells a number from all others of as many digits: they are
/// fifteen at most, and the number neither too large nor too small.
pub open spec fn kept_apart(b: Seq<u8>) -> bool {
    trimmed(all_digits(b)).len() <= 15 && -306 <= all_digits(b).len() + shift(b) <= 308
}

/// A number without an exponent.
pub open spec fn plain_text(b: Seq<u8>) -> Seq<char> {
    let s = ascii_chars(plain_digits(trimmed(all_digits(b)), all_digits(b).len() + shift(b)));
    if b[0] == 45 {
        seq!['-'] + s
    } else {
        s
    }
}

/// A number as it is written.
pub open spec fn number_text(t: Seq<char>) -> Seq<char> {
    let b = encode_utf8(t);
    if !spells_number(b) {
        t
    } else if whole_digits(b) matches Some(d) && smaller(d) {
        integer_text(b[0] == 45, whole_digits(b)->0)
    } else if kept_apart(b) {
        plain_text(b)
    } else {
        t
    }
}

/// Appends the digits at a range, but for zeros in front of all others.
fn push_digits(b: &Vec<u8>, from: usize, to: usize, m: &mut Vec<u8>, Ghost(d): Ghost<Seq<u8>>)
    requires
        from <= to <= b@.len(),
        old(m)@ == significant(d),
    ensures
        final(m)@ == significant(d + b@.subrange(from as int, to as int)),
{
    let mut i: usize = from;
    assert(d + b@.subrange(from as int, from as int) =~= d);
    while i < to
        invariant
            from <= i <= to <= b@.len(),
            m@ == significant(d + b@.subrange(from as int, i as int)),
        decreases to - i,
    {
        let ghost s = d + b@.subrange(from as int, i + 1);
        proof {
            assert(s.drop_last() =~= d + b@.subrange(from as int, i as int));
            assert(s.last() == b@[i as int]);
        }
        if !(m.len() == 0 && b[i] == 48) {
            m.push(b[i]);
        }
        i += 1;
    }
}

/// More digits stand for no smaller a number.
proof fn digits_value_grows(s: Seq<char>, k: int)
    requires
        0 <= k <= s.len(),
        forall|i: int| 0 <= i < s.len() ==> '0' <= #[trigger] s[i],
    ensures
        digits_value(s.take(k)) <= digits_value(s),
    decreases s.len(),
{
    if k == s.len() {
        assert(s.take(k) =~= s);
    } else {
        let d = s.drop_last();
        assert(d.take(k) =~= s.take(k));
        digits_value_grows(d, k);
    }
}

/// An exponent from here on is too large for anything to be made of it.
pub const LARGE: u128 = 0x100_0000_0000_0000_0000;

/// The number that the digits from a place on stand for, unless it is large.
fn read_exponent(b: &Vec<u8>, from: usize) -> (r: Option<u128>)
    requires
        from <= b@.len(),
        forall|i: int| from <= i < b@.len() ==> digit_byte(#[trigger] b@[i]),
    ensures
        ({
            let v = digits_value(ascii_chars(b@.subrange(from as int, b@.len() as int)));
            match r {
                Some(x) => x == v && x < LARGE,
                None => v >= LARGE,
            }
        }),
{
    let ghost s = ascii_chars(b@.subrange(from as int, b@.len() as int));
    let mut v: u128 = 0;
    let mut i: usize = from;
    proof {
        assert forall|k: int| 0 <= k < s.len() implies '0' <= #[trigger] s[k] by {
            assert(digit_byte(b@[from + k]));
        }
        assert(s.take(0) =~= Seq::<char>::empty());
    }
    while i < b.len()
        invariant
            from <= i <= b@.len(),
            s == ascii_chars(b@.subrange(from as int, b@.len() as int)),
            forall|k: int| from <= k < b@.len() ==> digit_byte(#[trigger] b@[k]),
            forall|k: int| 0 <= k < s.len() ==> '0' <= #[trigger] s[k],
            v < LARGE,
            v == digits_value(s.take(i - from)),
        decreases b@.len() - i,
    {
        proof {
            let n = s.take(i - from + 1);
            assert(n.drop_last() =~= s.take(i - from));
            assert(digit_byte(b@[i as int]));
            assert(n.last() == b@[i as int] as char);
        }
        v = v * 10 + (b[i] - 48) as u128;
        if v >= LARGE {
            proof {
                digits_value_grows(s, i - from + 1);
            }
            return None;
        }
        i += 1;
    }
    assert(s.take(i - from) =~= s);
    Some(v)
}

/// Moves the point of digits, unless that leaves other than zeros behind it or
/// makes more than sixteen digits.
fn move_point(m: &mut Vec<u8>, k: i128) -> (r: bool)
    ensures
        match moved(old(m)@, k as int) {
            Some(d) => if d.len() <= 16 {
                r && final(m)@ == d
            } else {
                r ==> final(m)@ == d
            },
            None => !r,
        },
{
    if k >= 0 {
        if k > 16 {
            return false;
        }
        let ghost d = m@;
        let mut i: i128 = 0;
        assert(m@ =~= d + Seq::new(0, |i: int| 48u8));
        while i < k
            invariant
                0 <= i <= k,
                m@ == d + Seq::new(i as nat, |i: int| 48u8),
            decreases k - i,
        {
            m.push(48);
            i += 1;
            assert(m@ =~= d + Seq::new(i as nat, |i: int| 48u8));
        }
        true
    } else {
        let n: usize = m.len();
        if k < -(n as i128) {
            return false;
        }
        let keep: usize = (n as i128 + k) as usize;
        let mut i: usize = keep;
        while i < n
            invariant
                keep <= i <= n,
                k < 0,
                keep == n + k,
                n == m@.len(),
                m@ == old(m)@,
                forall|j: int| keep <= j < i ==> m@[j] == 48,
            decreases n - i,
        {
            if m[i] != 48 {
                assert(old(m)@.len() + k <= i < old(m)@.len() && old(m)@[i as int] != 48);
                assert(moved(old(m)@, k as int) is None);
                return false;
            }
            i += 1;
        }
        m.truncate(keep);
        assert(m@ =~= old(m)@.take(keep as int));
        true
    }
}

/// The digits of a number, without the zeros in front, and how far its point
/// is to be moved to stand behind them; of a large exponent only whether it is
/// negative.
pub(crate) fn significant_digits(b: &Vec<u8>) -> (r: (Vec<u8>, Result<i128, bool>))
    requires
        spells_number(b@),
    ensures
        r.0@ == all_digits(b@),
        match r.1 {
            Ok(k) => k == shift(b@) && -2 * LARGE < k < LARGE,
            Err(true) => shift(b@) < -2 * u64::MAX,
            Err(false) => shift(b@) > u64::MAX,
        },
{
    let n: usize = b.len();
    proof {
        number_parts(b@);
    }
    let p0: usize = if b[0] == 43 || b[0] == 45 {
        1
    } else {
        0
    };
    let p1: usize = digits(b, p0);
    let point: bool = p1 < n && b[p1] == 46;
    let p2: usize = if point {
        digits(b, p1 + 1)
    } else {
        p1
    };
    let mut m: Vec<u8> = Vec::new();
    let ghost e = Seq::<u8>::empty();
    let ghost head = b@.subrange(p0 as int, p1 as int);
    push_digits(b, p0, p1, &mut m, Ghost(e));
    assert(e + head =~= head);
    let part: usize = if point {
        push_digits(b, p1 + 1, p2, &mut m, Ghost(head));
        p2 - p1 - 1
    } else {
        assert(head + e =~= head);
        0
    };
    assert(part == part_digits(b@).len());
    if p2 == n {
        return (m, Ok(-(part as i128)));
    }
    let p3: usize = if b[p2 + 1] == 43 || b[p2 + 1] == 45 {
        p2 + 2
    } else {
        p2 + 1
    };
    let k: Result<i128, bool> = match read_exponent(b, p3) {
        Some(v) => if b[p2 + 1] == 45 {
            Ok(-(v as i128) - part as i128)
        } else {
            Ok(v as i128 - part as i128)
        },
        None => Err(b[p2 + 1] == 45),
    };
    (m, k)
}

/// The digits of a number that is whole and not too large.
fn small_digits(b: &Vec<u8>) -> (r: Option<Vec<u8>>)
    requires
        spells_number(b@),
    ensures
        match r {
            Some(m) => whole_digits(b@) == Some(m@) && smaller(m@),
            None => whole_digits(b@) matches Some(d) ==> !smaller(d),
        },
{
    let (mut m, k): (Vec<u8>, Result<i128, bool>) = significant_digits(b);
    if m.len() == 0 {
        return Some(m);
    }
    let n: usize = m.len();
    match k {
        Err(_) => None,
        Ok(k) => if move_point(&mut m, k) && (m.len() < 16 || (m.len() == 16 && m[0] < 57)) {
            Some(m)
        } else {
            None
        },
    }
}

fn put_integer(negative: bool, m: &Vec<u8>) -> (out: String)
    ensures
        out@ == integer_text(negative, m@),
{
    let mut out: String = String::new();
    if m.len() == 0 {
        out.push('0');
        assert(out@ =~= integer_text(negative, m@));
        return out;
    }
    if negative {
        out.push('-');
    }
    let ghost sign = out@;
    let mut i: usize = 0;
    assert(out@ =~= sign + ascii_chars(m@.take(0)));
    while i < m.len()
        invariant
            i <= m@.len(),
            out@ == sign + ascii_chars(m@.take(i as int)),
        decreases m@.len() - i,
    {
        out.push(m[i] as char);
        i += 1;
        assert(out@ =~= sign + ascii_chars(m@.take(i as int)));
    }
    assert(m@.take(i as int) =~= m@);
    assert(out@ =~= integer_text(negative, m@));
    out
}

/// Writes a number.
pub fn write_number(t: &str) -> (r: String)
    ensures
        r@ == number_text(t@),
{
    let b: Vec<u8> = text_bytes(t);
    if !is_number(&b) {
        return t.to_owned();
    }
    proof {
        number_parts(b@);
    }
    if let Some(m) = small_digits(&b) {
        return put_integer(b[0] == 45, &m);
    }
    let (mut c, k): (Vec<u8>, Result<i128, bool>) = significant_digits(&b);
    match k {
        Ok(k) => {
            let p: i128 = c.len() as i128 + k;
            trim_zeros(&mut c);
            if c.len() <= 15 && -306 <= p && p <= 308 {
                put_plain(b[0] == 45, &c, p as i64)
            } else {
                t.to_owned()
            }
        },
        Err(_) => t.to_owned(),
    }
}

fn trim_zeros(d: &mut Vec<u8>)
    ensures
        final(d)@ == trimmed(old(d)@),
{
    let mut n: usize = d.len();
    assert(d@.take(n as int) =~= d@);
    while n > 0 && d[n - 1] == 48
        invariant
            n <= d@.len(),
            d@ == old(d)@,
            trimmed(d@.take(n as int)) == trimmed(d@),
        decreases n,
    {
        assert(d@.take(n as int).drop_last() =~= d@.take(n - 1));
        n -= 1;
    }
    d.truncate(n);
}

fn push_ascii(out: &mut String, d: &Vec<u8>, from: usize, to: usize)
    requires
        from <= to <= d@.len(),
    ensures
        final(out)@ == old(out)@ + ascii_chars(d@.subrange(from as int, to as int)),
{
    let mut i: usize = from;
    assert(out@ =~= old(out)@ + ascii_chars(d@.subrange(from as int, from as int)));
    while i < to
        invariant
            from <= i <= to <= d@.len(),
            out@ == old(out)@ + ascii_chars(d@.subrange(from as int, i as int)),
        decreases to - i,
    {
        out.push(d[i] as char);
        i += 1;
        assert(out@ =~= old(out)@ + ascii_chars(d@.subrange(from as int, i as int)));
    }
}

fn push_zeros(out: &mut String, n: i64)
    requires
        n >= 0,
    ensures
        final(out)@ == old(out)@ + ascii_chars(zeros(n as int)),
{
    let mut i: i64 = 0;
    assert(out@ =~= old(out)@ + ascii_chars(zeros(0)));
    while i < n
        invariant
            0 <= i <= n,
            out@ == old(out)@ + ascii_chars(zeros(i as int)),
        decreases n - i,
    {
        out.push('0');
        i += 1;
        assert(out@ =~= old(out)@ + ascii_chars(zeros(i as int)));
    }
}

fn put_plain(negative: bool, c: &Vec<u8>, p: i64) -> (out: String)
    requires
        c@.len() <= 15,
        -306 <= p <= 308,
    ensures
        ({
            let s = ascii_chars(plain_digits(c@, p as int));
            out@ == (if negative {
                seq!['-'] + s
            } else {
                s
            })
        }),
{
    let mut out: String = String::new();
    if negative {
        out.push('-');
    }
    let ghost sign = out@;
    let n: usize = c.len();
    assert(c@.subrange(0, n as int) =~= c@);
    if p >= n as i64 {
        push_ascii(&mut out, c, 0, n);
        push_zeros(&mut out, p - n as i64);
    } else if p > 0 {
        push_ascii(&mut out, c, 0, p as usize);
        out.push('.');
        push_ascii(&mut out, c, p as usize, n);
        assert(c@.subrange(0, p as int) =~= c@.take(p as int));
        assert(c@.subrange(p as int, n as int) =~= c@.skip(p as int));
    } else {
        out.push('0');
        out.push('.');
        push_zeros(&mut out, -p);
        push_ascii(&mut out, c, 0, n);
    }
    assert(out@ =~= sign + ascii_chars(plain_digits(c@, p as int)));
    assert(sign + ascii_chars(plain_digits(c@, p as int)) =~= (if negative {
        seq!['-'] + ascii_chars(plain_digits(c@, p as int))
    } else {
        ascii_chars(plain_digits(c@, p as int))
    }));
    out
}

/// Digits are what is left without the zeros at their end, and those zeros.
proof fn trimmed_and_zeros(d: Seq<u8>)
    ensures
        trimmed(d).len() <= d.len(),
        d == trimmed(d) + zeros(d.len() - trimmed(d).len()),
    decreases d.len(),
{
    if d.len() > 0 && d.last() == 48 {
        trimmed_and_zeros(d.drop_last());
        let c = trimmed(d);
        assert(d =~= d.drop_last().push(48));
        assert(zeros(d.len() - c.len()) =~= zeros(d.len() - 1 - c.len()).push(48));
        assert(d =~= c + zeros(d.len() - c.len()));
    } else {
        assert(d =~= d + zeros(0));
    }
}

proof fn digits_end_bound(b: Seq<u8>, p: int)
    requires
        0 <= p <= b.len(),
    ensures
        p <= digits_end(b, p) <= b.len(),
        forall|i: int| p <= i < digits_end(b, p) ==> digit_byte(#[trigger] b[i]),
    decreases b.len() - p,
{
    if p < b.len() && digit_byte(b[p]) {
        digits_end_bound(b, p + 1);
    }
}

/// The parts of a number lie one behind another.
pub proof fn number_parts(b: Seq<u8>)
    requires
        spells_number(b),
    ensures
        b.len() > 0,
        0 <= sign_end(b) <= whole_end(b) <= part_end(b) <= b.len(),
        has_point(b) ==> whole_end(b) < part_end(b),
        part_end(b) < b.len() ==> part_end(b) + 1 < b.len() && exponent_start(b) < b.len()
            && forall|i: int|
            exponent_start(b) <= i < b.len() ==> digit_byte(#[trigger] b[i]),
        forall|i: int| sign_end(b) <= i < whole_end(b) ==> digit_byte(#[trigger] b[i]),
        has_point(b) ==> forall|i: int|
            whole_end(b) < i < part_end(b) ==> digit_byte(#[trigger] b[i]),
{
    digits_end_bound(b, sign_end(b));
    if has_point(b) {
        digits_end_bound(b, whole_end(b) + 1);
    }
    if part_end(b) < b.len() {
        digits_end_bound(b, exponent_start(b));
    }
}

proof fn first_is_no_zero(n: nat)
    requires
        n > 0,
    ensures
        dec(n).len() > 0,
        dec(n)[0] != '0',
    decreases n,
{
    if n >= 10 {
        first_is_no_zero(n / 10);
    }
}

proof fn significant_all(d: Seq<u8>)
    requires
        d.len() > 0,
        d[0] != 48,
    ensures
        significant(d) == d,
    decreases d.len(),
{
    if d.len() == 1 {
        assert(d.drop_last() =~= Seq::<u8>::empty());
        assert(significant(Seq::<u8>::empty()) =~= Seq::<u8>::empty());
        assert(Seq::<u8>::empty().push(d.last()) =~= d);
        assert(significant(d) == significant(d.drop_last()).push(d.last()));
    } else {
        significant_all(d.drop_last());
        assert(d.drop_last().push(d.last()) =~= d);
    }
}

proof fn digits_to_end(b: Seq<u8>, p: int)
    requires
        0 <= p <= b.len(),
        forall|i: int| p <= i < b.len() ==> digit_byte(#[trigger] b[i]),
    ensures
        digits_end(b, p) == b.len(),
    decreases b.len() - p,
{
    if p < b.len() {
        digits_to_end(b, p + 1);
    }
}

/// An integer in decimal is a number that is written as it stands.
pub proof fn integers_stay(n: int)
    ensures
        vstd::utf8::is_ascii_chars(dec_int(n)),
        spells_number(encode_utf8(dec_int(n))),
        number_text(dec_int(n)) == dec_int(n),
{
    let t = dec_int(n);
    let a: nat = if n < 0 {
        (-n) as nat
    } else {
        n as nat
    };
    let d = dec(a);
    dec_value(a);
    let p0 = if n < 0 {
        1int
    } else {
        0int
    };
    assert forall|i: int| p0 <= i < t.len() implies is_digit(#[trigger] t[i]) by {
        assert(t[i] == d[i - p0]);
    }
    assert(vstd::utf8::is_ascii_chars(t)) by {
        assert forall|i: int|
            0 <= i < t.len() implies 0 <= #[trigger] t[i] as nat && (t[i] as nat) < 128 by {
            if i >= p0 {
                assert(is_digit(t[i]));
            } else {
                assert(t[i] == '-');
            }
        }
    }
    vstd::utf8::is_ascii_chars_encode_utf8(t);
    let b = encode_utf8(t);
    assert forall|i: int| 0 <= i < b.len() implies b[i] as char == #[trigger] t[i] by {
        assert(b[i] == t[i] as u8);
    }
    assert forall|i: int| p0 <= i < b.len() implies digit_byte(#[trigger] b[i]) by {
        assert(is_digit(t[i]));
        assert(b[i] == t[i] as u8);
    }
    if n < 0 {
        assert(b[0] as char == t[0]);
    } else {
        assert(digit_byte(b[0]));
    }
    assert(sign_end(b) == p0);
    digits_to_end(b, p0);
    assert(spells_number(b));
    let m = b.subrange(p0, b.len() as int);
    assert(m + Seq::<u8>::empty() =~= m);
    assert(ascii_chars(m) =~= d) by {
        assert forall|i: int| 0 <= i < d.len() implies m[i] as char == d[i] by {
            assert(t[p0 + i] == d[i]);
        }
    }
    if a == 0 {
        assert(m =~= seq![48u8]) by {
            assert(m[0] as char == d[0]);
        }
        assert(m.drop_last() =~= Seq::<u8>::empty());
        assert(significant(Seq::<u8>::empty()) =~= Seq::<u8>::empty());
        assert(significant(m).len() == 0);
        assert(whole_digits(b) == Some(significant(m)));
        assert(t =~= seq!['0']);
    } else {
        first_is_no_zero(a);
        assert(m[0] as char == d[0]);
        significant_all(m);
        assert(m + Seq::new(0, |i: int| 48u8) =~= m);
        assert(whole_digits(b) == Some(m));
        assert(t =~= integer_text(b[0] == 45, m));
        trimmed_and_zeros(m);
        assert(plain_digits(trimmed(m), m.len() as int) == m);
    }
}

} // verus!
