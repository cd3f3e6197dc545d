//! Character classes and case, as the standard library defines them.
use crate::text::{from_chars, strs, strs_push, to_chars};
use vstd::prelude::*;
use vstd::utf8::{decode_utf8, valid_utf8};

verus! {

/// Whether a character has the Unicode property White_Space.
pub open spec fn char_space(c: char) -> bool {
    ||| '\u{9}' <= c && c <= '\u{d}'
    ||| c == ' '
    ||| c == '\u{85}'
    ||| c == '\u{a0}'
    ||| c == '\u{1680}'
    ||| '\u{2000}' <= c && c <= '\u{200a}'
    ||| c == '\u{2028}'
    ||| c == '\u{2029}'
    ||| c == '\u{202f}'
    ||| c == '\u{205f}'
    ||| c == '\u{3000}'
}

/// Whether a character has the Unicode property Alphabetic.
pub uninterp spec fn char_alphabetic(c: char) -> bool;

/// Whether a character is in one of the Unicode categories of numbers.
pub uninterp spec fn char_numeric(c: char) -> bool;

/// The uppercase form of a text.
pub uninterp spec fn upper(s: Seq<char>) -> Seq<char>;

/// A string as `{:?}` shows it: quoted, with escapes.
pub uninterp spec fn debug_text(s: Seq<char>) -> Seq<char>;

/// A character as `{:?}` shows it: quoted, with escapes.
pub uninterp spec fn debug_char(c: char) -> Seq<char>;

/// `char::is_whitespace`: whether a character has the property White_Space of
/// the Unicode Character Database, which twenty-five characters have.
pub assume_specification[ char::is_whitespace ](c: char) -> (r: bool)
    ensures
        r == char_space(c),
;

/// `char::is_alphabetic`: the property Alphabetic, which the ASCII letters
/// have and no other ASCII character.
pub assume_specification[ char::is_alphabetic ](c: char) -> (r: bool)
    ensures
        r == char_alphabetic(c),
        c <= '\u{7f}' ==> r == (('a' <= c && c <= 'z') || ('A' <= c && c <= 'Z')),
;

/// `char::is_alphanumeric`: alphabetic or numeric. Of the ASCII characters
/// these are the letters and the digits.
pub assume_specification[ char::is_alphanumeric ](c: char) -> (r: bool)
    ensures
        r == (char_alphabetic(c) || char_numeric(c)),
        c <= '\u{7f}' ==> r == (('a' <= c && c <= 'z') || ('A' <= c && c <= 'Z') || ('0' <= c && c
            <= '9')),
;

/// The characters that bytes decode to, with U+FFFD for what is not UTF-8.
pub uninterp spec fn lossy_text(b: Seq<u8>) -> Seq<char>;

/// `String::from_utf8_lossy`. Valid UTF-8 decodes to its characters.
#[verifier::external_body]
pub(crate) fn from_utf8_lossy(b: &[u8]) -> (r: String)
    ensures
        r@ == lossy_text(b@),
        valid_utf8(b@) ==> r@ == decode_utf8(b@),
{
    String::from_utf8_lossy(b).to_string()
}

pub open spec fn is_ascii_text(s: Seq<char>) -> bool {
    forall|i: int| 0 <= i < s.len() ==> (#[trigger] s[i]) <= '\u{7f}'
}

pub open spec fn ascii_upper(c: char) -> char {
    if 'a' <= c && c <= 'z' { (c as u8 - 32) as u8 as char } else { c }
}

pub open spec fn ascii_lower(c: char) -> char {
    if 'A' <= c && c <= 'Z' { (c as u8 + 32) as u8 as char } else { c }
}

pub open spec fn ascii_upper_text(s: Seq<char>) -> Seq<char> {
    Seq::new(s.len(), |i: int| ascii_upper(s[i]))
}

/// `str::to_uppercase`. On ASCII text it changes the lowercase letters one by
/// one.
#[verifier::external_body]
pub(crate) fn to_upper(s: &str) -> (r: String)
    ensures
        r@ == upper(s@),
        is_ascii_text(s@) ==> r@ == ascii_upper_text(s@),
{
    s.to_uppercase()
}

/// `{:?}` of a string.
#[verifier::external_body]
pub(crate) fn debug_str(s: &str) -> (r: String)
    ensures
        r@ == debug_text(s@),
{
    format!("{:?}", s)
}

/// `{:?}` of a character.
#[verifier::external_body]
pub(crate) fn debug_chr(c: char) -> (r: String)
    ensures
        r@ == debug_char(c),
{
    format!("{:?}", c)
}

/// Whether two texts are equal but for the case of ASCII letters.
pub open spec fn same_word(a: Seq<char>, b: Seq<char>) -> bool {
    &&& a.len() == b.len()
    &&& forall|i: int| 0 <= i < a.len() ==> ascii_lower(#[trigger] a[i]) == ascii_lower(b[i])
}

pub(crate) fn lower(c: char) -> (r: char)
    ensures
        r == ascii_lower(c),
{
    if c >= 'A' && c <= 'Z' {
        (c as u8 + 32) as char
    } else {
        c
    }
}

/// Equality that ignores the case of ASCII letters.
pub fn eq_word(a: &str, b: &str) -> (r: bool)
    ensures
        r == same_word(a@, b@),
{
    let x: Vec<char> = to_chars(a);
    let y: Vec<char> = to_chars(b);
    if x.len() != y.len() {
        return false;
    }
    let mut k: usize = 0;
    while k < x.len()
        invariant
            k <= x@.len(),
            x@ == a@,
            y@ == b@,
            x@.len() == y@.len(),
            forall|i: int| 0 <= i < k ==> ascii_lower(#[trigger] a@[i]) == ascii_lower(b@[i]),
        decreases x@.len() - k,
    {
        if lower(x[k]) != lower(y[k]) {
            return false;
        }
        k += 1;
    }
    true
}

/// A text without White_Space at its start.
pub open spec fn trim_start(s: Seq<char>) -> Seq<char>
    decreases s.len(),
{
    if s.len() > 0 && char_space(s[0]) { trim_start(s.skip(1)) } else { s }
}

/// A text without White_Space at its end.
pub open spec fn trim_end(s: Seq<char>) -> Seq<char>
    decreases s.len(),
{
    if s.len() > 0 && char_space(s.last()) { trim_end(s.drop_last()) } else { s }
}

pub open spec fn trim(s: Seq<char>) -> Seq<char> {
    trim_end(trim_start(s))
}

/// A text without any `c` at its end.
pub open spec fn trim_end_char(s: Seq<char>, c: char) -> Seq<char>
    decreases s.len(),
{
    if s.len() > 0 && s.last() == c { trim_end_char(s.drop_last(), c) } else { s }
}

/// The characters of a statement: without White_Space around it and without
/// semicolons at its end.
pub open spec fn statement(s: Seq<char>) -> Seq<char> {
    trim_end_char(trim(s), ';')
}

pub fn statement_chars(s: &str) -> (r: Vec<char>)
    ensures
        r@ == statement(s@),
{
    let v: Vec<char> = to_chars(s);
    let mut a: usize = 0;
    assert(v@.skip(0) =~= v@);
    while a < v.len() && v[a].is_whitespace()
        invariant
            a <= v@.len(),
            trim_start(v@.skip(a as int)) == trim_start(v@),
        decreases v@.len() - a,
    {
        assert(v@.skip(a as int).skip(1) =~= v@.skip(a + 1));
        a += 1;
    }
    let ghost t = v@.skip(a as int);
    let mut b: usize = v.len();
    assert(v@.subrange(a as int, b as int) =~= t);
    while b > a && v[b - 1].is_whitespace()
        invariant
            a <= b <= v@.len(),
            trim_end(v@.subrange(a as int, b as int)) == trim_end(t),
        decreases b,
    {
        assert(v@.subrange(a as int, b as int).drop_last() =~= v@.subrange(a as int, b - 1));
        b -= 1;
    }
    let ghost u = v@.subrange(a as int, b as int);
    while b > a && v[b - 1] == ';'
        invariant
            a <= b <= v@.len(),
            trim_end_char(v@.subrange(a as int, b as int), ';') == trim_end_char(u, ';'),
        decreases b,
    {
        assert(v@.subrange(a as int, b as int).drop_last() =~= v@.subrange(a as int, b - 1));
        b -= 1;
    }
    let mut out: Vec<char> = Vec::new();
    let mut k: usize = a;
    while k < b
        invariant
            a <= k <= b <= v@.len(),
            out@ == v@.subrange(a as int, k as int),
        decreases b - k,
    {
        out.push(v[k]);
        k += 1;
        assert(out@ =~= v@.subrange(a as int, k as int));
    }
    out
}

/// How many leading characters satisfy `f`.
pub open spec fn span(s: Seq<char>, f: spec_fn(char) -> bool) -> nat
    decreases s.len(),
{
    if s.len() > 0 && f(s[0]) { 1 + span(s.skip(1), f) } else { 0 }
}

/// A stretch of characters that satisfy `f` and ends where one does not is
/// the leading one.
pub proof fn span_is(s: Seq<char>, f: spec_fn(char) -> bool, n: int)
    requires
        0 <= n <= s.len(),
        forall|i: int| 0 <= i < n ==> f(#[trigger] s[i]),
        n < s.len() ==> !f(s[n]),
    ensures
        span(s, f) == n,
    decreases s.len(),
{
    if n > 0 {
        assert(f(s[0]));
        assert forall|i: int| 0 <= i < n - 1 implies f(#[trigger] s.skip(1)[i]) by {
            assert(s.skip(1)[i] == s[i + 1]);
        }
        span_is(s.skip(1), f, n - 1);
    }
}

pub proof fn span_bound(s: Seq<char>, f: spec_fn(char) -> bool)
    ensures
        span(s, f) <= s.len(),
    decreases s.len(),
{
    if s.len() > 0 && f(s[0]) {
        span_bound(s.skip(1), f);
    }
}

/// The words of a text that White_Space parts.
pub open spec fn spaced(s: Seq<char>) -> Seq<Seq<char>>
    decreases s.len(),
{
    if s.len() == 0 {
        Seq::empty()
    } else if char_space(s[0]) {
        spaced(s.skip(1))
    } else {
        let n = span(s, |c: char| !char_space(c)) as int;
        proof {
            span_bound(s, |c: char| !char_space(c));
        }
        seq![s.take(n)] + spaced(s.skip(n))
    }
}

/// Splits a text at White_Space.
pub fn split_spaces(text: &str) -> (out: Vec<String>)
    ensures
        strs(out@) == spaced(text@),
{
    let v: Vec<char> = to_chars(text);
    let n: usize = v.len();
    let mut out: Vec<String> = Vec::new();
    let mut k: usize = 0;
    assert(v@.skip(0) =~= v@);
    assert(strs(out@) + spaced(v@) =~= spaced(v@));
    while k < n
        invariant
            n == v@.len(),
            k <= n,
            strs(out@) + spaced(v@.skip(k as int)) == spaced(v@),
        decreases n - k,
    {
        let ghost rest = v@.skip(k as int);
        if v[k].is_whitespace() {
            assert(rest.skip(1) =~= v@.skip(k + 1));
            k += 1;
        } else {
            let from: usize = k;
            while k < n && !v[k].is_whitespace()
                invariant
                    n == v@.len(),
                    from <= k <= n,
                    forall|i: int| from <= i < k ==> !char_space(#[trigger] v@[i]),
                decreases n - k,
            {
                k += 1;
            }
            let w: String = from_chars(v.as_slice(), from, k);
            proof {
                let m = (k - from) as int;
                assert forall|i: int| 0 <= i < m implies (|c: char| !char_space(c))(
                    #[trigger] rest[i],
                ) by {
                    assert(rest[i] == v@[from + i]);
                }
                span_is(rest, |c: char| !char_space(c), m);
                if m == 0 {
                    assert(rest[0] == v@[from as int]);
                }
                assert(rest.take(m) =~= w@);
                assert(rest.skip(m) =~= v@.skip(k as int));
                assert(strs(out@).push(w@) + spaced(v@.skip(k as int)) =~= strs(out@) + (seq![w@]
                    + spaced(v@.skip(k as int))));
                strs_push(out@, w);
            }
            out.push(w);
        }
    }
    assert(spaced(v@.skip(k as int)) =~= Seq::<Seq<char>>::empty());
    assert(strs(out@) =~= spaced(v@));
    out
}

/// Where a text starts once White_Space at its start is left out.
pub fn skip_spaces(v: &Vec<char>, from: usize) -> (a: usize)
    requires
        from <= v@.len(),
    ensures
        from <= a <= v@.len(),
        v@.skip(a as int) == trim_start(v@.skip(from as int)),
{
    let mut a: usize = from;
    let ghost s = v@.skip(from as int);
    while a < v.len() && v[a].is_whitespace()
        invariant
            from <= a <= v@.len(),
            trim_start(v@.skip(a as int)) == trim_start(s),
        decreases v@.len() - a,
    {
        assert(v@.skip(a as int).skip(1) =~= v@.skip(a + 1));
        a += 1;
    }
    a
}

/// Trims White_Space at both ends.
pub fn trimmed(v: &Vec<char>, from: usize) -> (r: String)
    requires
        from <= v@.len(),
    ensures
        r@ == trim(v@.skip(from as int)),
{
    let a: usize = skip_spaces(v, from);
    let mut b: usize = v.len();
    let ghost t = v@.skip(a as int);
    assert(v@.subrange(a as int, b as int) =~= t);
    while b > a && v[b - 1].is_whitespace()
        invariant
            a <= b <= v@.len(),
            trim_end(v@.subrange(a as int, b as int)) == trim_end(t),
        decreases b,
    {
        assert(v@.subrange(a as int, b as int).drop_last() =~= v@.subrange(a as int, b - 1));
        b -= 1;
    }
    from_chars(v.as_slice(), a, b)
}

} // verus!
