//! A small JSON reader and writer. Numbers are kept as they are spelled.
use crate::text::{dec, join2, str_eq, u64_text};
use crate::wire::{copy_range, string_from_utf8};
use crate::iceberg::integer::{integer_part, integer_part_of};
use crate::iceberg::number::{number_text, write_number};
use vstd::prelude::*;
use vstd::utf8::{decode_utf8, encode_utf8, valid_utf8};

verus! {

#[derive(Debug)]
pub enum Json {
    Null,
    Bool(bool),
    /// A number's spelling.
    Num(String),
    Str(String),
    Arr(Vec<Json>),
    Obj(Vec<(String, Json)>),
}

#[verifier::ext_equal]
pub enum JsonView {
    Null,
    Bool(bool),
    Num(Seq<char>),
    Str(Seq<char>),
    Arr(Seq<JsonView>),
    Obj(Seq<(Seq<char>, JsonView)>),
}

impl Json {
    pub open spec fn model(self) -> JsonView
        decreases self,
    {
        match self {
            Json::Null => JsonView::Null,
            Json::Bool(b) => JsonView::Bool(b),
            Json::Num(s) => JsonView::Num(s@),
            Json::Str(s) => JsonView::Str(s@),
            Json::Arr(a) => JsonView::Arr(
                Seq::new(
                    a@.len(),
                    |i: int|
                        if 0 <= i < a@.len() {
                            a@[i].model()
                        } else {
                            arbitrary()
                        },
                ),
            ),
            Json::Obj(o) => JsonView::Obj(
                Seq::new(
                    o@.len(),
                    |i: int|
                        if 0 <= i < o@.len() {
                            (o@[i].0@, o@[i].1.model())
                        } else {
                            arbitrary()
                        },
                ),
            ),
        }
    }
}

pub open spec fn items_model(a: Seq<Json>) -> Seq<JsonView> {
    Seq::new(a.len(), |i: int| a[i].model())
}

pub open spec fn members_model(o: Seq<(String, Json)>) -> Seq<(Seq<char>, JsonView)> {
    Seq::new(o.len(), |i: int| (o[i].0@, o[i].1.model()))
}

pub proof fn arr_model(a: Vec<Json>)
    ensures
        Json::Arr(a).model() == JsonView::Arr(items_model(a@)),
{
    assert(Json::Arr(a).model()->Arr_0 =~= items_model(a@));
}

pub proof fn obj_model(o: Vec<(String, Json)>)
    ensures
        Json::Obj(o).model() == JsonView::Obj(members_model(o@)),
{
    assert(Json::Obj(o).model()->Obj_0 =~= members_model(o@));
}

// ---------------------------------------------------------------------------
// The grammar, over bytes
// ---------------------------------------------------------------------------

pub open spec fn is_space(c: u8) -> bool {
    c == 32 || c == 9 || c == 10 || c == 13
}

/// The place behind white space.
pub open spec fn ws(b: Seq<u8>, p: int) -> int
    decreases b.len() - p,
{
    if 0 <= p < b.len() && is_space(b[p]) {
        ws(b, p + 1)
    } else {
        p
    }
}

/// Skipping white space stays within the text.
pub proof fn ws_bound(b: Seq<u8>, p: int)
    ensures
        p <= ws(b, p),
        p <= b.len() ==> ws(b, p) <= b.len(),
    decreases b.len() - p,
{
    if 0 <= p < b.len() && is_space(b[p]) {
        ws_bound(b, p + 1);
    }
}

pub open spec fn byte_at(b: Seq<u8>, p: int, c: u8) -> bool {
    0 <= p < b.len() && b[p] == c
}

/// Whether some bytes stand at a place.
pub open spec fn starts(b: Seq<u8>, p: int, w: Seq<u8>) -> bool {
    p + w.len() <= b.len() && b.subrange(p, p + w.len()) == w
}

pub open spec fn digit_byte(c: u8) -> bool {
    48 <= c <= 57
}

pub open spec fn sign_byte(c: u8) -> bool {
    c == 43 || c == 45
}

/// What a number is spelled with.
pub open spec fn number_byte(c: u8) -> bool {
    digit_byte(c) || sign_byte(c) || c == 46 || c == 101 || c == 69
}

/// The end of the number bytes at a place.
pub open spec fn number_end(b: Seq<u8>, p: int) -> int
    decreases b.len() - p,
{
    if 0 <= p < b.len() && number_byte(b[p]) {
        number_end(b, p + 1)
    } else {
        p
    }
}

/// The end of the digits at a place.
pub open spec fn digits_end(b: Seq<u8>, p: int) -> int
    decreases b.len() - p,
{
    if 0 <= p < b.len() && digit_byte(b[p]) {
        digits_end(b, p + 1)
    } else {
        p
    }
}

/// Whether all of some bytes spell a decimal number: a sign, digits with at
/// most one point among them, and an exponent, of which the digits are needed.
pub open spec fn spells_number(b: Seq<u8>) -> bool {
    let p0 = if b.len() > 0 && sign_byte(b[0]) {
        1int
    } else {
        0int
    };
    let p1 = digits_end(b, p0);
    let p2 = if byte_at(b, p1, 46) {
        digits_end(b, p1 + 1)
    } else {
        p1
    };
    let count = p2 - p0 - (if byte_at(b, p1, 46) {
        1int
    } else {
        0int
    });
    let p3 = if p2 + 1 < b.len() && sign_byte(b[p2 + 1]) {
        p2 + 2
    } else {
        p2 + 1
    };
    &&& count > 0
    &&& p2 == b.len() || (byte_at(b, p2, 101) || byte_at(b, p2, 69)) && p3 < b.len() && digits_end(
        b,
        p3,
    ) == b.len()
}

/// Bytes below 128 as characters.
pub open spec fn ascii_chars(b: Seq<u8>) -> Seq<char> {
    Seq::new(b.len(), |i: int| b[i] as char)
}

pub open spec fn hex_digit(c: u8) -> Option<u32> {
    if 48 <= c <= 57 {
        Some((c - 48) as u32)
    } else if 97 <= c <= 102 {
        Some((c - 87) as u32)
    } else if 65 <= c <= 70 {
        Some((c - 55) as u32)
    } else {
        None
    }
}

/// The number some hexadecimal digits stand for.
pub open spec fn hex_value(d: Seq<u8>) -> Option<nat>
    decreases d.len(),
{
    if d.len() == 0 {
        Some(0)
    } else {
        match (hex_value(d.drop_last()), hex_digit(d.last())) {
            (Some(v), Some(x)) => Some(16 * v + x as nat),
            _ => None,
        }
    }
}

/// The code point of four bytes: hexadecimal digits behind at most a plus.
pub open spec fn code_point(d: Seq<u8>) -> Option<nat> {
    if d[0] == 43 {
        hex_value(d.skip(1))
    } else {
        hex_value(d)
    }
}

/// The character of a code point, or the replacement character for one that is
/// half of a pair.
pub open spec fn char_of(cp: nat) -> char {
    if 0xd800 <= cp <= 0xdfff {
        '\u{fffd}'
    } else {
        cp as char
    }
}

/// The character that follows a backslash, where it stands for one alone.
pub open spec fn escaped(c: u8) -> Option<char> {
    if c == 34 {
        Some('"')
    } else if c == 92 {
        Some('\\')
    } else if c == 47 {
        Some('/')
    } else if c == 110 {
        Some('\n')
    } else if c == 116 {
        Some('\t')
    } else if c == 114 {
        Some('\r')
    } else if c == 98 {
        Some('\u{8}')
    } else if c == 102 {
        Some('\u{c}')
    } else {
        None
    }
}

/// How many bytes a character takes that begins with a byte.
pub open spec fn width(c: u8) -> int {
    if c <= 0x7f {
        1
    } else if 0xc0 <= c <= 0xdf {
        2
    } else if 0xe0 <= c <= 0xef {
        3
    } else {
        4
    }
}

/// The rest of a string and the place behind its closing quote.
pub open spec fn string(b: Seq<u8>, p: int, acc: Seq<char>) -> Result<(Seq<char>, int), Seq<char>>
    decreases b.len() - p,
{
    if p < 0 || p >= b.len() {
        Err("unterminated string"@)
    } else if b[p] == 34 {
        Ok((acc, p + 1))
    } else if b[p] == 92 {
        if p + 1 >= b.len() {
            Err("bad escape"@)
        } else if escaped(b[p + 1]) is Some {
            string(b, p + 2, acc.push(escaped(b[p + 1])->Some_0))
        } else if b[p + 1] == 117 {
            if p + 6 > b.len() || code_point(b.subrange(p + 2, p + 6)) is None {
                Err("bad \\u"@)
            } else {
                string(
                    b,
                    p + 6,
                    acc.push(char_of(code_point(b.subrange(p + 2, p + 6))->Some_0)),
                )
            }
        } else {
            Err("bad escape"@)
        }
    } else {
        let n = width(b[p]);
        if p + n > b.len() || !valid_utf8(b.subrange(p, p + n)) {
            Err("bad utf8"@)
        } else {
            string(b, p + n, acc + decode_utf8(b.subrange(p, p + n)))
        }
    }
}

pub open spec fn word(b: Seq<u8>, p: int, w: Seq<char>, v: JsonView) -> Result<
    (JsonView, int),
    Seq<char>,
> {
    if starts(b, p, encode_utf8(w)) {
        Ok((v, p + encode_utf8(w).len()))
    } else {
        Err("bad literal"@)
    }
}

/// The value at a place and the place behind it.
pub open spec fn value(b: Seq<u8>, p: int) -> Result<(JsonView, int), Seq<char>>
    decreases b.len() - p, 1int,
{
    let s = ws(b, p);
    proof {
        ws_bound(b, p);
    }
    if p < 0 || s >= b.len() {
        Err("unexpected eof"@)
    } else if b[s] == 123 {
        let q = ws(b, s + 1);
        if byte_at(b, q, 125) {
            Ok((JsonView::Obj(Seq::empty()), q + 1))
        } else {
            members(b, s + 1, Seq::empty())
        }
    } else if b[s] == 91 {
        let q = ws(b, s + 1);
        if byte_at(b, q, 93) {
            Ok((JsonView::Arr(Seq::empty()), q + 1))
        } else {
            items(b, s + 1, Seq::empty())
        }
    } else if b[s] == 34 {
        match string(b, s + 1, Seq::empty()) {
            Ok((t, q)) => Ok((JsonView::Str(t), q)),
            Err(e) => Err(e),
        }
    } else if b[s] == 116 {
        word(b, s, "true"@, JsonView::Bool(true))
    } else if b[s] == 102 {
        word(b, s, "false"@, JsonView::Bool(false))
    } else if b[s] == 110 {
        word(b, s, "null"@, JsonView::Null)
    } else {
        let e = number_end(b, s);
        if spells_number(b.subrange(s, e)) {
            Ok((JsonView::Num(ascii_chars(b.subrange(s, e))), e))
        } else {
            Err("bad number at "@ + dec(s as nat))
        }
    }
}

/// The members of an object from a place on. A value always ends behind where
/// it begins.
pub open spec fn members(b: Seq<u8>, p: int, acc: Seq<(Seq<char>, JsonView)>) -> Result<
    (JsonView, int),
    Seq<char>,
>
    decreases b.len() - p, 2int,
{
    match value(b, p) {
        Err(e) => Err(e),
        Ok((k, q)) => match k {
            JsonView::Str(key) => {
                let c = ws(b, q);
                proof {
                    ws_bound(b, q);
                }
                if !byte_at(b, c, 58) || c < p {
                    Err("expected ':' at "@ + dec(c as nat))
                } else {
                    match value(b, c + 1) {
                        Err(e) => Err(e),
                        Ok((v, r)) => {
                            let n = ws(b, r);
                            if byte_at(b, n, 44) && n >= p {
                                members(b, n + 1, acc.push((key, v)))
                            } else if byte_at(b, n, 125) {
                                Ok((JsonView::Obj(acc.push((key, v))), n + 1))
                            } else {
                                Err("expected ',' or '}' at "@ + dec(n as nat))
                            }
                        },
                    }
                }
            },
            _ => Err("object key must be string"@),
        },
    }
}

/// The items of an array from a place on.
pub open spec fn items(b: Seq<u8>, p: int, acc: Seq<JsonView>) -> Result<(JsonView, int), Seq<char>>
    decreases b.len() - p, 2int,
{
    match value(b, p) {
        Err(e) => Err(e),
        Ok((v, r)) => {
            let n = ws(b, r);
            if byte_at(b, n, 44) && n >= p {
                items(b, n + 1, acc.push(v))
            } else if byte_at(b, n, 93) {
                Ok((JsonView::Arr(acc.push(v)), n + 1))
            } else {
                Err("expected ',' or ']' at "@ + dec(n as nat))
            }
        },
    }
}

/// What a text says: one value and nothing behind it.
pub open spec fn parsed(text: Seq<char>) -> Result<JsonView, Seq<char>> {
    let b = encode_utf8(text);
    match value(b, 0) {
        Err(e) => Err(e),
        Ok((v, p)) => if ws(b, p) != b.len() {
            Err("trailing data at byte "@ + dec(ws(b, p) as nat))
        } else {
            Ok(v)
        },
    }
}

// ---------------------------------------------------------------------------
// The reader
// ---------------------------------------------------------------------------

/// Whether a read that ended at `after` did what the grammar says.
pub open spec fn gives(
    r: Result<Json, String>,
    before: usize,
    after: usize,
    len: nat,
    want: Result<(JsonView, int), Seq<char>>,
) -> bool {
    match (r, want) {
        (Ok(j), Ok((v, q))) => j.model() == v && after == q && before < after <= len,
        (Err(e), Err(m)) => e@ == m,
        _ => false,
    }
}

fn skip_ws(b: &[u8], p: &mut usize)
    requires
        *old(p) <= b@.len(),
    ensures
        *final(p) == ws(b@, *old(p) as int),
        *old(p) <= *final(p) <= b@.len(),
{
    while *p < b.len() && (b[*p] == 32 || b[*p] == 9 || b[*p] == 10 || b[*p] == 13)
        invariant
            *old(p) <= *p <= b@.len(),
            ws(b@, *p as int) == ws(b@, *old(p) as int),
        decreases b@.len() - *p,
    {
        *p = *p + 1;
    }
}

fn error_at(what: &str, p: usize) -> (e: String)
    ensures
        e@ == what@ + dec(p as nat),
{
    let n: String = u64_text(p as u64);
    join2(what, n.as_str())
}

fn hex(c: u8) -> (r: Option<u32>)
    ensures
        r == hex_digit(c),
        r matches Some(x) ==> x < 16,
{
    if c >= 48 && c <= 57 {
        Some(c as u32 - 48)
    } else if c >= 97 && c <= 102 {
        Some(c as u32 - 87)
    } else if c >= 65 && c <= 70 {
        Some(c as u32 - 55)
    } else {
        None
    }
}

/// The code point of the four bytes at a place.
fn hex4(b: &[u8], p: usize) -> (r: Option<u32>)
    requires
        p + 4 <= b@.len(),
    ensures
        match r {
            Some(v) => code_point(b@.subrange(p as int, p + 4)) == Some(v as nat) && v <= 0xffff,
            None => code_point(b@.subrange(p as int, p + 4)) is None,
        },
{
    let n: usize = b.len();
    let ghost d = b@.subrange(p as int, p + 4);
    let from: usize = if b[p] == 43 { p + 1 } else { p };
    let ghost h = b@.subrange(from as int, p + 4);
    proof {
        assert(d[0] == b@[p as int]);
        if from == p + 1 {
            assert(d.skip(1) =~= h);
        }
        assert(h.take(0) =~= Seq::<u8>::empty());
    }
    let mut v: u32 = 0;
    let mut i: usize = from;
    while i < p + 4
        invariant
            p + 4 <= n,
            n == b@.len(),
            p <= from <= i <= p + 4,
            h == b@.subrange(from as int, p + 4),
            code_point(b@.subrange(p as int, p + 4)) == hex_value(h),
            hex_value(h.take(i - from)) == Some(v as nat),
            i - from == 0 ==> v == 0,
            i - from == 1 ==> v < 0x10,
            i - from == 2 ==> v < 0x100,
            i - from == 3 ==> v < 0x1000,
            i - from == 4 ==> v < 0x10000,
        decreases p + 4 - i,
    {
        assert(h.take(i - from + 1).drop_last() =~= h.take(i - from));
        assert(h.take(i - from + 1).last() == b@[i as int]);
        match hex(b[i]) {
            Some(x) => v = 16 * v + x,
            None => {
                proof {
                    hex_fails(h, i - from + 1);
                }
                return None;
            },
        }
        i += 1;
    }
    assert(h.take(i - from) =~= h);
    Some(v)
}

proof fn hex_fails(d: Seq<u8>, n: int)
    requires
        0 <= n <= d.len(),
        hex_value(d.take(n)) is None,
    ensures
        hex_value(d) is None,
    decreases d.len() - n,
{
    if n < d.len() {
        assert(d.take(n + 1).drop_last() =~= d.take(n));
        hex_fails(d, n + 1);
    } else {
        assert(d.take(n) =~= d);
    }
}

/// Reads the rest of a string.
fn parse_string(b: &[u8], p: &mut usize) -> (r: Result<String, String>)
    requires
        *old(p) <= b@.len(),
    ensures
        match (r, string(b@, *old(p) as int, Seq::empty())) {
            (Ok(s), Ok((t, q))) => s@ == t && *final(p) == q && *old(p) < *final(p) <= b@.len(),
            (Err(e), Err(m)) => e@ == m,
            _ => false,
        },
{
    let n: usize = b.len();
    let ghost whole = string(b@, *p as int, Seq::empty());
    let mut s: String = String::new();
    assert(s@ =~= Seq::<char>::empty());
    while *p < n
        invariant
            n == b@.len(),
            *old(p) <= *p <= n,
            whole == string(b@, *old(p) as int, Seq::empty()),
            string(b@, *p as int, s@) == whole,
        decreases n - *p,
    {
        let c: u8 = b[*p];
        if c == 34 {
            *p = *p + 1;
            return Ok(s);
        }
        if c == 92 {
            if n - *p < 2 {
                return Err("bad escape".to_owned());
            }
            let e: u8 = b[*p + 1];
            if e == 117 {
                if n - *p < 6 {
                    return Err("bad \\u".to_owned());
                }
                match hex4(b, *p + 2) {
                    None => return Err("bad \\u".to_owned()),
                    Some(cp) => {
                        let ch: char = if cp >= 0xd800 && cp <= 0xdfff {
                            '\u{fffd}'
                        } else {
                            code_char(cp)
                        };
                        s.push(ch);
                        *p = *p + 6;
                    },
                }
            } else {
                let ch: char = if e == 34 {
                    '"'
                } else if e == 92 {
                    '\\'
                } else if e == 47 {
                    '/'
                } else if e == 110 {
                    '\n'
                } else if e == 116 {
                    '\t'
                } else if e == 114 {
                    '\r'
                } else if e == 98 {
                    '\u{8}'
                } else if e == 102 {
                    '\u{c}'
                } else {
                    return Err("bad escape".to_owned());
                };
                s.push(ch);
                *p = *p + 2;
            }
        } else {
            let w: usize = if c <= 0x7f {
                1
            } else if c >= 0xc0 && c <= 0xdf {
                2
            } else if c >= 0xe0 && c <= 0xef {
                3
            } else {
                4
            };
            if n - *p < w {
                return Err("bad utf8".to_owned());
            }
            match string_from_utf8(copy_range(b, *p, *p + w)) {
                None => return Err("bad utf8".to_owned()),
                Some(t) => {
                    s.append(t.as_str());
                    *p = *p + w;
                },
            }
        }
    }
    Err("unterminated string".to_owned())
}

/// `char::from_u32`: the character of a code point that is no half of a pair.
#[verifier::external_body]
fn code_char(cp: u32) -> (c: char)
    requires
        cp <= 0x10ffff,
        !(0xd800 <= cp <= 0xdfff),
    ensures
        c == cp as char,
{
    char::from_u32(cp).unwrap()
}

/// Reads a word that stands for a value.
fn parse_word(b: &[u8], p: &mut usize, w: &str) -> (r: bool)
    requires
        *old(p) < b@.len(),
        encode_utf8(w@).len() > 0,
    ensures
        r == starts(b@, *old(p) as int, encode_utf8(w@)),
        r ==> *final(p) == *old(p) + encode_utf8(w@).len() && *final(p) <= b@.len(),
{
    let t: &[u8] = w.as_bytes();
    let n: usize = b.len();
    if n - *p < t.len() {
        return false;
    }
    let mut i: usize = 0;
    while i < t.len()
        invariant
            i <= t@.len(),
            t@ == encode_utf8(w@),
            *p == *old(p),
            n == b@.len(),
            *p + t@.len() <= n,
            forall|k: int| 0 <= k < i ==> b@[*p + k] == #[trigger] t@[k],
        decreases t@.len() - i,
    {
        if b[*p + i] != t[i] {
            assert(b@.subrange(*p as int, *p + t@.len())[i as int] != t@[i as int]);
            return false;
        }
        i += 1;
    }
    assert(b@.subrange(*p as int, *p + t@.len()) =~= t@);
    *p = *p + t.len();
    true
}

/// Where the digits at a place end.
pub(crate) fn digits(b: &Vec<u8>, p: usize) -> (q: usize)
    requires
        p <= b@.len(),
    ensures
        q == digits_end(b@, p as int),
        p <= q <= b@.len(),
{
    let mut q: usize = p;
    while q < b.len() && b[q] >= 48 && b[q] <= 57
        invariant
            p <= q <= b@.len(),
            digits_end(b@, q as int) == digits_end(b@, p as int),
        decreases b@.len() - q,
    {
        q += 1;
    }
    q
}

/// Whether all of some bytes spell a decimal number.
pub(crate) fn is_number(b: &Vec<u8>) -> (r: bool)
    ensures
        r == spells_number(b@),
{
    let n: usize = b.len();
    let p0: usize = if n > 0 && (b[0] == 43 || b[0] == 45) { 1 } else { 0 };
    let p1: usize = digits(b, p0);
    let point: bool = p1 < n && b[p1] == 46;
    let p2: usize = if point { digits(b, p1 + 1) } else { p1 };
    let count: usize = if point { p2 - p0 - 1 } else { p2 - p0 };
    if count == 0 {
        return false;
    }
    if p2 == n {
        return true;
    }
    if b[p2] != 101 && b[p2] != 69 {
        return false;
    }
    if p2 + 1 >= n {
        return false;
    }
    let p3: usize = if b[p2 + 1] == 43 || b[p2 + 1] == 45 { p2 + 2 } else { p2 + 1 };
    p3 < n && digits(b, p3) == n
}

fn parse_number(b: &[u8], p: &mut usize) -> (r: Result<Json, String>)
    requires
        *old(p) < b@.len(),
    ensures
        ({
            let s = *old(p) as int;
            let e = number_end(b@, s);
            match r {
                Ok(j) => spells_number(b@.subrange(s, e)) && j.model() == JsonView::Num(
                    ascii_chars(b@.subrange(s, e)),
                ) && *final(p) == e && s < e <= b@.len(),
                Err(m) => !spells_number(b@.subrange(s, e)) && m@ == "bad number at "@ + dec(
                    s as nat,
                ),
            }
        }),
{
    let start: usize = *p;
    let n: usize = b.len();
    let mut text: String = String::new();
    assert(text@ =~= ascii_chars(b@.subrange(start as int, start as int)));
    while *p < n && ((b[*p] >= 48 && b[*p] <= 57) || b[*p] == 43 || b[*p] == 45 || b[*p] == 46
        || b[*p] == 101 || b[*p] == 69)
        invariant
            n == b@.len(),
            start <= *p <= n,
            text@ == ascii_chars(b@.subrange(start as int, *p as int)),
            number_end(b@, *p as int) == number_end(b@, start as int),
        decreases n - *p,
    {
        text.push(b[*p] as char);
        *p = *p + 1;
        assert(text@ =~= ascii_chars(b@.subrange(start as int, *p as int)));
    }
    let spelled: Vec<u8> = copy_range(b, start, *p);
    if is_number(&spelled) {
        Ok(Json::Num(text))
    } else {
        Err(error_at("bad number at ", start))
    }
}

fn parse_members(b: &[u8], p: &mut usize) -> (r: Result<Json, String>)
    requires
        *old(p) <= b@.len(),
    ensures
        gives(r, *old(p), *final(p), b@.len(), members(b@, *old(p) as int, Seq::empty())),
    decreases b@.len() - *old(p), 2int,
{
    let n: usize = b.len();
    let ghost whole = members(b@, *p as int, Seq::empty());
    let mut o: Vec<(String, Json)> = Vec::new();
    assert(members_model(o@) =~= Seq::empty());
    loop
        invariant
            n == b@.len(),
            *old(p) <= *p <= n,
            whole == members(b@, *old(p) as int, Seq::empty()),
            members(b@, *p as int, members_model(o@)) == whole,
        decreases n - *p,
    {
        let key: String = match parse_value(b, p) {
            Err(e) => return Err(e),
            Ok(j) => match j {
                Json::Str(s) => s,
                _ => return Err("object key must be string".to_owned()),
            },
        };
        skip_ws(b, p);
        if *p >= n || b[*p] != 58 {
            return Err(error_at("expected ':' at ", *p));
        }
        *p = *p + 1;
        let v: Json = match parse_value(b, p) {
            Err(e) => return Err(e),
            Ok(v) => v,
        };
        let ghost before = o@;
        o.push((key, v));
        assert(members_model(o@) =~= members_model(before).push((key@, v.model())));
        skip_ws(b, p);
        if *p < n && b[*p] == 44 {
            *p = *p + 1;
        } else if *p < n && b[*p] == 125 {
            *p = *p + 1;
            proof {
                obj_model(o);
            }
            return Ok(Json::Obj(o));
        } else {
            return Err(error_at("expected ',' or '}' at ", *p));
        }
    }
}

fn parse_items(b: &[u8], p: &mut usize) -> (r: Result<Json, String>)
    requires
        *old(p) <= b@.len(),
    ensures
        gives(r, *old(p), *final(p), b@.len(), items(b@, *old(p) as int, Seq::empty())),
    decreases b@.len() - *old(p), 2int,
{
    let n: usize = b.len();
    let ghost whole = items(b@, *p as int, Seq::empty());
    let mut a: Vec<Json> = Vec::new();
    assert(items_model(a@) =~= Seq::empty());
    loop
        invariant
            n == b@.len(),
            *old(p) <= *p <= n,
            whole == items(b@, *old(p) as int, Seq::empty()),
            items(b@, *p as int, items_model(a@)) == whole,
        decreases n - *p,
    {
        let v: Json = match parse_value(b, p) {
            Err(e) => return Err(e),
            Ok(v) => v,
        };
        let ghost before = a@;
        a.push(v);
        assert(items_model(a@) =~= items_model(before).push(v.model()));
        skip_ws(b, p);
        if *p < n && b[*p] == 44 {
            *p = *p + 1;
        } else if *p < n && b[*p] == 93 {
            *p = *p + 1;
            proof {
                arr_model(a);
            }
            return Ok(Json::Arr(a));
        } else {
            return Err(error_at("expected ',' or ']' at ", *p));
        }
    }
}

/// Reads the value at a place and moves behind it.
fn parse_value(b: &[u8], p: &mut usize) -> (r: Result<Json, String>)
    requires
        *old(p) <= b@.len(),
    ensures
        gives(r, *old(p), *final(p), b@.len(), value(b@, *old(p) as int)),
    decreases b@.len() - *old(p), 1int,
{
    let n: usize = b.len();
    skip_ws(b, p);
    if *p >= n {
        return Err("unexpected eof".to_owned());
    }
    let c: u8 = b[*p];
    if c == 123 {
        let mut q: usize = *p + 1;
        skip_ws(b, &mut q);
        if q < n && b[q] == 125 {
            *p = q + 1;
            let o: Vec<(String, Json)> = Vec::new();
            proof {
                obj_model(o);
                assert(members_model(o@) =~= Seq::empty());
            }
            return Ok(Json::Obj(o));
        }
        *p = *p + 1;
        parse_members(b, p)
    } else if c == 91 {
        let mut q: usize = *p + 1;
        skip_ws(b, &mut q);
        if q < n && b[q] == 93 {
            *p = q + 1;
            let a: Vec<Json> = Vec::new();
            proof {
                arr_model(a);
                assert(items_model(a@) =~= Seq::empty());
            }
            return Ok(Json::Arr(a));
        }
        *p = *p + 1;
        parse_items(b, p)
    } else if c == 34 {
        *p = *p + 1;
        match parse_string(b, p) {
            Ok(s) => Ok(Json::Str(s)),
            Err(e) => Err(e),
        }
    } else if c == 116 {
        proof {
            words_are_ascii();
        }
        if parse_word(b, p, "true") {
            Ok(Json::Bool(true))
        } else {
            Err("bad literal".to_owned())
        }
    } else if c == 102 {
        proof {
            words_are_ascii();
        }
        if parse_word(b, p, "false") {
            Ok(Json::Bool(false))
        } else {
            Err("bad literal".to_owned())
        }
    } else if c == 110 {
        proof {
            words_are_ascii();
        }
        if parse_word(b, p, "null") {
            Ok(Json::Null)
        } else {
            Err("bad literal".to_owned())
        }
    } else {
        parse_number(b, p)
    }
}

proof fn words_are_ascii()
    ensures
        encode_utf8("true"@) == seq![116u8, 114, 117, 101],
        encode_utf8("false"@) == seq![102u8, 97, 108, 115, 101],
        encode_utf8("null"@) == seq![110u8, 117, 108, 108],
{
    reveal_strlit("true");
    reveal_strlit("false");
    reveal_strlit("null");
    vstd::utf8::is_ascii_chars_encode_utf8("true"@);
    vstd::utf8::is_ascii_chars_encode_utf8("false"@);
    vstd::utf8::is_ascii_chars_encode_utf8("null"@);
    assert(encode_utf8("true"@) =~= seq![116u8, 114, 117, 101]);
    assert(encode_utf8("false"@) =~= seq![102u8, 97, 108, 115, 101]);
    assert(encode_utf8("null"@) =~= seq![110u8, 117, 108, 108]);
}

/// Reads a text: one value and nothing behind it.
pub fn parse(input: &str) -> (r: Result<Json, String>)
    ensures
        match (r, parsed(input@)) {
            (Ok(j), Ok(v)) => j.model() == v,
            (Err(e), Err(m)) => e@ == m,
            _ => false,
        },
{
    let b: &[u8] = input.as_bytes();
    let mut p: usize = 0;
    match parse_value(b, &mut p) {
        Err(e) => Err(e),
        Ok(v) => {
            skip_ws(b, &mut p);
            if p != b.len() {
                Err(error_at("trailing data at byte ", p))
            } else {
                Ok(v)
            }
        },
    }
}

// ---------------------------------------------------------------------------
// Access
// ---------------------------------------------------------------------------

/// The first member of a name.
pub open spec fn member(o: Seq<(Seq<char>, JsonView)>, k: Seq<char>) -> Option<JsonView>
    decreases o.len(),
{
    if o.len() == 0 {
        None
    } else if o[0].0 == k {
        Some(o[0].1)
    } else {
        member(o.skip(1), k)
    }
}

/// A member stands inside its object.
pub proof fn member_inside(o: Seq<(Seq<char>, JsonView)>, k: Seq<char>)
    ensures
        member(o, k) matches Some(v) ==> exists|i: int|
            0 <= i < o.len() && (#[trigger] o[i]).0 == k && o[i].1 == v,
        member(o, k) matches Some(v) ==> decreases_to!(o => v),
    decreases o.len(),
{
    if o.len() > 0 {
        let t = o.skip(1);
        member_inside(t, k);
        if o[0].0 != k {
            if let Some(v) = member(t, k) {
                let i = choose|i: int| 0 <= i < t.len() && (#[trigger] t[i]).0 == k && t[i].1 == v;
                assert(o[i + 1] == t[i]);
                assert(decreases_to!(o => o[i + 1].1));
            }
        } else {
            assert(decreases_to!(o => o[0].1));
        }
    }
}

impl JsonView {
    /// The first member of a name, if the value is an object.
    pub open spec fn at(self, k: Seq<char>) -> Option<JsonView> {
        match self {
            JsonView::Obj(o) => member(o, k),
            _ => None,
        }
    }
}

impl Json {
    /// The first member of a name, if the value is an object.
    pub fn get(&self, k: &str) -> (r: Option<&Json>)
        ensures
            match r {
                Some(v) => self.model().at(k@) == Some(v.model()),
                None => self.model().at(k@) is None,
            },
    {
        match self {
            Json::Obj(o) => {
                let ghost m = members_model(o@);
                proof {
                    obj_model(*o);
                    assert(m.skip(0) =~= m);
                }
                let mut i: usize = 0;
                while i < o.len()
                    invariant
                        i <= o@.len(),
                        m == members_model(o@),
                        self.model() == JsonView::Obj(m),
                        member(m.skip(i as int), k@) == member(m, k@),
                    decreases o@.len() - i,
                {
                    assert(m.skip(i as int)[0] == m[i as int]);
                    assert(m.skip(i as int).skip(1) =~= m.skip(i + 1));
                    if str_eq(o[i].0.as_str(), k) {
                        return Some(&o[i].1);
                    }
                    i += 1;
                }
                None
            },
            _ => None,
        }
    }

    pub fn s(&self) -> (r: Option<&str>)
        ensures
            match r {
                Some(t) => self.model() == JsonView::Str(t@),
                None => !(self.model() is Str),
            },
    {
        match self {
            Json::Str(s) => Some(s.as_str()),
            _ => None,
        }
    }

    /// The integer part of a number.
    pub fn i(&self) -> (r: Option<i64>)
        ensures
            r == (match self.model() {
                JsonView::Num(t) => integer_part(t),
                _ => None,
            }),
    {
        match self {
            Json::Num(s) => integer_part_of(s.as_str()),
            _ => None,
        }
    }

    pub fn b(&self) -> (r: Option<bool>)
        ensures
            match r {
                Some(b) => self.model() == JsonView::Bool(b),
                None => !(self.model() is Bool),
            },
    {
        match self {
            Json::Bool(b) => Some(*b),
            _ => None,
        }
    }

    pub fn arr(&self) -> (r: Option<&Vec<Json>>)
        ensures
            match r {
                Some(a) => self.model() == JsonView::Arr(items_model(a@)),
                None => !(self.model() is Arr),
            },
    {
        match self {
            Json::Arr(a) => {
                proof {
                    arr_model(*a);
                }
                Some(a)
            },
            _ => None,
        }
    }

    /// The spelling of a number.
    pub fn num(&self) -> (r: Option<&str>)
        ensures
            match r {
                Some(t) => self.model() == JsonView::Num(t@),
                None => !(self.model() is Num),
            },
    {
        match self {
            Json::Num(s) => Some(s.as_str()),
            _ => None,
        }
    }
}

/// An object of some members.
pub fn obj(fields: Vec<(String, Json)>) -> (j: Json)
    ensures
        j.model() == JsonView::Obj(members_model(fields@)),
{
    proof {
        obj_model(fields);
    }
    Json::Obj(fields)
}

// ---------------------------------------------------------------------------
// Writing
// ---------------------------------------------------------------------------

pub open spec fn hex_char(d: int) -> char {
    if d < 10 {
        (48 + d) as u8 as char
    } else {
        (87 + d) as u8 as char
    }
}

/// A character inside a string. Backspaces and form feeds have a short form
/// that not every writer uses.
pub open spec fn esc(c: char, short: bool) -> Seq<char> {
    if c == '"' {
        seq!['\\', '"']
    } else if c == '\\' {
        seq!['\\', '\\']
    } else if c == '\n' {
        seq!['\\', 'n']
    } else if c == '\t' {
        seq!['\\', 't']
    } else if c == '\r' {
        seq!['\\', 'r']
    } else if short && c == '\u{8}' {
        seq!['\\', 'b']
    } else if short && c == '\u{c}' {
        seq!['\\', 'f']
    } else if (c as u32) < 0x20 {
        seq!['\\', 'u', '0', '0', hex_char(c as int / 16), hex_char(c as int % 16)]
    } else {
        seq![c]
    }
}

pub open spec fn esc_text(s: Seq<char>, short: bool) -> Seq<char>
    decreases s.len(),
{
    if s.len() == 0 {
        Seq::empty()
    } else {
        esc(s[0], short) + esc_text(s.skip(1), short)
    }
}

pub open spec fn quoted(s: Seq<char>, short: bool) -> Seq<char> {
    seq!['"'] + (esc_text(s, short) + seq!['"'])
}

pub open spec fn comma(k: int) -> Seq<char> {
    if k > 0 {
        seq![',']
    } else {
        Seq::empty()
    }
}

/// A value as text, without white space and without the short forms.
pub open spec fn rendered(j: JsonView) -> Seq<char> {
    printed(j, false)
}

/// A value as text, without white space.
pub open spec fn printed(j: JsonView, short: bool) -> Seq<char>
    decreases j, 0int,
{
    match j {
        JsonView::Null => "null"@,
        JsonView::Bool(b) => if b {
            "true"@
        } else {
            "false"@
        },
        JsonView::Num(t) => number_text(t),
        JsonView::Str(s) => quoted(s, short),
        JsonView::Arr(a) => seq!['['] + items_text(a, 0, short),
        JsonView::Obj(o) => seq!['{'] + members_text(o, 0, short),
    }
}

/// The items of an array from one on, and what closes it.
pub open spec fn items_text(a: Seq<JsonView>, k: int, short: bool) -> Seq<char>
    decreases a, a.len() - k,
{
    if k < 0 || k >= a.len() {
        seq![']']
    } else {
        comma(k) + (printed(a[k], short) + items_text(a, k + 1, short))
    }
}

/// The members of an object from one on, and what closes it.
pub open spec fn members_text(o: Seq<(Seq<char>, JsonView)>, k: int, short: bool) -> Seq<char>
    decreases o, o.len() - k,
{
    if k < 0 || k >= o.len() {
        seq!['}']
    } else {
        comma(k) + (quoted(o[k].0, short) + (seq![':'] + (printed(o[k].1, short) + members_text(o, k + 1, short))))
    }
}

fn push_hex(out: &mut String, d: u32)
    requires
        d < 16,
    ensures
        final(out)@ == old(out)@.push(hex_char(d as int)),
{
    if d < 10 {
        out.push((48 + d as u8) as char);
    } else {
        out.push((87 + d as u8) as char);
    }
}

fn push_esc(out: &mut String, c: char)
    ensures
        final(out)@ == old(out)@ + esc(c, false),
{
    if c == '"' {
        out.push('\\');
        out.push('"');
    } else if c == '\\' {
        out.push('\\');
        out.push('\\');
    } else if c == '\n' {
        out.push('\\');
        out.push('n');
    } else if c == '\t' {
        out.push('\\');
        out.push('t');
    } else if c == '\r' {
        out.push('\\');
        out.push('r');
    } else if (c as u32) < 0x20 {
        let n: u32 = c as u32;
        out.push('\\');
        out.push('u');
        out.push('0');
        out.push('0');
        push_hex(out, n / 16);
        push_hex(out, n % 16);
    } else {
        out.push(c);
    }
    assert(out@ =~= old(out)@ + esc(c, false));
}

fn push_quoted(out: &mut String, s: &str)
    ensures
        final(out)@ == old(out)@ + quoted(s@, false),
{
    let v: Vec<char> = crate::text::to_chars(s);
    out.push('"');
    let ghost head = out@;
    let mut i: usize = 0;
    assert(v@.skip(0) =~= v@);
    while i < v.len()
        invariant
            i <= v@.len(),
            v@ == s@,
            out@ + esc_text(v@.skip(i as int), false) == head + esc_text(s@, false),
        decreases v@.len() - i,
    {
        let ghost o = out@;
        let ghost rest = v@.skip(i as int);
        push_esc(out, v[i]);
        proof {
            assert(rest[0] == v@[i as int]);
            assert(rest.skip(1) =~= v@.skip(i + 1));
            assert((o + esc(rest[0], false)) + esc_text(rest.skip(1), false) =~= o + (esc(rest[0], false) + esc_text(
                rest.skip(1), false)));
        }
        i += 1;
    }
    assert(out@ =~= head + esc_text(s@, false));
    out.push('"');
    assert(out@ =~= old(out)@ + quoted(s@, false));
}

impl Json {
    /// The value as text.
    pub fn render(&self) -> (r: String)
        ensures
            r@ == rendered(self.model()),
    {
        let mut s: String = String::new();
        self.write(&mut s);
        assert(s@ =~= rendered(self.model()));
        s
    }

    fn write(&self, out: &mut String)
        ensures
            final(out)@ == old(out)@ + rendered(self.model()),
        decreases self,
    {
        match self {
            Json::Null => out.append("null"),
            Json::Bool(b) => out.append(if *b { "true" } else { "false" }),
            Json::Num(t) => {
                let text: String = write_number(t.as_str());
                out.append(text.as_str())
            },
            Json::Str(s) => push_quoted(out, s.as_str()),
            Json::Arr(a) => {
                let ghost m = items_model(a@);
                proof {
                    arr_model(*a);
                }
                out.push('[');
                let ghost head = out@;
                let mut i: usize = 0;
                while i < a.len()
                    invariant
                        i <= a@.len(),
                        m == items_model(a@),
                        *self == Json::Arr(*a),
                        out@ + items_text(m, i as int, false) == head + items_text(m, 0, false),
                    decreases a@.len() - i,
                {
                    let ghost o = out@;
                    if i > 0 {
                        out.push(',');
                    }
                    assert(decreases_to!(self => self->Arr_0@[i as int]));
                    a[i].write(out);
                    proof {
                        let r = rendered(m[i as int]);
                        let t = items_text(m, i + 1, false);
                        assert(out@ =~= o + comma(i as int) + r);
                        assert((o + comma(i as int) + r) + t =~= o + (comma(i as int) + (r + t)));
                    }
                    i += 1;
                }
                out.push(']');
                proof {
                    assert(out@ =~= head + items_text(m, 0, false));
                    assert(out@ =~= old(out)@ + rendered(self.model()));
                }
            },
            Json::Obj(o) => {
                let ghost m = members_model(o@);
                proof {
                    obj_model(*o);
                }
                out.push('{');
                let ghost head = out@;
                let mut i: usize = 0;
                while i < o.len()
                    invariant
                        i <= o@.len(),
                        m == members_model(o@),
                        *self == Json::Obj(*o),
                        out@ + members_text(m, i as int, false) == head + members_text(m, 0, false),
                    decreases o@.len() - i,
                {
                    let ghost before = out@;
                    if i > 0 {
                        out.push(',');
                    }
                    push_quoted(out, o[i].0.as_str());
                    out.push(':');
                    assert(decreases_to!(self => self->Obj_0@[i as int].1));
                    o[i].1.write(out);
                    proof {
                        let k = quoted(m[i as int].0, false);
                        let r = rendered(m[i as int].1);
                        let t = members_text(m, i + 1, false);
                        assert(out@ =~= before + comma(i as int) + k + seq![':'] + r);
                        assert((before + comma(i as int) + k + seq![':'] + r) + t =~= before + (comma(
                            i as int,
                        ) + (k + (seq![':'] + (r + t)))));
                    }
                    i += 1;
                }
                out.push('}');
                proof {
                    assert(out@ =~= head + members_text(m, 0, false));
                    assert(out@ =~= old(out)@ + rendered(self.model()));
                }
            },
        }
    }
}

// ---------------------------------------------------------------------------
// What was written is read back
// ---------------------------------------------------------------------------

/// Whether every number in a value is spelled as one, and as it is written.
pub open spec fn numbers_spelled(j: JsonView) -> bool
    decreases j,
{
    match j {
        JsonView::Num(t) => vstd::utf8::is_ascii_chars(t) && spells_number(encode_utf8(t))
            && number_text(t) == t,
        JsonView::Arr(a) => forall|i: int|
            #![trigger a[i]]
            0 <= i < a.len() ==> numbers_spelled(a[i]),
        JsonView::Obj(o) => forall|i: int|
            #![trigger o[i]]
            0 <= i < o.len() ==> numbers_spelled(o[i].1),
        _ => true,
    }
}

/// Texts encode piece by piece.
pub proof fn encode_concat(a: Seq<char>, b: Seq<char>)
    ensures
        encode_utf8(a + b) == encode_utf8(a) + encode_utf8(b),
    decreases a.len(),
{
    if a.len() == 0 {
        assert(a + b =~= b);
        assert(encode_utf8(a) + encode_utf8(b) =~= encode_utf8(b));
    } else {
        assert((a + b).drop_first() =~= a.drop_first() + b);
        encode_concat(a.drop_first(), b);
        assert(encode_utf8(a + b) =~= encode_utf8(a) + encode_utf8(b));
    }
}

/// A text of two parts stands at a place where the first stands, with the
/// second behind it.
proof fn starts_split(b: Seq<u8>, p: int, x: Seq<char>, y: Seq<char>)
    requires
        0 <= p,
        starts(b, p, encode_utf8(x + y)),
    ensures
        starts(b, p, encode_utf8(x)),
        starts(b, p + encode_utf8(x).len(), encode_utf8(y)),
        encode_utf8(x + y).len() == encode_utf8(x).len() + encode_utf8(y).len(),
{
    encode_concat(x, y);
    let ex = encode_utf8(x);
    let ey = encode_utf8(y);
    let s = b.subrange(p, p + (ex + ey).len());
    assert(b.subrange(p, p + ex.len()) =~= s.subrange(0, ex.len() as int));
    assert(s.subrange(0, ex.len() as int) =~= ex);
    assert(b.subrange(p + ex.len(), p + ex.len() + ey.len()) =~= s.subrange(
        ex.len() as int,
        s.len() as int,
    ));
    assert(s.subrange(ex.len() as int, s.len() as int) =~= ey);
}

/// An ASCII character is its own byte.
proof fn one_byte(c: char)
    requires
        c <= '\u{7f}',
    ensures
        encode_utf8(seq![c]) == seq![c as u8],
{
    let t = seq![c];
    assert(vstd::utf8::is_ascii_chars(t));
    vstd::utf8::is_ascii_chars_encode_utf8(t);
    assert(t[0] == c);
    assert(encode_utf8(t) =~= seq![c as u8]);
}

/// An ASCII character that begins a text is the byte at its place.
proof fn first_byte(b: Seq<u8>, p: int, c: char, y: Seq<char>)
    requires
        0 <= p,
        c <= '\u{7f}',
        starts(b, p, encode_utf8(seq![c] + y)),
    ensures
        byte_at(b, p, c as u8),
        starts(b, p + 1, encode_utf8(y)),
        encode_utf8(seq![c] + y).len() == 1 + encode_utf8(y).len(),
{
    one_byte(c);
    starts_split(b, p, seq![c], y);
    assert(b.subrange(p, p + 1)[0] == b[p]);
}

proof fn digits_run(b: Seq<u8>, p: int)
    requires
        0 <= p <= b.len(),
    ensures
        p <= digits_end(b, p) <= b.len(),
        forall|i: int| p <= i < digits_end(b, p) ==> digit_byte(#[trigger] b[i]),
    decreases b.len() - p,
{
    if p < b.len() && digit_byte(b[p]) {
        digits_run(b, p + 1);
    }
}

/// A number is spelled with number bytes alone.
proof fn spelled_bytes(b: Seq<u8>)
    requires
        spells_number(b),
    ensures
        b.len() > 0,
        forall|i: int| 0 <= i < b.len() ==> number_byte(#[trigger] b[i]),
{
    let p0 = if b.len() > 0 && sign_byte(b[0]) {
        1int
    } else {
        0int
    };
    digits_run(b, p0);
    let p1 = digits_end(b, p0);
    if byte_at(b, p1, 46) {
        digits_run(b, p1 + 1);
    }
    let p2 = if byte_at(b, p1, 46) {
        digits_end(b, p1 + 1)
    } else {
        p1
    };
    if p2 != b.len() {
        let p3 = if p2 + 1 < b.len() && sign_byte(b[p2 + 1]) {
            p2 + 2
        } else {
            p2 + 1
        };
        digits_run(b, p3);
    }
}

proof fn number_run(b: Seq<u8>, p: int, e: int)
    requires
        0 <= p <= e <= b.len(),
        forall|i: int| p <= i < e ==> number_byte(#[trigger] b[i]),
        e == b.len() || !number_byte(b[e]),
    ensures
        number_end(b, p) == e,
    decreases e - p,
{
    if p < e {
        number_run(b, p + 1, e);
    }
}

/// Whether a place ends a number: there is nothing, or what no number is
/// spelled with.
pub open spec fn ends_number(b: Seq<u8>, e: int) -> bool {
    e == b.len() || 0 <= e < b.len() && !number_byte(b[e])
}

proof fn hex_char_read(d: int)
    requires
        0 <= d < 16,
    ensures
        hex_char(d) <= '\u{7f}',
        hex_digit(hex_char(d) as u8) == Some(d as u32),
{
}

proof fn control_char(c: char)
    requires
        (c as u32) < 0x20,
    ensures
        char_of(c as nat) == c,
{
}

proof fn control_read(b: Seq<u8>, p: int, c: char)
    requires
        0 <= p,
        (c as u32) < 0x20,
        starts(
            b,
            p,
            encode_utf8(
                seq!['\\', 'u', '0', '0', hex_char(c as int / 16), hex_char(c as int % 16)],
            ),
        ),
    ensures
        byte_at(b, p, 92),
        byte_at(b, p + 1, 117),
        p + 6 <= b.len(),
        code_point(b.subrange(p + 2, p + 6)) == Some(c as nat),
        encode_utf8(
            seq!['\\', 'u', '0', '0', hex_char(c as int / 16), hex_char(c as int % 16)],
        ).len() == 6,
{
    let hi = hex_char(c as int / 16);
    let lo = hex_char(c as int % 16);
    hex_char_read(c as int / 16);
    hex_char_read(c as int % 16);
    let t = seq!['\\', 'u', '0', '0', hi, lo];
    assert(vstd::utf8::is_ascii_chars(t));
    vstd::utf8::is_ascii_chars_encode_utf8(t);
    let e = encode_utf8(t);
    assert(t[0] as u8 == e[0] && t[1] as u8 == e[1] && t[2] as u8 == e[2] && t[3] as u8 == e[3]
        && t[4] as u8 == e[4] && t[5] as u8 == e[5]);
    let sub = b.subrange(p, p + 6);
    assert(sub[0] == b[p] && sub[1] == b[p + 1]);
    let d = b.subrange(p + 2, p + 6);
    assert(d[0] == sub[2] && d[1] == sub[3] && d[2] == sub[4] && d[3] == sub[5]);
    assert(d =~= seq![48u8, 48u8, hi as u8, lo as u8]);
    let d3 = d.drop_last();
    let d2 = d3.drop_last();
    let d1 = d2.drop_last();
    assert(d1.drop_last() =~= Seq::<u8>::empty());
    assert(hex_value(d1.drop_last()) == Some(0nat));
    assert(hex_value(d1) == Some(0nat));
    assert(hex_value(d2) == Some(0nat));
    assert(hex_value(d3) == Some((c as int / 16) as nat));
    assert(hex_value(d) == Some(c as nat));
}

/// A character that is written as it is is read as it is.
proof fn plain_read(c: char)
    requires
        c != '"',
        c != '\\',
        (c as u32) >= 0x20,
    ensures
        ({
            let e = encode_utf8(seq![c]);
            &&& e.len() > 0
            &&& width(e[0]) == e.len()
            &&& valid_utf8(e)
            &&& decode_utf8(e) == seq![c]
            &&& e[0] != 34
            &&& e[0] != 92
        }),
{
    let t = seq![c];
    let e = encode_utf8(t);
    vstd::utf8::encode_utf8_first_scalar(t);
    vstd::utf8::encode_utf8_valid_utf8(t);
    vstd::utf8::encode_utf8_decode_utf8(t);
    vstd::utf8::char_is_scalar(c);
    assert(t.drop_first() =~= Seq::<char>::empty());
    assert(encode_utf8(t.drop_first()) =~= Seq::<u8>::empty());
    assert(e =~= vstd::utf8::encode_scalar(c as u32));
    if c <= '\u{7f}' {
        one_byte(c);
    }
}

/// A quoted text is read back.
proof fn string_read(b: Seq<u8>, p: int, s: Seq<char>, acc: Seq<char>, short: bool)
    requires
        0 <= p,
        starts(b, p, encode_utf8(esc_text(s, short) + seq!['"'])),
    ensures
        string(b, p, acc) == Ok::<(Seq<char>, int), Seq<char>>(
            (acc + s, p + encode_utf8(esc_text(s, short) + seq!['"']).len()),
        ),
    decreases s.len(),
{
    if s.len() == 0 {
        assert(esc_text(s, short) + seq!['"'] =~= seq!['"'] + Seq::<char>::empty());
        first_byte(b, p, '"', Seq::empty());
        assert(acc + s =~= acc);
    } else {
        let c = s[0];
        let t = s.skip(1);
        let rest = esc_text(t, short) + seq!['"'];
        assert(esc_text(s, short) + seq!['"'] =~= esc(c, short) + rest);
        starts_split(b, p, esc(c, short), rest);
        assert(acc.push(c) + t =~= acc + s);
        let n = encode_utf8(esc(c, short)).len();
        string_read(b, p + n, t, acc.push(c), short);
        if c == '"' || c == '\\' || c == '\n' || c == '\t' || c == '\r' || short && (c == '\u{8}'
            || c == '\u{c}') {
            let x = esc(c, short)[1];
            assert(esc(c, short) =~= seq!['\\'] + seq![x]);
            first_byte(b, p, '\\', seq![x]);
            assert(seq![x] =~= seq![x] + Seq::<char>::empty());
            first_byte(b, p + 1, x, Seq::empty());
            assert(encode_utf8(Seq::<char>::empty()).len() == 0);
            assert(escaped(b[p + 1]) == Some(c));
        } else if (c as u32) < 0x20 {
            control_read(b, p, c);
            assert(escaped(b[p + 1]) is None);
            control_char(c);
        } else {
            plain_read(c);
            let e = encode_utf8(seq![c]);
            assert(b.subrange(p, p + n)[0] == b[p]);
            assert(acc + seq![c] =~= acc.push(c));
        }
    }
}

proof fn quoted_read(b: Seq<u8>, p: int, s: Seq<char>, short: bool)
    requires
        0 <= p,
        starts(b, p, encode_utf8(quoted(s, short))),
    ensures
        value(b, p) == Ok::<(JsonView, int), Seq<char>>(
            (JsonView::Str(s), p + encode_utf8(quoted(s, short)).len()),
        ),
{
    first_byte(b, p, '"', esc_text(s, short) + seq!['"']);
    string_read(b, p + 1, s, Seq::empty(), short);
    assert(Seq::<char>::empty() + s =~= s);
}

/// A value that stands at a place is read there.
proof fn value_read(b: Seq<u8>, p: int, j: JsonView, short: bool)
    requires
        0 <= p,
        numbers_spelled(j),
        starts(b, p, encode_utf8(printed(j, short))),
        ends_number(b, p + encode_utf8(printed(j, short)).len()),
    ensures
        value(b, p) == Ok::<(JsonView, int), Seq<char>>((j, p + encode_utf8(printed(j, short)).len())),
    decreases j, 0int,
{
    words_are_ascii();
    let e = p + encode_utf8(printed(j, short)).len();
    match j {
        JsonView::Null => {
            assert(b.subrange(p, e)[0] == b[p]);
        },
        JsonView::Bool(v) => {
            assert(b.subrange(p, e)[0] == b[p]);
        },
        JsonView::Num(t) => {
            let w = encode_utf8(t);
            spelled_bytes(w);
            assert forall|i: int| p <= i < e implies number_byte(#[trigger] b[i]) by {
                assert(b.subrange(p, e)[i - p] == b[i]);
                assert(number_byte(w[i - p]));
            }
            number_run(b, p, e);
            assert(number_byte(b[p]));
            vstd::utf8::is_ascii_chars_encode_utf8(t);
            assert forall|i: int| 0 <= i < t.len() implies ascii_chars(b.subrange(p, e))[i]
                == t[i] by {
                assert(t[i] as u8 == w[i]);
            }
            assert(ascii_chars(b.subrange(p, e)) =~= t);
        },
        JsonView::Str(s) => {
            quoted_read(b, p, s, short);
        },
        JsonView::Arr(a) => {
            first_byte(b, p, '[', items_text(a, 0, short));
            if a.len() == 0 {
                assert(items_text(a, 0, short) =~= seq![']'] + Seq::<char>::empty());
                first_byte(b, p + 1, ']', Seq::empty());
                assert(encode_utf8(Seq::<char>::empty()).len() == 0);
                assert(a =~= Seq::empty());
            } else {
                let r = printed(a[0], short) + items_text(a, 1, short);
                assert(items_text(a, 0, short) =~= r);
                items_read(b, p + 1, a, 0, short);
                assert(a.take(0) =~= Seq::empty());
                starts_split(b, p + 1, printed(a[0], short), items_text(a, 1, short));
                value_first(b, p + 1, a[0], short);
            }
        },
        JsonView::Obj(o) => {
            first_byte(b, p, '{', members_text(o, 0, short));
            if o.len() == 0 {
                assert(members_text(o, 0, short) =~= seq!['}'] + Seq::<char>::empty());
                first_byte(b, p + 1, '}', Seq::empty());
                assert(encode_utf8(Seq::<char>::empty()).len() == 0);
                assert(o =~= Seq::empty());
            } else {
                let t = seq![':'] + (printed(o[0].1, short) + members_text(o, 1, short));
                assert(members_text(o, 0, short) =~= quoted(o[0].0, short) + t);
                members_read(b, p + 1, o, 0, short);
                assert(o.take(0) =~= Seq::empty());
                starts_split(b, p + 1, quoted(o[0].0, short), t);
                first_byte(b, p + 1, '"', esc_text(o[0].0, short) + seq!['"']);
            }
        },
    }
}

/// A value does not begin with white space or what closes an array.
proof fn value_first(b: Seq<u8>, p: int, j: JsonView, short: bool)
    requires
        0 <= p,
        numbers_spelled(j),
        starts(b, p, encode_utf8(printed(j, short))),
    ensures
        p < b.len(),
        !is_space(b[p]),
        b[p] != 93,
{
    words_are_ascii();
    let w = encode_utf8(printed(j, short));
    match j {
        JsonView::Num(t) => {
            spelled_bytes(w);
            assert(number_byte(w[0]));
        },
        JsonView::Str(s) => {
            first_byte(b, p, '"', esc_text(s, short) + seq!['"']);
        },
        JsonView::Arr(a) => {
            first_byte(b, p, '[', items_text(a, 0, short));
        },
        JsonView::Obj(o) => {
            first_byte(b, p, '{', members_text(o, 0, short));
        },
        _ => {},
    }
    assert(b.subrange(p, p + w.len())[0] == b[p]);
}

/// What follows an item is no part of a number.
proof fn tail_first(b: Seq<u8>, p: int, a: Seq<JsonView>, k: int, short: bool)
    requires
        0 <= p,
        0 < k,
        starts(b, p, encode_utf8(items_text(a, k, short))),
    ensures
        k >= a.len() ==> byte_at(b, p, 93) && encode_utf8(items_text(a, k, short)).len() == 1,
        k < a.len() ==> byte_at(b, p, 44) && starts(
            b,
            p + 1,
            encode_utf8(printed(a[k], short) + items_text(a, k + 1, short)),
        ) && encode_utf8(items_text(a, k, short)).len() == 1 + encode_utf8(
            printed(a[k], short) + items_text(a, k + 1, short),
        ).len(),
{
    if k >= a.len() {
        assert(items_text(a, k, short) =~= seq![']'] + Seq::<char>::empty());
        first_byte(b, p, ']', Seq::empty());
        assert(encode_utf8(Seq::<char>::empty()).len() == 0);
    } else {
        first_byte(b, p, ',', printed(a[k], short) + items_text(a, k + 1, short));
    }
}

proof fn items_read(b: Seq<u8>, p: int, a: Seq<JsonView>, k: int, short: bool)
    requires
        0 <= p,
        0 <= k < a.len(),
        forall|i: int| #![trigger a[i]] 0 <= i < a.len() ==> numbers_spelled(a[i]),
        starts(b, p, encode_utf8(printed(a[k], short) + items_text(a, k + 1, short))),
    ensures
        items(b, p, a.take(k)) == Ok::<(JsonView, int), Seq<char>>(
            (
                JsonView::Arr(a),
                p + encode_utf8(printed(a[k], short) + items_text(a, k + 1, short)).len(),
            ),
        ),
    decreases a, a.len() - k,
{
    let x = printed(a[k], short);
    let y = items_text(a, k + 1, short);
    starts_split(b, p, x, y);
    let r = p + encode_utf8(x).len();
    tail_first(b, r, a, k + 1, short);
    assert(numbers_spelled(a[k]));
    value_read(b, p, a[k], short);
    assert(a.take(k).push(a[k]) =~= a.take(k + 1));
    if k + 1 < a.len() {
        items_read(b, r + 1, a, k + 1, short);
    } else {
        assert(a.take(k + 1) =~= a);
    }
}

proof fn members_tail_first(b: Seq<u8>, p: int, o: Seq<(Seq<char>, JsonView)>, k: int, short: bool)
    requires
        0 <= p,
        0 < k,
        starts(b, p, encode_utf8(members_text(o, k, short))),
    ensures
        k >= o.len() ==> byte_at(b, p, 125) && encode_utf8(members_text(o, k, short)).len() == 1,
        k < o.len() ==> byte_at(b, p, 44) && starts(
            b,
            p + 1,
            encode_utf8(
                quoted(o[k].0, short) + (seq![':'] + (printed(o[k].1, short) + members_text(o, k + 1, short))),
            ),
        ) && encode_utf8(members_text(o, k, short)).len() == 1 + encode_utf8(
            quoted(o[k].0, short) + (seq![':'] + (printed(o[k].1, short) + members_text(o, k + 1, short))),
        ).len(),
{
    if k >= o.len() {
        assert(members_text(o, k, short) =~= seq!['}'] + Seq::<char>::empty());
        first_byte(b, p, '}', Seq::empty());
        assert(encode_utf8(Seq::<char>::empty()).len() == 0);
    } else {
        first_byte(
            b,
            p,
            ',',
            quoted(o[k].0, short) + (seq![':'] + (printed(o[k].1, short) + members_text(o, k + 1, short))),
        );
    }
}

proof fn members_read(b: Seq<u8>, p: int, o: Seq<(Seq<char>, JsonView)>, k: int, short: bool)
    requires
        0 <= p,
        0 <= k < o.len(),
        forall|i: int| #![trigger o[i]] 0 <= i < o.len() ==> numbers_spelled(o[i].1),
        starts(
            b,
            p,
            encode_utf8(
                quoted(o[k].0, short) + (seq![':'] + (printed(o[k].1, short) + members_text(o, k + 1, short))),
            ),
        ),
    ensures
        members(b, p, o.take(k)) == Ok::<(JsonView, int), Seq<char>>(
            (
                JsonView::Obj(o),
                p + encode_utf8(
                    quoted(o[k].0, short) + (seq![':'] + (printed(o[k].1, short) + members_text(o, k + 1, short))),
                ).len(),
            ),
        ),
    decreases o, o.len() - k,
{
    let x = printed(o[k].1, short);
    let y = members_text(o, k + 1, short);
    starts_split(b, p, quoted(o[k].0, short), seq![':'] + (x + y));
    let q = p + encode_utf8(quoted(o[k].0, short)).len();
    quoted_read(b, p, o[k].0, short);
    first_byte(b, q, ':', x + y);
    starts_split(b, q + 1, x, y);
    let r = q + 1 + encode_utf8(x).len();
    members_tail_first(b, r, o, k + 1, short);
    assert(numbers_spelled(o[k].1));
    value_read(b, q + 1, o[k].1, short);
    assert(o.take(k).push(o[k]) =~= o.take(k + 1));
    assert(o[k] == (o[k].0, o[k].1));
    if k + 1 < o.len() {
        members_read(b, r + 1, o, k + 1, short);
    } else {
        assert(o.take(k + 1) =~= o);
    }
}

/// A value that was written as text is read back, with and without the short
/// forms.
pub proof fn json_read_back(j: JsonView, short: bool)
    requires
        numbers_spelled(j),
    ensures
        parsed(printed(j, short)) == Ok::<JsonView, Seq<char>>(j),
{
    let b = encode_utf8(printed(j, short));
    assert(b.subrange(0, b.len() as int) =~= b);
    value_read(b, 0, j, short);
}

} // verus!
