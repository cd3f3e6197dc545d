//! Little-endian integers, varints and length-prefixed strings on byte
//! sequences: the vocabulary every on-disk and on-wire layout is stated in.
//!
//! A `put_*` function appends an encoding to a buffer; a `get_*` function
//! reads one value at a position and moves the position past it. What a
//! reader does is stated on the bytes from the position onwards.
use vstd::prelude::*;
use vstd::utf8::{decode_utf8, encode_utf8, valid_utf8};

verus! {

/// The `n` lowest base-256 digits of `v`, least significant first.
pub open spec fn le(v: nat, n: nat) -> Seq<u8>
    decreases n,
{
    if n == 0 {
        Seq::empty()
    } else {
        seq![(v % 256) as u8] + le(v / 256, (n - 1) as nat)
    }
}

/// The number whose base-256 digits are `s`, least significant first.
pub open spec fn from_le(s: Seq<u8>) -> nat
    decreases s.len(),
{
    if s.len() == 0 {
        0
    } else {
        s[0] as nat + 256 * from_le(s.skip(1))
    }
}

/// `le` writes exactly the digits it was asked for, and `from_le` reads back
/// every number that fits in them.
pub proof fn le_read_back(v: nat, n: nat)
    requires
        n == 2 || n == 4 || n == 8,
        n == 2 ==> v <= 0xffff,
        n == 4 ==> v <= 0xffff_ffff,
        n == 8 ==> v <= 0xffff_ffff_ffff_ffff,
    ensures
        le(v, n).len() == n,
        from_le(le(v, n)) == v,
{
    le_len(v, n);
    reveal_with_fuel(pow256, 9);
    le_digits(v, n);
}

pub proof fn le_len(v: nat, n: nat)
    ensures
        le(v, n).len() == n,
    decreases n,
{
    if n > 0 {
        le_len(v / 256, (n - 1) as nat);
    }
}

/// How many numbers `n` base-256 digits can tell apart.
pub open spec fn pow256(n: nat) -> nat
    decreases n,
{
    if n == 0 { 1 } else { 256 * pow256((n - 1) as nat) }
}

/// `n` digits hold any number below `256^n`.
pub proof fn le_digits(v: nat, n: nat)
    requires
        v < pow256(n),
    ensures
        from_le(le(v, n)) == v,
    decreases n,
{
    le_len(v, n);
    if n > 0 {
        assert(le(v, n).skip(1) =~= le(v / 256, (n - 1) as nat));
        assert(v / 256 < pow256((n - 1) as nat));
        le_digits(v / 256, (n - 1) as nat);
    }
}

/// Writing back a number that was read gives the bytes it was read from.
pub proof fn from_le_write_back(s: Seq<u8>)
    ensures
        le(from_le(s), s.len()) == s,
    decreases s.len(),
{
    if s.len() > 0 {
        from_le_write_back(s.skip(1));
        assert(s =~= seq![s[0]] + s.skip(1));
    } else {
        assert(le(from_le(s), 0) =~= s);
    }
}

/// `le` of a two's-complement 64-bit integer.
pub open spec fn le_i64(v: i64) -> Seq<u8> {
    le(v as u64 as nat, 8)
}

/// A 64-bit pattern and the signed integer it stands for determine each other.
pub proof fn signed_pattern(v: i64, u: u64)
    ensures
        (v as u64) as i64 == v,
        (u as i64) as u64 == u,
        v >= 0 ==> v as u64 == v,
        v < 0 ==> v as u64 == v + 0x1_0000_0000_0000_0000,
        u < 0x8000_0000_0000_0000 ==> u as i64 == u,
        u >= 0x8000_0000_0000_0000 ==> u as i64 == u - 0x1_0000_0000_0000_0000,
{
    assert((v as u64) as i64 == v) by (bit_vector);
    assert((u as i64) as u64 == u) by (bit_vector);
    assert(v < 0 ==> v as u64 == v + 0x1_0000_0000_0000_0000) by (bit_vector);
    assert(u >= 0x8000_0000_0000_0000 ==> u as i64 == u - 0x1_0000_0000_0000_0000) by (bit_vector);
}

/// Concatenation may be grouped either way.
pub proof fn regroup(a: Seq<u8>, b: Seq<u8>, c: Seq<u8>)
    ensures
        (a + b) + c == a + (b + c),
{
    assert((a + b) + c =~= a + (b + c));
}

/// Appends `src[from..to]`.
pub fn put_range(out: &mut Vec<u8>, src: &[u8], from: usize, to: usize)
    requires
        from <= to <= src@.len(),
    ensures
        final(out)@ == old(out)@ + src@.subrange(from as int, to as int),
{
    let mut k: usize = from;
    while k < to
        invariant
            from <= k <= to <= src@.len(),
            out@ == old(out)@ + src@.subrange(from as int, k as int),
        decreases to - k,
    {
        out.push(src[k]);
        k += 1;
        assert(out@ =~= old(out)@ + src@.subrange(from as int, k as int));
    }
    assert(out@ =~= old(out)@ + src@.subrange(from as int, to as int));
}

/// Appends all of `src`.
pub fn put_bytes(out: &mut Vec<u8>, src: &[u8])
    ensures
        final(out)@ == old(out)@ + src@,
{
    put_range(out, src, 0, src.len());
    assert(src@.subrange(0, src@.len() as int) =~= src@);
}

pub fn put_u16(out: &mut Vec<u8>, v: u16)
    ensures
        final(out)@ == old(out)@ + le(v as nat, 2),
{
    out.push((v % 256) as u8);
    out.push((v / 256) as u8);
    proof {
        reveal_with_fuel(le, 3);
        assert(out@ =~= old(out)@ + le(v as nat, 2));
    }
}

pub fn put_u32(out: &mut Vec<u8>, v: u32)
    ensures
        final(out)@ == old(out)@ + le(v as nat, 4),
{
    out.push((v % 256) as u8);
    out.push(((v / 0x100) % 256) as u8);
    out.push(((v / 0x1_0000) % 256) as u8);
    out.push(((v / 0x100_0000) % 256) as u8);
    proof {
        reveal_with_fuel(le, 5);
        assert(out@ =~= old(out)@ + le(v as nat, 4));
    }
}

pub fn put_u64(out: &mut Vec<u8>, v: u64)
    ensures
        final(out)@ == old(out)@ + le(v as nat, 8),
{
    let mut rest: u64 = v;
    let mut k: usize = 0;
    while k < 8
        invariant
            k <= 8,
            old(out)@ + le(v as nat, 8) == out@ + le(rest as nat, (8 - k) as nat),
        decreases 8 - k,
    {
        let ghost tail = le((rest / 256) as nat, (7 - k) as nat);
        assert(out@ + (seq![(rest % 256) as u8] + tail) =~= out@.push((rest % 256) as u8) + tail);
        out.push((rest % 256) as u8);
        rest = rest / 256;
        k += 1;
    }
    assert(out@ + le(rest as nat, 0) =~= out@);
}

pub fn put_i64(out: &mut Vec<u8>, v: i64)
    ensures
        final(out)@ == old(out)@ + le_i64(v),
{
    put_u64(out, #[verifier::truncate] (v as u64));
}

/// Reads two bytes at `at`.
pub fn u16_at(buf: &[u8], at: usize) -> (v: u16)
    requires
        at + 2 <= buf@.len(),
    ensures
        v == from_le(buf@.subrange(at as int, at + 2)),
{
    proof {
        let s = buf@.subrange(at as int, at + 2);
        reveal_with_fuel(from_le, 3);
        assert(s.skip(1)[0] == s[1]);
        assert(s.skip(1).skip(1).len() == 0);
    }
    buf[at] as u16 + 256 * buf[at + 1] as u16
}

/// Reads four bytes at `at`.
pub fn u32_at(buf: &[u8], at: usize) -> (v: u32)
    requires
        at + 4 <= buf@.len(),
    ensures
        v == from_le(buf@.subrange(at as int, at + 4)),
{
    let n: usize = buf.len();
    assert(at + 4 <= n);
    let lo: u32 = u16_at(buf, at) as u32;
    let hi: u32 = u16_at(buf, at + 2) as u32;
    proof {
        let s = buf@.subrange(at as int, at + 4);
        reveal_with_fuel(from_le, 5);
        assert(s.subrange(0, 2) =~= buf@.subrange(at as int, at + 2));
        assert(s.skip(1).skip(1) =~= buf@.subrange(at + 2, at + 4));
        assert(buf@.subrange(at as int, at + 2).skip(1).skip(1).len() == 0);
    }
    lo + 0x1_0000 * hi
}

/// Reads eight bytes at `at`.
pub fn u64_at(buf: &[u8], at: usize) -> (v: u64)
    requires
        at + 8 <= buf@.len(),
    ensures
        v == from_le(buf@.subrange(at as int, at + 8)),
{
    let n: usize = buf.len();
    assert(at + 8 <= n);
    let lo: u64 = u32_at(buf, at) as u64;
    let hi: u64 = u32_at(buf, at + 4) as u64;
    proof {
        let s = buf@.subrange(at as int, at + 8);
        let a = buf@.subrange(at as int, at + 4);
        reveal_with_fuel(from_le, 5);
        assert(a.skip(1).skip(1).skip(1).skip(1).len() == 0);
        assert(s.skip(1).skip(1).skip(1).skip(1) =~= buf@.subrange(at + 4, at + 8));
    }
    lo + 0x1_0000_0000 * hi
}

// ---------------------------------------------------------------------------
// Readers that move a position
// ---------------------------------------------------------------------------

/// One byte off the front of `s`.
pub open spec fn rd_u8(s: Seq<u8>) -> Option<(u8, Seq<u8>)> {
    if s.len() < 1 { None } else { Some((s[0], s.skip(1))) }
}

pub open spec fn rd_u32(s: Seq<u8>) -> Option<(u32, Seq<u8>)> {
    if s.len() < 4 { None } else { Some((from_le(s.take(4)) as u32, s.skip(4))) }
}

pub open spec fn rd_u64(s: Seq<u8>) -> Option<(u64, Seq<u8>)> {
    if s.len() < 8 { None } else { Some((from_le(s.take(8)) as u64, s.skip(8))) }
}

pub open spec fn rd_i64(s: Seq<u8>) -> Option<(i64, Seq<u8>)> {
    match rd_u64(s) {
        None => None,
        Some((u, rest)) => Some((u as i64, rest)),
    }
}

/// A `u32` byte count, then that many bytes.
pub open spec fn rd_bytes(s: Seq<u8>) -> Option<(Seq<u8>, Seq<u8>)> {
    match rd_u32(s) {
        None => None,
        Some((n, rest)) => if rest.len() < n {
            None
        } else {
            Some((rest.take(n as int), rest.skip(n as int)))
        },
    }
}

/// A `u32` byte count, then that many bytes of UTF-8.
pub open spec fn rd_str(s: Seq<u8>) -> Option<(Seq<char>, Seq<u8>)> {
    match rd_bytes(s) {
        None => None,
        Some((b, rest)) => if valid_utf8(b) { Some((decode_utf8(b), rest)) } else { None },
    }
}

/// The encoding `rd_str` reads.
pub open spec fn wr_str(s: Seq<char>) -> Seq<u8> {
    le(encode_utf8(s).len(), 4) + encode_utf8(s)
}

/// What a reader that is at `before` in `buf` and ends at `after` must do when
/// the layout says `want`: deliver its value and stand at its rest, or fail
/// without moving.
pub open spec fn reads<T>(
    buf: Seq<u8>,
    before: usize,
    after: usize,
    got: Option<T>,
    want: Option<(T, Seq<u8>)>,
) -> bool {
    &&& after <= buf.len()
    &&& match want {
        Some((v, rest)) => got == Some(v) && buf.skip(after as int) == rest && before <= after,
        None => got is None && after == before,
    }
}

pub fn get_u8(buf: &[u8], pos: &mut usize) -> (r: Option<u8>)
    requires
        *old(pos) <= buf@.len(),
    ensures
        reads(buf@, *old(pos), *final(pos), r, rd_u8(buf@.skip(*old(pos) as int))),
{
    if *pos >= buf.len() {
        return None;
    }
    let v: u8 = buf[*pos];
    *pos = *pos + 1;
    assert(buf@.skip(*old(pos) as int).skip(1) =~= buf@.skip(*pos as int));
    Some(v)
}

pub fn get_u32(buf: &[u8], pos: &mut usize) -> (r: Option<u32>)
    requires
        *old(pos) <= buf@.len(),
    ensures
        reads(buf@, *old(pos), *final(pos), r, rd_u32(buf@.skip(*old(pos) as int))),
{
    if buf.len() - *pos < 4 {
        return None;
    }
    let v: u32 = u32_at(buf, *pos);
    assert(buf@.skip(*pos as int).take(4) =~= buf@.subrange(*pos as int, *pos + 4));
    *pos = *pos + 4;
    assert(buf@.skip(*old(pos) as int).skip(4) =~= buf@.skip(*pos as int));
    Some(v)
}

pub fn get_u64(buf: &[u8], pos: &mut usize) -> (r: Option<u64>)
    requires
        *old(pos) <= buf@.len(),
    ensures
        reads(buf@, *old(pos), *final(pos), r, rd_u64(buf@.skip(*old(pos) as int))),
{
    if buf.len() - *pos < 8 {
        return None;
    }
    let v: u64 = u64_at(buf, *pos);
    assert(buf@.skip(*pos as int).take(8) =~= buf@.subrange(*pos as int, *pos + 8));
    *pos = *pos + 8;
    assert(buf@.skip(*old(pos) as int).skip(8) =~= buf@.skip(*pos as int));
    Some(v)
}

pub fn get_i64(buf: &[u8], pos: &mut usize) -> (r: Option<i64>)
    requires
        *old(pos) <= buf@.len(),
    ensures
        reads(buf@, *old(pos), *final(pos), r, rd_i64(buf@.skip(*old(pos) as int))),
{
    match get_u64(buf, pos) {
        None => None,
        Some(u) => {
            let v: i64 = #[verifier::truncate] (u as i64);
            Some(v)
        },
    }
}

/// Copies `buf[from..to]`.
pub fn copy_range(buf: &[u8], from: usize, to: usize) -> (r: Vec<u8>)
    requires
        from <= to <= buf@.len(),
    ensures
        r@ == buf@.subrange(from as int, to as int),
{
    let mut out: Vec<u8> = Vec::new();
    put_range(&mut out, buf, from, to);
    assert(out@ =~= buf@.subrange(from as int, to as int));
    out
}

pub fn get_bytes(buf: &[u8], pos: &mut usize) -> (r: Option<Vec<u8>>)
    requires
        *old(pos) <= buf@.len(),
    ensures
        *final(pos) <= buf@.len(),
        match rd_bytes(buf@.skip(*old(pos) as int)) {
            Some((b, rest)) => r is Some && r->0@ == b && buf@.skip(*final(pos) as int) == rest
                && *old(pos) <= *final(pos),
            None => r is None,
        },
{
    match get_u32(buf, pos) {
        None => None,
        Some(n) => {
            let n: usize = n as usize;
            if buf.len() - *pos < n {
                return None;
            }
            let b: Vec<u8> = copy_range(buf, *pos, *pos + n);
            let ghost rest = buf@.skip(*pos as int);
            assert(rest.take(n as int) =~= b@);
            *pos = *pos + n;
            assert(rest.skip(n as int) =~= buf@.skip(*pos as int));
            Some(b)
        },
    }
}

/// `String::from_utf8`: succeeds exactly on valid UTF-8, and the string then
/// holds the characters those bytes encode.
#[verifier::external_body]
pub(crate) fn string_from_utf8(bytes: Vec<u8>) -> (r: Option<String>)
    ensures
        r is Some <==> valid_utf8(bytes@),
        r matches Some(s) ==> s@ == decode_utf8(bytes@),
{
    String::from_utf8(bytes).ok()
}

pub fn get_str(buf: &[u8], pos: &mut usize) -> (r: Option<String>)
    requires
        *old(pos) <= buf@.len(),
    ensures
        *final(pos) <= buf@.len(),
        match rd_str(buf@.skip(*old(pos) as int)) {
            Some((s, rest)) => r is Some && r->0@ == s && buf@.skip(*final(pos) as int) == rest
                && *old(pos) <= *final(pos),
            None => r is None,
        },
{
    match get_bytes(buf, pos) {
        None => None,
        Some(b) => string_from_utf8(b),
    }
}

/// `n` digits say nothing about multiples of `256^n`.
proof fn le_drops(w: nat, q: nat, n: nat)
    ensures
        le(w + pow256(n) * q, n) == le(w, n),
    decreases n,
{
    if n > 0 {
        let t = pow256((n - 1) as nat) * q;
        assert((256 * pow256((n - 1) as nat)) * q == 256 * t) by (nonlinear_arith)
            requires
                t == pow256((n - 1) as nat) * q,
        ;
        assert((w + 256 * t) % 256 == w % 256);
        assert((w + 256 * t) / 256 == w / 256 + t);
        le_drops(w / 256, q, (n - 1) as nat);
    }
}

/// Four digits hold a number modulo `2^32`.
pub proof fn le_wraps(v: nat)
    ensures
        le(v % 0x1_0000_0000, 4) == le(v, 4),
{
    reveal_with_fuel(pow256, 5);
    let q = v / 0x1_0000_0000;
    assert(pow256(4) * q == 0x1_0000_0000 * q) by (nonlinear_arith)
        requires
            pow256(4) == 0x1_0000_0000,
    ;
    le_drops(v % 0x1_0000_0000, v / 0x1_0000_0000, 4);
}

/// Appends a length in four bytes.
pub fn put_len32(out: &mut Vec<u8>, n: usize)
    ensures
        final(out)@ == old(out)@ + le(n as nat, 4),
{
    proof {
        le_wraps(n as nat);
    }
    put_u32(out, (n as u64 % 0x1_0000_0000) as u32);
}

/// Appends a text behind its length.
pub fn put_str(out: &mut Vec<u8>, s: &str)
    ensures
        final(out)@ == old(out)@ + wr_str(s@),
{
    let b: &[u8] = s.as_bytes();
    put_len32(out, b.len());
    put_bytes(out, b);
    assert(out@ =~= old(out)@ + wr_str(s@));
}

// ---------------------------------------------------------------------------
// Lists
// ---------------------------------------------------------------------------

/// The encodings of `items` one after another.
pub open spec fn wr_list<T>(items: Seq<T>, enc: spec_fn(T) -> Seq<u8>) -> Seq<u8>
    decreases items.len(),
{
    if items.len() == 0 {
        Seq::empty()
    } else {
        enc(items[0]) + wr_list(items.skip(1), enc)
    }
}

/// `n` values read one after another.
pub open spec fn rd_list<T>(
    s: Seq<u8>,
    n: nat,
    rd: spec_fn(Seq<u8>) -> Option<(T, Seq<u8>)>,
) -> Option<(Seq<T>, Seq<u8>)>
    decreases n,
{
    if n == 0 {
        Some((Seq::empty(), s))
    } else {
        match rd(s) {
            None => None,
            Some((x, r)) => match rd_list(r, (n - 1) as nat, rd) {
                None => None,
                Some((xs, rest)) => Some((seq![x] + xs, rest)),
            },
        }
    }
}

/// `got`, followed by what `sub` reads, is what `want` reads.
pub open spec fn continues<T>(
    want: Option<(Seq<T>, Seq<u8>)>,
    got: Seq<T>,
    sub: Option<(Seq<T>, Seq<u8>)>,
) -> bool {
    match sub {
        None => want is None,
        Some((xs, rest)) => want == Some((got + xs, rest)),
    }
}

/// One more item read from the rest.
pub proof fn continues_step<T>(
    want: Option<(Seq<T>, Seq<u8>)>,
    got: Seq<T>,
    s: Seq<u8>,
    n: nat,
    rd: spec_fn(Seq<u8>) -> Option<(T, Seq<u8>)>,
)
    requires
        n > 0,
        continues(want, got, rd_list(s, n, rd)),
    ensures
        rd(s) is None ==> want is None,
        rd(s) matches Some((x, r)) ==> continues(
            want,
            got.push(x),
            rd_list(r, (n - 1) as nat, rd),
        ),
{
    if let Some((x, r)) = rd(s) {
        if let Some((xs, rest)) = rd_list(r, (n - 1) as nat, rd) {
            assert(got + (seq![x] + xs) =~= got.push(x) + xs);
        }
    }
}

pub proof fn wr_list_push<T>(items: Seq<T>, x: T, enc: spec_fn(T) -> Seq<u8>)
    ensures
        wr_list(items.push(x), enc) == wr_list(items, enc) + enc(x),
    decreases items.len(),
{
    let t = items.push(x);
    if items.len() == 0 {
        assert(t.skip(1) =~= Seq::<T>::empty());
        reveal_with_fuel(wr_list, 2);
        assert(wr_list(t, enc) =~= wr_list(items, enc) + enc(x));
    } else {
        assert(t.skip(1) =~= items.skip(1).push(x));
        wr_list_push(items.skip(1), x, enc);
        assert(wr_list(t, enc) =~= wr_list(items, enc) + enc(x));
    }
}

/// A list of items that are each read back is read back.
pub proof fn list_read_back<T>(
    items: Seq<T>,
    enc: spec_fn(T) -> Seq<u8>,
    rd: spec_fn(Seq<u8>) -> Option<(T, Seq<u8>)>,
    rest: Seq<u8>,
)
    requires
        forall|k: int, r: Seq<u8>|
            0 <= k < items.len() ==> #[trigger] rd(enc(items[k]) + r) == Some((items[k], r)),
    ensures
        rd_list(wr_list(items, enc) + rest, items.len(), rd) == Some((items, rest)),
    decreases items.len(),
{
    if items.len() == 0 {
        assert(wr_list(items, enc) + rest =~= rest);
        assert(items =~= Seq::<T>::empty());
    } else {
        let t = items.skip(1);
        assert forall|k: int, r: Seq<u8>| 0 <= k < t.len() implies #[trigger] rd(enc(t[k]) + r)
            == Some((t[k], r)) by {
            assert(t[k] == items[k + 1]);
        }
        list_read_back(t, enc, rd, rest);
        assert(wr_list(items, enc) + rest =~= enc(items[0]) + (wr_list(t, enc) + rest));
        assert(items =~= seq![items[0]] + t);
    }
}

// ---------------------------------------------------------------------------
// What was written is read back
// ---------------------------------------------------------------------------

pub proof fn u32_read_back(v: u32, rest: Seq<u8>)
    ensures
        rd_u32(le(v as nat, 4) + rest) == Some((v, rest)),
{
    le_read_back(v as nat, 4);
    assert((le(v as nat, 4) + rest).take(4) =~= le(v as nat, 4));
    assert((le(v as nat, 4) + rest).skip(4) =~= rest);
}

pub proof fn u64_read_back(v: u64, rest: Seq<u8>)
    ensures
        rd_u64(le(v as nat, 8) + rest) == Some((v, rest)),
{
    le_read_back(v as nat, 8);
    assert((le(v as nat, 8) + rest).take(8) =~= le(v as nat, 8));
    assert((le(v as nat, 8) + rest).skip(8) =~= rest);
}

pub proof fn i64_read_back(v: i64, rest: Seq<u8>)
    ensures
        rd_i64(le_i64(v) + rest) == Some((v, rest)),
{
    u64_read_back(v as u64, rest);
    signed_pattern(v, 0);
}

pub proof fn str_read_back(s: Seq<char>, rest: Seq<u8>)
    requires
        encode_utf8(s).len() <= u32::MAX,
    ensures
        rd_str(wr_str(s) + rest) == Some((s, rest)),
{
    let b = encode_utf8(s);
    assert(wr_str(s) + rest =~= le(b.len(), 4) + (b + rest));
    u32_read_back(b.len() as u32, b + rest);
    assert((b + rest).take(b.len() as int) =~= b);
    assert((b + rest).skip(b.len() as int) =~= rest);
    vstd::utf8::encode_utf8_valid_utf8(s);
    vstd::utf8::encode_utf8_decode_utf8(s);
}

} // verus!
