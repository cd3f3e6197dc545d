//! LZ4 block codec: a greedy hash-table matcher that writes spec-compatible
//! blocks behind a four-byte length, and the matching decoder.
//!
//! A block is a run of sequences. Each one is a token byte, literals copied
//! as they are, and a match: a distance back into the output and a length to
//! copy from there. The last sequence has literals only.
use crate::wire::{from_le, le, le_read_back, put_range, put_u16, put_u32, u16_at, u32_at};
use vstd::prelude::*;

verus! {

pub const MIN_MATCH: usize = 4;

pub const TABLE_SIZE: usize = 65536;

// ---------------------------------------------------------------------------
// The block format
// ---------------------------------------------------------------------------

/// A length beyond a token's nibble: bytes of 255, then one below 255.
pub open spec fn len_bytes(l: nat) -> Seq<u8>
    decreases l,
{
    if l >= 255 {
        seq![255u8] + len_bytes((l - 255) as nat)
    } else {
        seq![l as u8]
    }
}

/// The nibble that stands for a length in a token.
pub open spec fn nibble(l: nat) -> nat {
    if l >= 15 { 15 } else { l }
}

/// The bytes that complete the length whose nibble is in the token.
pub open spec fn len_ext(l: nat) -> Seq<u8> {
    if l >= 15 { len_bytes((l - 15) as nat) } else { Seq::empty() }
}

/// A sequence with literals `lits` and a match of `ml` bytes, `off` bytes back.
pub open spec fn sequence(lits: Seq<u8>, off: nat, ml: nat) -> Seq<u8> {
    seq![(nibble(lits.len()) * 16 + nibble((ml - 4) as nat)) as u8] + len_ext(lits.len()) + lits
        + le(off, 2) + len_ext((ml - 4) as nat)
}

/// The closing sequence.
pub open spec fn last_sequence(lits: Seq<u8>) -> Seq<u8> {
    seq![(nibble(lits.len()) * 16) as u8] + len_ext(lits.len()) + lits
}

/// Sums the bytes of a `len_bytes` encoding at the front of `s`.
pub open spec fn rd_len_bytes(s: Seq<u8>) -> Option<(nat, Seq<u8>)>
    decreases s.len(),
{
    if s.len() == 0 {
        None
    } else if s[0] == 255 {
        match rd_len_bytes(s.skip(1)) {
            None => None,
            Some((l, rest)) => Some((l + 255, rest)),
        }
    } else {
        Some((s[0] as nat, s.skip(1)))
    }
}

/// The length that a token's nibble and the bytes after it stand for.
pub open spec fn rd_len(nib: nat, s: Seq<u8>) -> Option<(nat, Seq<u8>)> {
    if nib == 15 {
        match rd_len_bytes(s) {
            None => None,
            Some((l, rest)) => Some((l + 15, rest)),
        }
    } else {
        Some((nib, s))
    }
}

/// `out` after `n` bytes were copied one by one from `off` bytes back.
pub open spec fn copy_match(out: Seq<u8>, off: nat, n: nat) -> Seq<u8>
    decreases n,
{
    if n == 0 {
        out
    } else {
        copy_match(out.push(out[out.len() - off]), off, (n - 1) as nat)
    }
}

/// What a run of sequences decodes to.
pub enum Decoded {
    Done(Seq<u8>),
    /// A match reaches back before the start of the output.
    BadOffset,
    /// The bytes end inside a sequence.
    Truncated,
}

/// Decodes the sequences `s` onto what has been decoded so far.
pub open spec fn decode(s: Seq<u8>, out: Seq<u8>) -> Decoded
    decreases s.len(),
    via decode_shrinks
{
    if s.len() == 0 {
        Decoded::Done(out)
    } else {
        match rd_len((s[0] / 16) as nat, s.skip(1)) {
            None => Decoded::Truncated,
            Some((lit, s1)) => if s1.len() < lit {
                Decoded::Truncated
            } else {
                let out1 = out + s1.take(lit as int);
                let s2 = s1.skip(lit as int);
                if s2.len() == 0 {
                    Decoded::Done(out1)
                } else if s2.len() < 2 {
                    Decoded::Truncated
                } else {
                    let off = from_le(s2.take(2));
                    match rd_len((s[0] % 16) as nat, s2.skip(2)) {
                        None => Decoded::Truncated,
                        Some((ml, s3)) => if off == 0 || off > out1.len() {
                            Decoded::BadOffset
                        } else {
                            decode(s3, copy_match(out1, off, ml + 4))
                        },
                    }
                }
            },
        }
    }
}

#[via_fn]
proof fn decode_shrinks(s: Seq<u8>, out: Seq<u8>) {
    if s.len() > 0 {
        rd_len_shrinks((s[0] / 16) as nat, s.skip(1));
        if let Some((lit, s1)) = rd_len((s[0] / 16) as nat, s.skip(1)) {
            if s1.len() >= lit && s1.skip(lit as int).len() >= 2 {
                rd_len_shrinks((s[0] % 16) as nat, s1.skip(lit as int).skip(2));
            }
        }
    }
}

proof fn rd_len_bytes_shrinks(s: Seq<u8>)
    ensures
        rd_len_bytes(s) matches Some((l, rest)) ==> rest.len() < s.len(),
    decreases s.len(),
{
    if s.len() > 0 {
        rd_len_bytes_shrinks(s.skip(1));
    }
}

proof fn rd_len_shrinks(nib: nat, s: Seq<u8>)
    ensures
        rd_len(nib, s) matches Some((l, rest)) ==> rest.len() <= s.len(),
{
    rd_len_bytes_shrinks(s);
}

// ---------------------------------------------------------------------------
// The matcher
// ---------------------------------------------------------------------------

/// The four bytes at `i` as a number.
pub open spec fn word(src: Seq<u8>, i: int) -> nat {
    from_le(src.subrange(i, i + 4))
}

/// The table slot of a four-byte word: the upper half of its product with a
/// constant, modulo `2^32`.
pub open spec fn slot(w: nat) -> nat {
    ((w * 2654435761) % 0x1_0000_0000) / 0x1_0000
}

/// How far the bytes at `cand` and `i` agree, from `ml` bytes on, with the
/// last five bytes of the source left out.
pub open spec fn match_len(src: Seq<u8>, cand: int, i: int, ml: nat) -> nat
    decreases src.len() - i - ml,
{
    if i + ml < src.len() - 5 && src[cand + ml] == src[i + ml] {
        match_len(src, cand, i, ml + 1)
    } else {
        ml
    }
}

/// Whether position `i` continues with a match at `cand`.
pub open spec fn matches_at(src: Seq<u8>, cand: int, i: int) -> bool {
    &&& cand < i
    &&& i - cand <= 0xffff
    &&& word(src, cand) == word(src, i)
}

/// The sequences written for `src` from position `i` on, where the bytes from
/// `anchor` to `i` are pending literals and `table` holds, for each slot, the
/// last position looked at whose word falls into it.
pub open spec fn greedy(src: Seq<u8>, table: Seq<u32>, i: int, anchor: int) -> Seq<u8>
    decreases src.len() - i,
    via greedy_advances
{
    if i >= src.len() - 12 {
        last_sequence(src.skip(anchor))
    } else {
        let h = slot(word(src, i)) as int;
        let cand = table[h] as int;
        let t = table.update(h, i as u32);
        if matches_at(src, cand, i) {
            let ml = match_len(src, cand, i, 4);
            sequence(src.subrange(anchor, i), (i - cand) as nat, ml) + greedy(
                src,
                t,
                i + ml,
                i + ml,
            )
        } else {
            greedy(src, t, i + 1, anchor)
        }
    }
}

#[via_fn]
proof fn greedy_advances(src: Seq<u8>, table: Seq<u32>, i: int, anchor: int) {
    if i < src.len() - 12 {
        match_len_bounds(src, table[slot(word(src, i)) as int] as int, i, 4);
    }
}

/// A match never reaches into the last five bytes, and its bytes agree.
proof fn match_len_bounds(src: Seq<u8>, cand: int, i: int, ml: nat)
    requires
        i + ml <= src.len() - 5,
    ensures
        ml <= match_len(src, cand, i, ml),
        i + match_len(src, cand, i, ml) <= src.len() - 5,
        forall|k: int|
            ml <= k < match_len(src, cand, i, ml) ==> src[cand + k] == #[trigger] src[i + k],
    decreases src.len() - i - ml,
{
    if i + ml < src.len() - 5 && src[cand + ml] == src[i + ml] {
        match_len_bounds(src, cand, i, ml + 1);
    }
}

/// The compressed form of `src`: its length in four bytes, then its block.
pub open spec fn compressed(src: Seq<u8>) -> Seq<u8> {
    le(src.len(), 4) + greedy(src, Seq::new(TABLE_SIZE as nat, |k: int| 0u32), 0, 0)
}

/// What decompression returns.
pub open spec fn decompressed(src: Seq<u8>) -> Result<Seq<u8>, Seq<char>> {
    if src.len() < 4 {
        Err("short"@)
    } else {
        match decode(src.skip(4), Seq::empty()) {
            Decoded::Done(out) => if out.len() != from_le(src.take(4)) {
                Err("length mismatch"@)
            } else {
                Ok(out)
            },
            _ => Err("bad offset"@),
        }
    }
}

/// Whether every sequence of a compressed form is complete.
pub open spec fn complete(src: Seq<u8>) -> bool {
    src.len() >= 4 ==> !(decode(src.skip(4), Seq::empty()) is Truncated)
}

// ---------------------------------------------------------------------------
// Executable codec
// ---------------------------------------------------------------------------

#[inline]
fn hash(seq: u32) -> (h: usize)
    ensures
        h == slot(seq as nat),
        h < TABLE_SIZE,
{
    let p: u32 = seq.wrapping_mul(2654435761);
    assert(p >> 16 == p / 0x1_0000) by (bit_vector);
    (p >> 16) as usize
}

#[inline]
fn read_u32(b: &[u8], i: usize) -> (w: u32)
    requires
        i + 4 <= b@.len(),
    ensures
        w == word(b@, i as int),
{
    u32_at(b, i)
}

fn put_len(out: &mut Vec<u8>, l: usize)
    ensures
        final(out)@ == old(out)@ + len_bytes(l as nat),
{
    let mut l: usize = l;
    let ghost whole = out@ + len_bytes(l as nat);
    while l >= 255
        invariant
            out@ + len_bytes(l as nat) == whole,
        decreases l,
    {
        assert(out@ + len_bytes(l as nat) =~= out@.push(255u8) + len_bytes((l - 255) as nat));
        out.push(255);
        l -= 255;
    }
    out.push(l as u8);
    assert(out@ =~= whole);
}

/// Appends a token and its literals' length and bytes.
fn put_literals(out: &mut Vec<u8>, src: &[u8], from: usize, to: usize, match_nibble: u8)
    requires
        from <= to <= src@.len(),
        match_nibble <= 15,
    ensures
        ({
            let lits = src@.subrange(from as int, to as int);
            final(out)@ == old(out)@ + (seq![(nibble(lits.len()) * 16 + match_nibble) as u8]
                + len_ext(lits.len()) + lits)
        }),
{
    let lit: usize = to - from;
    let token_lit: u8 = if lit >= 15 { 15 } else { lit as u8 };
    out.push(token_lit * 16 + match_nibble);
    if lit >= 15 {
        put_len(out, lit - 15);
    }
    put_range(out, src, from, to);
    proof {
        let lits = src@.subrange(from as int, to as int);
        assert(out@ =~= old(out)@ + (seq![(nibble(lits.len()) * 16 + match_nibble) as u8]
            + len_ext(lits.len()) + lits));
    }
}

/// Extends a match of four bytes as far as it goes.
fn extend_match(src: &[u8], cand: usize, i: usize) -> (ml: usize)
    requires
        cand < i,
        i + 12 < src@.len(),
    ensures
        ml == match_len(src@, cand as int, i as int, 4),
        4 <= ml,
        i + ml <= src@.len() - 5,
{
    let len: usize = src.len();
    let max: usize = len - 5 - i;
    let mut ml: usize = MIN_MATCH;
    while ml < max && src[cand + ml] == src[i + ml]
        invariant
            cand < i,
            4 <= ml <= max,
            max == src@.len() - 5 - i,
            len == src@.len(),
            match_len(src@, cand as int, i as int, ml as nat) == match_len(
                src@,
                cand as int,
                i as int,
                4,
            ),
        decreases max - ml,
    {
        ml += 1;
    }
    ml
}

/// Compresses `src` into one LZ4 block behind its length.
pub fn compress_prepend_size(src: &[u8]) -> (out: Vec<u8>)
    requires
        src@.len() <= u32::MAX,
    ensures
        out@ == compressed(src@),
{
    let mut out: Vec<u8> = Vec::new();
    put_u32(&mut out, src.len() as u32);
    let mut table: Vec<u32> = vec![0u32; TABLE_SIZE];
    let mut i: usize = 0;
    let mut anchor: usize = 0;
    let ghost t0 = Seq::new(TABLE_SIZE as nat, |k: int| 0u32);
    assert(table@ =~= t0);
    assert(out@ =~= le(src@.len(), 4));
    while src.len() >= 12 && i < src.len() - 12
        invariant
            src@.len() <= u32::MAX,
            anchor <= i,
            i <= src@.len() - 5 || (i == 0 && anchor == 0),
            table@.len() == TABLE_SIZE,
            forall|k: int| 0 <= k < TABLE_SIZE ==> #[trigger] table@[k] <= i,
            out@ + greedy(src@, table@, i as int, anchor as int) == compressed(src@),
        decreases src@.len() - i,
    {
        let ghost before = out@;
        let ghost table_before = table@;
        let w: u32 = read_u32(src, i);
        let h: usize = hash(w);
        let cand: usize = table[h] as usize;
        table.set(h, i as u32);
        if i > cand && i - cand <= 0xFFFF && read_u32(src, cand) == w {
            let ml: usize = extend_match(src, cand, i);
            let extra: usize = ml - MIN_MATCH;
            let token_match: u8 = if extra >= 15 { 15 } else { extra as u8 };
            put_literals(&mut out, src, anchor, i, token_match);
            put_u16(&mut out, (i - cand) as u16);
            if extra >= 15 {
                put_len(&mut out, extra - 15);
            }
            proof {
                let lits = src@.subrange(anchor as int, i as int);
                let seq1 = sequence(lits, (i - cand) as nat, ml as nat);
                assert(out@ =~= before + seq1);
                assert(matches_at(src@, cand as int, i as int));
                let rest = greedy(src@, table@, i + ml, i + ml);
                assert(before + (seq1 + rest) =~= (before + seq1) + rest);
            }
            i += ml;
            anchor = i;
        } else {
            assert(!matches_at(src@, cand as int, i as int));
            i += 1;
        }
    }
    let ghost before = out@;
    put_literals(&mut out, src, anchor, src.len(), 0);
    proof {
        assert(src@.subrange(anchor as int, src@.len() as int) =~= src@.skip(anchor as int));
        assert(out@ =~= before + last_sequence(src@.skip(anchor as int)));
    }
    out
}

/// Reads the length that nibble `nib` and the bytes at `i` stand for.
fn get_len(nib: u8, src: &[u8], i: &mut usize) -> (r: Option<u128>)
    requires
        nib <= 15,
        *old(i) <= src@.len(),
    ensures
        *old(i) <= *final(i) <= src@.len() <= usize::MAX,
        r matches Some(l) ==> l <= 15 + 255 * src@.len(),
        match rd_len(nib as nat, src@.skip(*old(i) as int)) {
            None => r is None,
            Some((l, rest)) => r is Some && r->0 == l && src@.skip(*final(i) as int) == rest,
        },
{
    let len: usize = src.len();
    if nib < 15 {
        return Some(nib as u128);
    }
    let mut l: u128 = 15;
    let ghost want = rd_len_bytes(src@.skip(*i as int));
    while *i < len
        invariant
            *old(i) <= *i <= src@.len(),
            len == src@.len(),
            nib == 15,
            want == rd_len_bytes(src@.skip(*old(i) as int)),
            15 <= l <= 15 + 255 * (*i - *old(i)),
            match rd_len_bytes(src@.skip(*i as int)) {
                None => want is None,
                Some((x, rest)) => want == Some(((x + l - 15) as nat, rest)),
            },
        decreases src@.len() - *i,
    {
        let b: u8 = src[*i];
        assert(src@.skip(*i as int).skip(1) =~= src@.skip(*i + 1));
        *i = *i + 1;
        l = l + b as u128;
        if b != 255 {
            return Some(l);
        }
    }
    None
}

/// Appends `n` bytes copied one by one from `off` bytes back.
fn copy_back(out: &mut Vec<u8>, off: usize, n: u128)
    requires
        0 < off <= old(out)@.len(),
    ensures
        final(out)@ == copy_match(old(out)@, off as nat, n as nat),
{
    let mut k: u128 = 0;
    while k < n
        invariant
            0 < off <= out@.len(),
            k <= n,
            copy_match(out@, off as nat, (n - k) as nat) == copy_match(
                old(out)@,
                off as nat,
                n as nat,
            ),
        decreases n - k,
    {
        let b: u8 = out[out.len() - off];
        out.push(b);
        k = k + 1;
    }
}

/// Whether an executable result is the one the specification names.
pub open spec fn yields(r: Result<Vec<u8>, &'static str>, want: Result<Seq<u8>, Seq<char>>) -> bool {
    match (r, want) {
        (Ok(v), Ok(s)) => v@ == s,
        (Err(e), Err(m)) => e@ == m,
        _ => false,
    }
}

/// Decompresses, or returns nothing where the bytes end inside a sequence.
#[verifier::rlimit(40)]
pub fn try_decompress(src: &[u8]) -> (r: Option<Result<Vec<u8>, &'static str>>)
    ensures
        r is Some <==> complete(src@),
        r matches Some(d) ==> yields(d, decompressed(src@)),
{
    if src.len() < 4 {
        return Some(Err("short"));
    }
    let n: usize = u32_at(src, 0) as usize;
    assert(src@.subrange(0, 4) =~= src@.take(4));
    let mut out: Vec<u8> = Vec::new();
    let mut i: usize = 4;
    let ghost want = decode(src@.skip(4), Seq::empty());
    while i < src.len()
        invariant
            4 <= i <= src@.len(),
            n == from_le(src@.take(4)),
            want == decode(src@.skip(4), Seq::empty()),
            want == decode(src@.skip(i as int), out@),
        decreases src@.len() - i,
    {
        let ghost s = src@.skip(i as int);
        let ghost out0 = out@;
        let token: u8 = src[i];
        i += 1;
        assert(s.skip(1) =~= src@.skip(i as int));
        let lit: u128 = match get_len(token / 16, src, &mut i) {
            None => {
                return None;
            },
            Some(l) => l,
        };
        if lit > (src.len() - i) as u128 {
            return None;
        }
        let lit: usize = lit as usize;
        let ghost s1 = src@.skip(i as int);
        put_range(&mut out, src, i, i + lit);
        assert(s1.take(lit as int) =~= src@.subrange(i as int, i + lit));
        i += lit;
        assert(s1.skip(lit as int) =~= src@.skip(i as int));
        if i == src.len() {
            // the last sequence has no match part
            continue;
        }
        if src.len() - i < 2 {
            return None;
        }
        let ghost s2 = src@.skip(i as int);
        let off: usize = u16_at(src, i) as usize;
        assert(s2.take(2) =~= src@.subrange(i as int, i + 2));
        i += 2;
        assert(s2.skip(2) =~= src@.skip(i as int));
        let ml: u128 = match get_len(token % 16, src, &mut i) {
            None => {
                return None;
            },
            Some(l) => l,
        };
        if off == 0 || off > out.len() {
            return Some(Err("bad offset"));
        }
        copy_back(&mut out, off, ml + 4);
    }
    if out.len() != n {
        return Some(Err("length mismatch"));
    }
    Some(Ok(out))
}

/// Decompresses a block behind its length.
pub fn decompress_size_prepended(src: &[u8]) -> (r: Result<Vec<u8>, &'static str>)
    requires
        complete(src@),
    ensures
        yields(r, decompressed(src@)),
{
    match try_decompress(src) {
        Some(r) => r,
        None => Err("short"),
    }
}

// ---------------------------------------------------------------------------
// Decoding gives back what was encoded
// ---------------------------------------------------------------------------

proof fn len_bytes_read_back(l: nat, rest: Seq<u8>)
    ensures
        rd_len_bytes(len_bytes(l) + rest) == Some((l, rest)),
    decreases l,
{
    let s = len_bytes(l) + rest;
    if l >= 255 {
        len_bytes_read_back((l - 255) as nat, rest);
        assert(s.skip(1) =~= len_bytes((l - 255) as nat) + rest);
    } else {
        assert(s.skip(1) =~= rest);
    }
}

proof fn len_read_back(l: nat, rest: Seq<u8>)
    ensures
        rd_len(nibble(l), len_ext(l) + rest) == Some((l, rest)),
{
    if l >= 15 {
        len_bytes_read_back((l - 15) as nat, rest);
    } else {
        assert(len_ext(l) + rest =~= rest);
    }
}

/// Copying from a prefix of `full` whose continuation agrees with the bytes
/// `off` back gives a longer prefix.
proof fn copy_match_extends(full: Seq<u8>, at: int, off: nat, n: nat)
    requires
        0 < off <= at,
        at + n <= full.len(),
        forall|k: int| 0 <= k < n ==> full[at - off + k] == #[trigger] full[at + k],
    ensures
        copy_match(full.take(at), off, n) == full.take(at + n),
    decreases n,
{
    if n > 0 {
        let out = full.take(at);
        assert(full[at - off + 0] == full[at + 0]);
        assert(out.push(out[out.len() - off]) =~= full.take(at + 1));
        assert forall|k: int| 0 <= k < n - 1 implies full[at + 1 - off + k] == #[trigger] full[at
            + 1 + k] by {
            assert(full[at - off + (k + 1)] == full[at + (k + 1)]);
        }
        copy_match_extends(full, at + 1, off, (n - 1) as nat);
    }
}

/// The decoder takes one written sequence off the front.
proof fn sequence_decodes(lits: Seq<u8>, off: nat, ml: nat, rest: Seq<u8>, out: Seq<u8>)
    requires
        0 < off <= 0xffff,
        off <= out.len() + lits.len(),
        ml >= 4,
    ensures
        decode(sequence(lits, off, ml) + rest, out) == decode(
            rest,
            copy_match(out + lits, off, ml),
        ),
{
    let s = sequence(lits, off, ml) + rest;
    let tail2 = len_ext((ml - 4) as nat) + rest;
    let tail1 = lits + (le(off, 2) + tail2);
    le_read_back(off, 2);
    assert(s.skip(1) =~= len_ext(lits.len()) + tail1);
    assert(s[0] / 16 == nibble(lits.len()) && s[0] % 16 == nibble((ml - 4) as nat));
    len_read_back(lits.len(), tail1);
    assert(tail1.take(lits.len() as int) =~= lits);
    assert(tail1.skip(lits.len() as int) =~= le(off, 2) + tail2);
    assert((le(off, 2) + tail2).take(2) =~= le(off, 2));
    assert((le(off, 2) + tail2).skip(2) =~= tail2);
    len_read_back((ml - 4) as nat, rest);
}

proof fn last_sequence_decodes(lits: Seq<u8>, out: Seq<u8>)
    ensures
        decode(last_sequence(lits), out) == Decoded::Done(out + lits),
{
    let s = last_sequence(lits);
    assert(s.skip(1) =~= len_ext(lits.len()) + lits);
    assert(s[0] / 16 == nibble(lits.len()));
    len_read_back(lits.len(), lits);
    assert(lits.take(lits.len() as int) =~= lits);
    assert(lits.skip(lits.len() as int).len() == 0);
}

/// Equal words are equal bytes.
proof fn word_bytes(src: Seq<u8>, a: int, b: int)
    requires
        0 <= a,
        0 <= b,
        a + 4 <= src.len(),
        b + 4 <= src.len(),
        word(src, a) == word(src, b),
    ensures
        forall|k: int| 0 <= k < 4 ==> src[a + k] == #[trigger] src[b + k],
{
    crate::wire::from_le_write_back(src.subrange(a, a + 4));
    crate::wire::from_le_write_back(src.subrange(b, b + 4));
    assert forall|k: int| 0 <= k < 4 implies src[a + k] == #[trigger] src[b + k] by {
        assert(src.subrange(a, a + 4)[k] == src.subrange(b, b + 4)[k]);
    }
}

proof fn greedy_decodes(src: Seq<u8>, table: Seq<u32>, i: int, anchor: int)
    requires
        0 <= anchor <= i,
        i <= src.len() - 5 || (i == 0 && anchor == 0),
    ensures
        decode(greedy(src, table, i, anchor), src.take(anchor)) == Decoded::Done(src),
    decreases src.len() - i,
{
    if i >= src.len() - 12 {
        last_sequence_decodes(src.skip(anchor), src.take(anchor));
        assert(src.take(anchor) + src.skip(anchor) =~= src);
    } else {
        let h = slot(word(src, i)) as int;
        let cand = table[h] as int;
        let t = table.update(h, i as u32);
        if matches_at(src, cand, i) {
            let ml = match_len(src, cand, i, 4);
            match_len_bounds(src, cand, i, 4);
            word_bytes(src, cand, i);
            greedy_decodes(src, t, i + ml, i + ml);
            let lits = src.subrange(anchor, i);
            assert(src.take(anchor) + lits =~= src.take(i));
            let off = (i - cand) as nat;
            assert forall|k: int| 0 <= k < ml implies src[i - off + k] == #[trigger] src[i + k] by {
                assert(src[cand + k] == src[i + k]);
            }
            copy_match_extends(src, i, off, ml);
            sequence_decodes(lits, off, ml, greedy(src, t, i + ml, i + ml), src.take(anchor));
        } else {
            greedy_decodes(src, t, i + 1, anchor);
        }
    }
}

/// Decompressing a compressed form gives back its source, for every source
/// whose length fits the four-byte prefix.
pub proof fn round_trip(src: Seq<u8>)
    requires
        src.len() <= u32::MAX,
    ensures
        complete(compressed(src)),
        decompressed(compressed(src)) == Ok::<Seq<u8>, Seq<char>>(src),
{
    let block = greedy(src, Seq::new(TABLE_SIZE as nat, |k: int| 0u32), 0, 0);
    le_read_back(src.len(), 4);
    assert(compressed(src).take(4) =~= le(src.len(), 4));
    assert(compressed(src).skip(4) =~= block);
    greedy_decodes(src, Seq::new(TABLE_SIZE as nat, |k: int| 0u32), 0, 0);
    assert(src.take(0) =~= Seq::<u8>::empty());
}

proof fn len_ext_bound(l: nat)
    ensures
        15 * len_ext(l).len() <= l,
{
    if l >= 15 {
        len_bytes_bound((l - 15) as nat);
    }
}

proof fn len_bytes_bound(l: nat)
    ensures
        15 * len_bytes(l).len() <= l + 15,
    decreases l,
{
    if l >= 255 {
        len_bytes_bound((l - 255) as nat);
    }
}

proof fn greedy_bound(src: Seq<u8>, table: Seq<u32>, i: int, anchor: int)
    requires
        0 <= anchor <= i,
        i <= src.len() - 5 || (i == 0 && anchor == 0),
    ensures
        1 <= greedy(src, table, i, anchor).len() <= 2 * (src.len() - anchor) + 1,
    decreases src.len() - i,
{
    if i >= src.len() - 12 {
        len_ext_bound(src.skip(anchor).len());
    } else {
        let h = slot(word(src, i)) as int;
        let cand = table[h] as int;
        let t = table.update(h, i as u32);
        if matches_at(src, cand, i) {
            let ml = match_len(src, cand, i, 4);
            match_len_bounds(src, cand, i, 4);
            greedy_bound(src, t, i + ml, i + ml);
            len_ext_bound(src.subrange(anchor, i).len());
            len_ext_bound((ml - 4) as nat);
            crate::wire::le_len((i - cand) as nat, 2);
        } else {
            greedy_bound(src, t, i + 1, anchor);
        }
    }
}

/// Compression at most doubles its input, plus five bytes.
pub proof fn compressed_bound(src: Seq<u8>)
    ensures
        5 <= compressed(src).len() <= 2 * src.len() + 5,
{
    crate::wire::le_len(src.len(), 4);
    greedy_bound(src, Seq::new(TABLE_SIZE as nat, |k: int| 0u32), 0, 0);
}

} // verus!
