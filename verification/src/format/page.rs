//! Column pages: 64-bit integers as compressed deltas, dictionary codes as
//! compressed 32-bit words.
use crate::format::lz4::{
    complete, compress_prepend_size, compressed, compressed_bound, decompressed, round_trip,
    try_decompress,
};
use crate::varint::{
    get_varint, put_varint, rd_varint64, unzigzag, unzz, varint, varint_read_back, zigzag,
    zigzag_inverse, zz,
};
use vstd::prelude::*;

verus! {

/// Rows of a full page.
pub const PAGE_ROWS: usize = 8192;

/// Each value's difference to the one before it (to `prev` for the first),
/// modulo `2^64`, as a zigzag varint.
pub open spec fn deltas(vals: Seq<i64>, prev: i64) -> Seq<u8>
    decreases vals.len(),
{
    if vals.len() == 0 {
        Seq::empty()
    } else {
        varint(zz(vals[0].wrapping_sub(prev) as int)) + deltas(vals.skip(1), vals[0])
    }
}

/// The first `rows` values that the deltas in `s` give.
pub open spec fn rd_deltas(s: Seq<u8>, rows: nat, prev: i64) -> Option<Seq<i64>>
    decreases rows,
{
    if rows == 0 {
        Some(Seq::empty())
    } else {
        match rd_varint64(s) {
            None => None,
            Some((u, rest)) => {
                let v = prev.wrapping_add(unzz(u as nat) as i64);
                match rd_deltas(rest, (rows - 1) as nat, v) {
                    None => None,
                    Some(vs) => Some(seq![v] + vs),
                }
            },
        }
    }
}

/// An integer page on disk.
pub open spec fn i64_page(vals: Seq<i64>) -> Seq<u8> {
    compressed(deltas(vals, 0))
}

/// What a compressed block holds, where it is complete and consistent.
pub open spec fn block(comp: Seq<u8>) -> Option<Seq<u8>> {
    if complete(comp) {
        match decompressed(comp) {
            Ok(raw) => Some(raw),
            Err(_) => None,
        }
    } else {
        None
    }
}

/// The `rows` values of an integer page.
pub open spec fn rd_i64_page(comp: Seq<u8>, rows: nat) -> Option<Seq<i64>> {
    match block(comp) {
        None => None,
        Some(raw) => rd_deltas(raw, rows, 0),
    }
}

/// Decompresses, or returns nothing where the block is not a sound one.
pub fn open_block(comp: &[u8]) -> (r: Option<Vec<u8>>)
    ensures
        match block(comp@) {
            None => r is None,
            Some(raw) => r is Some && r->0@ == raw,
        },
{
    match try_decompress(comp) {
        Some(Ok(raw)) => Some(raw),
        _ => None,
    }
}

proof fn deltas_bound(vals: Seq<i64>, prev: i64)
    ensures
        deltas(vals, prev).len() <= 10 * vals.len(),
    decreases vals.len(),
{
    if vals.len() > 0 {
        deltas_bound(vals.skip(1), vals[0]);
        let d = zz(vals[0].wrapping_sub(prev) as int);
        varint_read_back(d as u64, Seq::empty());
    }
}

pub fn encode_i64_page(vals: &[i64]) -> (out: Vec<u8>)
    requires
        deltas(vals@, 0).len() <= u32::MAX,
    ensures
        out@ == i64_page(vals@),
{
    let mut raw: Vec<u8> = Vec::new();
    let mut prev: i64 = 0;
    let mut k: usize = 0;
    assert(vals@.skip(0) =~= vals@);
    assert(raw@ + deltas(vals@, 0) =~= deltas(vals@, 0));
    while k < vals.len()
        invariant
            k <= vals@.len(),
            raw@ + deltas(vals@.skip(k as int), prev) == deltas(vals@, 0),
        decreases vals@.len() - k,
    {
        let v: i64 = vals[k];
        let ghost before = raw@;
        let ghost here = vals@.skip(k as int);
        let ghost prev0 = prev;
        put_varint(&mut raw, zigzag(v.wrapping_sub(prev)));
        prev = v;
        k += 1;
        proof {
            assert(here.skip(1) =~= vals@.skip(k as int));
            assert(raw@ + deltas(vals@.skip(k as int), prev) =~= before + deltas(
                here,
                prev0,
            ));
        }
    }
    assert(raw@ + deltas(vals@.skip(k as int), prev) =~= raw@);
    compress_prepend_size(raw.as_slice())
}

/// The values of a page, or nothing where its block is not sound or holds
/// fewer than `rows` deltas.
pub fn decode_i64_page(comp: &[u8], rows: usize) -> (r: Option<Vec<i64>>)
    ensures
        match rd_i64_page(comp@, rows as nat) {
            None => r is None,
            Some(vs) => r is Some && r->0@ == vs,
        },
{
    let raw: Vec<u8> = match open_block(comp) {
        None => {
            return None;
        },
        Some(raw) => raw,
    };
    let mut out: Vec<i64> = Vec::new();
    let mut pos: usize = 0;
    let mut prev: i64 = 0;
    let mut k: usize = 0;
    let ghost want = rd_deltas(raw@, rows as nat, 0);
    assert(raw@.skip(0) =~= raw@);
    while k < rows
        invariant
            k <= rows,
            pos <= raw@.len(),
            want == rd_i64_page(comp@, rows as nat),
            match rd_deltas(raw@.skip(pos as int), (rows - k) as nat, prev) {
                None => want is None,
                Some(vs) => want == Some(out@ + vs),
            },
        decreases rows - k,
    {
        let ghost before = out@;
        match get_varint(raw.as_slice(), &mut pos) {
            None => {
                return None;
            },
            Some(u) => {
                prev = prev.wrapping_add(unzigzag(u));
                out.push(prev);
                k += 1;
                proof {
                    if let Some(vs) = rd_deltas(raw@.skip(pos as int), (rows - k) as nat, prev) {
                        assert(before + (seq![prev] + vs) =~= out@ + vs);
                    }
                }
            },
        }
    }
    assert(out@ + Seq::<i64>::empty() =~= out@);
    Some(out)
}

proof fn deltas_read_back(vals: Seq<i64>, prev: i64, rest: Seq<u8>)
    ensures
        rd_deltas(deltas(vals, prev) + rest, vals.len(), prev) == Some(vals),
    decreases vals.len(),
{
    if vals.len() == 0 {
        assert(vals =~= Seq::<i64>::empty());
    } else {
        let d = vals[0].wrapping_sub(prev);
        let tail = deltas(vals.skip(1), vals[0]) + rest;
        assert(deltas(vals, prev) + rest =~= varint(zz(d as int)) + tail);
        varint_read_back(zz(d as int) as u64, tail);
        zigzag_inverse(d as int, 0);
        assert(prev.wrapping_add(d) == vals[0]);
        deltas_read_back(vals.skip(1), vals[0], rest);
        assert(vals =~= seq![vals[0]] + vals.skip(1));
    }
}

/// A page gives back the values it was made from, if there are few enough of
/// them for its block's length prefix.
pub proof fn i64_page_read_back(vals: Seq<i64>)
    requires
        deltas(vals, 0).len() <= u32::MAX,
    ensures
        rd_i64_page(i64_page(vals), vals.len()) == Some(vals),
{
    round_trip(deltas(vals, 0));
    deltas_read_back(vals, 0, Seq::empty());
    assert(deltas(vals, 0) + Seq::<u8>::empty() =~= deltas(vals, 0));
}

/// A page of at most `PAGE_ROWS` values fits its length fields.
pub proof fn i64_page_bound(vals: Seq<i64>)
    requires
        vals.len() <= PAGE_ROWS,
    ensures
        deltas(vals, 0).len() <= 10 * PAGE_ROWS,
        i64_page(vals).len() <= 20 * PAGE_ROWS + 5,
{
    deltas_bound(vals, 0);
    compressed_bound(deltas(vals, 0));
}

} // verus!
