//! Zigzag and base-128 variable-length integers.
use vstd::prelude::*;

verus! {

/// Signed integers onto naturals: 0, -1, 1, -2, 2, ...
pub open spec fn zz(n: int) -> nat {
    if n >= 0 { (2 * n) as nat } else { (-2 * n - 1) as nat }
}

/// The integer that `zz` maps to `u`.
pub open spec fn unzz(u: nat) -> int {
    if u % 2 == 0 { (u / 2) as int } else { -((u / 2) as int) - 1 }
}

/// Base-128 digits of `v`, least significant first, each but the last with
/// its high bit set.
pub open spec fn varint(v: nat) -> Seq<u8>
    decreases v,
{
    if v < 128 {
        seq![v as u8]
    } else {
        seq![(v % 128 + 128) as u8] + varint(v / 128)
    }
}

/// Reads a base-128 number of at most `n` digits off the front of `s`.
pub open spec fn rd_varint(s: Seq<u8>, n: nat) -> Option<(nat, Seq<u8>)>
    decreases n,
{
    if n == 0 || s.len() == 0 {
        None
    } else if s[0] < 128 {
        Some((s[0] as nat, s.skip(1)))
    } else {
        match rd_varint(s.skip(1), (n - 1) as nat) {
            None => None,
            Some((x, rest)) => Some(((s[0] - 128 + 128 * x) as nat, rest)),
        }
    }
}

/// The 64-bit number at the front of `s`: at most ten digits, of which the
/// bits above the sixty-fourth are dropped.
pub open spec fn rd_varint64(s: Seq<u8>) -> Option<(u64, Seq<u8>)> {
    match rd_varint(s, 10) {
        None => None,
        Some((x, rest)) => Some(((x % 0x1_0000_0000_0000_0000) as u64, rest)),
    }
}

pub fn zigzag(n: i64) -> (u: u64)
    ensures
        u == zz(n as int),
{
    if n >= 0 {
        n as u64 * 2
    } else {
        (-(n + 1)) as u64 * 2 + 1
    }
}

pub fn unzigzag(u: u64) -> (n: i64)
    ensures
        n == unzz(u as nat),
{
    if u % 2 == 0 {
        (u / 2) as i64
    } else {
        -((u / 2) as i64) - 1
    }
}

/// Zigzag loses nothing, either way.
pub proof fn zigzag_inverse(n: int, u: nat)
    ensures
        unzz(zz(n)) == n,
        zz(unzz(u)) == u,
{
}

pub fn put_varint(out: &mut Vec<u8>, v: u64)
    ensures
        final(out)@ == old(out)@ + varint(v as nat),
{
    let mut v: u64 = v;
    let ghost whole = out@ + varint(v as nat);
    while v >= 128
        invariant
            out@ + varint(v as nat) == whole,
        decreases v,
    {
        let b: u8 = (v % 128 + 128) as u8;
        assert(out@ + varint(v as nat) =~= out@.push(b) + varint((v / 128) as nat));
        out.push(b);
        v = v / 128;
    }
    out.push(v as u8);
    assert(out@ =~= whole);
}

spec fn pow128(k: nat) -> nat
    decreases k,
{
    if k == 0 { 1 } else { 128 * pow128((k - 1) as nat) }
}

/// Reads a number at the position, or fails where the bytes end inside it or
/// it runs past ten bytes.
pub fn get_varint(buf: &[u8], pos: &mut usize) -> (r: Option<u64>)
    requires
        *old(pos) <= buf@.len(),
    ensures
        *old(pos) <= *final(pos) <= buf@.len(),
        match rd_varint64(buf@.skip(*old(pos) as int)) {
            Some((v, rest)) => r == Some(v) && buf@.skip(*final(pos) as int) == rest,
            None => r is None && *final(pos) == (if buf@.len() - *old(pos) >= 10 {
                *old(pos) + 10
            } else {
                buf@.len() as int
            }),
        },
{
    let ghost want = rd_varint(buf@.skip(*pos as int), 10);
    let mut acc: u128 = 0;
    let mut scale: u128 = 1;
    let mut k: usize = 0;
    while k < 10 && *pos < buf.len()
        invariant
            *old(pos) <= *pos <= buf@.len(),
            want == rd_varint(buf@.skip(*old(pos) as int), 10),
            k <= 10,
            *pos == *old(pos) + k,
            scale == pow128(k as nat),
            acc < scale,
            match rd_varint(buf@.skip(*pos as int), (10 - k) as nat) {
                None => want is None,
                Some((x, rest)) => want == Some(((acc + scale * x) as nat, rest)),
            },
        decreases 10 - k,
    {
        let b: u8 = buf[*pos];
        proof {
            assert(buf@.skip(*pos as int).skip(1) =~= buf@.skip(*pos + 1));
            reveal_with_fuel(pow128, 11);
        }
        let ghost acc0 = acc as int;
        let ghost scale0 = scale as int;
        *pos = *pos + 1;
        if b < 128 {
            assert(scale * b <= scale * 127) by (nonlinear_arith)
                requires
                    b < 128,
            ;
            acc = acc + scale * b as u128;
            return Some((acc % 0x1_0000_0000_0000_0000) as u64);
        }
        assert(scale * (b - 128) <= scale * 127) by (nonlinear_arith)
            requires
                128 <= b < 256,
        ;
        acc = acc + scale * (b - 128) as u128;
        scale = scale * 128;
        k += 1;
        proof {
            if let Some((x, rest)) = rd_varint(buf@.skip(*pos as int), (10 - k) as nat) {
                assert(acc0 + scale0 * (b - 128 + 128 * x) == acc0 + scale0 * (b - 128) + (scale0
                    * 128) * x) by (nonlinear_arith);
            }
        }
    }
    None
}

/// A number below `128^n` takes at most `n` bytes and is read back from them.
proof fn varint_reads(v: nat, n: nat, rest: Seq<u8>)
    requires
        n > 0,
        v < pow128(n),
    ensures
        rd_varint(varint(v) + rest, n) == Some((v, rest)),
        1 <= varint(v).len() <= n,
    decreases n,
{
    let s = varint(v) + rest;
    if v < 128 {
        assert(s.skip(1) =~= rest);
    } else {
        reveal_with_fuel(pow128, 3);
        assert(v / 128 < pow128((n - 1) as nat));
        varint_reads(v / 128, (n - 1) as nat, rest);
        assert(s.skip(1) =~= varint(v / 128) + rest);
    }
}

/// Every 64-bit number is read back from its encoding.
pub proof fn varint_read_back(v: u64, rest: Seq<u8>)
    ensures
        rd_varint64(varint(v as nat) + rest) == Some((v, rest)),
        1 <= varint(v as nat).len() <= 10,
{
    reveal_with_fuel(pow128, 11);
    varint_reads(v as nat, 10, rest);
}

} // verus!
