//! What encodings are, digit by digit.
use crate::format::parquet::{page_plain, plain_texts, Compression, ParquetError};
use crate::meta::node::code;
use crate::stream::offsets::{offset_in, offset_read_back};
use crate::text::dec;
use crate::varint::{unzz, varint, zz};
use crate::wire::{from_le, str_read_back, u32_read_back, wr_list, wr_str};
use vstd::prelude::*;
use vstd::utf8::{encode_utf8, encode_utf8_decode_utf8, encode_utf8_valid_utf8};

verus! {

/// The number that bytes stand for counts the first byte once, and each
/// further one 256 times as much as the one before.
pub proof fn bytes_count_upwards(s: Seq<u8>)
    ensures
        s.len() == 0 ==> from_le(s) == 0,
        s.len() == 1 ==> from_le(s) == s[0],
        s.len() == 2 ==> from_le(s) == s[0] + 0x100 * s[1],
        s.len() == 4 ==> from_le(s) == s[0] + 0x100 * s[1] + 0x1_0000 * s[2] + 0x100_0000 * s[3],
        s.len() == 8 ==> from_le(s) == s[0] + 0x100 * s[1] + 0x1_0000 * s[2] + 0x100_0000 * s[3]
            + 0x1_0000_0000 * s[4] + 0x100_0000_0000 * s[5] + 0x1_0000_0000_0000 * s[6]
            + 0x100_0000_0000_0000 * s[7],
{
    reveal_with_fuel(from_le, 9);
}

/// Signed numbers are counted by turns: a natural number becomes twice itself,
/// a negative one the odd number before.
pub proof fn signs_are_counted_by_turns(n: int)
    ensures
        n >= 0 ==> zz(n) == 2 * n,
        n < 0 ==> zz(n) == -2 * n - 1,
        n >= 0 ==> unzz((2 * n) as nat) == n,
        n < 0 ==> unzz((-2 * n - 1) as nat) == n,
{
}

/// The number that base-128 digits stand for, the lowest first.
pub open spec fn digits_128(s: Seq<u8>) -> nat
    decreases s.len(),
{
    if s.len() == 0 {
        0
    } else {
        (s[0] % 128) as nat + 128 * digits_128(s.skip(1))
    }
}

/// A number is written in base-128 digits, the lowest first: each but the last
/// has its high bit set, and there are no more than it takes.
pub proof fn a_number_is_its_digits(v: nat)
    ensures
        ({
            let s = varint(v);
            &&& s.len() > 0
            &&& digits_128(s) == v
            &&& s[s.len() - 1] < 128
            &&& forall|i: int| 0 <= i < s.len() - 1 ==> #[trigger] s[i] >= 128
            &&& s.len() > 1 ==> s[s.len() - 1] != 0
        }),
    decreases v,
{
    let s = varint(v);
    if v < 128 {
        assert(s.skip(1) =~= Seq::<u8>::empty());
        assert(digits_128(s.skip(1)) == 0);
    } else {
        a_number_is_its_digits(v / 128);
        let t = varint(v / 128);
        assert(s.skip(1) =~= t);
        assert(s[s.len() - 1] == t[t.len() - 1]);
        assert forall|i: int| 0 <= i < s.len() - 1 implies #[trigger] s[i] >= 128 by {
            if i > 0 {
                assert(s[i] == t[i - 1]);
            }
        }
        if t.len() == 1 {
            assert(digits_128(t) == t[0] % 128 + 128 * digits_128(t.skip(1)));
            assert(t.skip(1) =~= Seq::<u8>::empty());
        }
    }
}

/// Texts with their lengths before them are read back, all of them and in
/// order.
pub proof fn plain_texts_are_read_back(v: Seq<Seq<char>>)
    requires
        forall|i: int| 0 <= i < v.len() ==> encode_utf8(#[trigger] v[i]).len() <= u32::MAX,
    ensures
        plain_texts(wr_list(v, |s: Seq<char>| wr_str(s))) == Ok::<Seq<Seq<char>>, ParquetError>(v),
    decreases v.len(),
{
    let enc = |s: Seq<char>| wr_str(s);
    let all = wr_list(v, enc);
    if v.len() == 0 {
        assert(v =~= Seq::empty());
    } else {
        let t = v.skip(1);
        assert forall|i: int| 0 <= i < t.len() implies encode_utf8(#[trigger] t[i]).len()
            <= u32::MAX by {
            assert(t[i] == v[i + 1]);
        }
        plain_texts_are_read_back(t);
        let rest = wr_list(t, enc);
        let b = encode_utf8(v[0]);
        let n = b.len();
        assert(all =~= crate::wire::le(n, 4) + (b + rest));
        u32_read_back(n as u32, b + rest);
        crate::wire::le_len(n, 4);
        assert((b + rest).take(n as int) =~= b);
        assert((b + rest).skip(n as int) =~= rest);
        encode_utf8_valid_utf8(v[0]);
        encode_utf8_decode_utf8(v[0]);
        assert(seq![v[0]] + t =~= v);
    }
}

/// A page that is not compressed is its own plain bytes.
pub proof fn a_plain_page_is_itself(data: Seq<u8>)
    ensures
        page_plain(data, Compression::Uncompressed) == Ok::<Seq<u8>, Seq<char>>(data),
{
}

/// An offset that was written is read out of the reply that gives it.
pub proof fn an_offset_is_read_out_of_its_reply(n: u64)
    requires
        encode_utf8(dec(n as nat)).len() <= u32::MAX,
    ensures
        offset_in(code(1) + wr_str(dec(n as nat))) == Some(n),
        offset_in(code(0)) is None,
{
    let e = Seq::<u8>::empty();
    let v = dec(n as nat);
    offset_read_back(n);
    assert((code(1) + wr_str(v)).skip(1) =~= wr_str(v) + e);
    str_read_back(v, e);
}

} // verus!
