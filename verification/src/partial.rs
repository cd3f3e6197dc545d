//! Readers for input that may not have arrived in full: a read is done, needs
//! more bytes, or can never succeed.
use crate::wire::{
    get_bytes, get_u32, get_u64, get_u8, rd_bytes, rd_u32, rd_u64, rd_u8, string_from_utf8,
};
use vstd::prelude::*;
use vstd::utf8::{decode_utf8, valid_utf8};

verus! {

/// What the bytes at hand say.
pub enum Step<T> {
    Done(T, Seq<u8>),
    /// The bytes end too early.
    More,
    /// A text is not UTF-8.
    Bad,
}

/// The outcome of an executable read.
pub enum Got<T> {
    Done(T),
    More,
    Bad,
}

/// Whether a read at `before` that ended at `after` did what `want` says.
pub open spec fn gets<T, V>(
    buf: Seq<u8>,
    before: usize,
    after: usize,
    got: Got<T>,
    val: spec_fn(T) -> V,
    want: Step<V>,
) -> bool {
    &&& before <= after <= buf.len()
    &&& match want {
        Step::Done(v, rest) => (got matches Got::Done(x) && val(x) == v) && buf.skip(after as int)
            == rest,
        Step::More => got is More,
        Step::Bad => got is Bad,
    }
}

pub open spec fn st_u8(s: Seq<u8>) -> Step<u8> {
    match rd_u8(s) {
        Some((v, r)) => Step::Done(v, r),
        None => Step::More,
    }
}

pub open spec fn st_u32(s: Seq<u8>) -> Step<u32> {
    match rd_u32(s) {
        Some((v, r)) => Step::Done(v, r),
        None => Step::More,
    }
}

pub open spec fn st_u64(s: Seq<u8>) -> Step<u64> {
    match rd_u64(s) {
        Some((v, r)) => Step::Done(v, r),
        None => Step::More,
    }
}

pub open spec fn st_str(s: Seq<u8>) -> Step<Seq<char>> {
    match rd_bytes(s) {
        None => Step::More,
        Some((b, r)) => if valid_utf8(b) { Step::Done(decode_utf8(b), r) } else { Step::Bad },
    }
}

/// `n` reads one after another.
pub open spec fn st_list<T>(
    s: Seq<u8>,
    n: nat,
    st: spec_fn(Seq<u8>) -> Step<T>,
) -> Step<Seq<T>>
    decreases n,
{
    if n == 0 {
        Step::Done(Seq::empty(), s)
    } else {
        match st(s) {
            Step::More => Step::More,
            Step::Bad => Step::Bad,
            Step::Done(x, r) => match st_list(r, (n - 1) as nat, st) {
                Step::More => Step::More,
                Step::Bad => Step::Bad,
                Step::Done(xs, rest) => Step::Done(seq![x] + xs, rest),
            },
        }
    }
}

/// `got`, followed by what `sub` reads, is what `want` reads.
pub open spec fn goes_on<T>(want: Step<Seq<T>>, got: Seq<T>, sub: Step<Seq<T>>) -> bool {
    match sub {
        Step::More => want is More,
        Step::Bad => want is Bad,
        Step::Done(xs, rest) => want == Step::Done(got + xs, rest),
    }
}

pub proof fn goes_on_step<T>(
    want: Step<Seq<T>>,
    got: Seq<T>,
    s: Seq<u8>,
    n: nat,
    st: spec_fn(Seq<u8>) -> Step<T>,
)
    requires
        n > 0,
        goes_on(want, got, st_list(s, n, st)),
    ensures
        match st(s) {
            Step::More => want is More,
            Step::Bad => want is Bad,
            Step::Done(x, r) => goes_on(want, got.push(x), st_list(r, (n - 1) as nat, st)),
        },
{
    if let Step::Done(x, r) = st(s) {
        if let Step::Done(xs, rest) = st_list(r, (n - 1) as nat, st) {
            assert(got + (seq![x] + xs) =~= got.push(x) + xs);
        }
    }
}

/// A list of items that are each read back is read back.
pub proof fn steps_read_back<T>(
    items: Seq<T>,
    enc: spec_fn(T) -> Seq<u8>,
    st: spec_fn(Seq<u8>) -> Step<T>,
    rest: Seq<u8>,
)
    requires
        forall|k: int, r: Seq<u8>|
            0 <= k < items.len() ==> #[trigger] st(enc(items[k]) + r) == Step::Done(items[k], r),
    ensures
        st_list(crate::wire::wr_list(items, enc) + rest, items.len(), st) == Step::Done(
            items,
            rest,
        ),
    decreases items.len(),
{
    let whole = crate::wire::wr_list(items, enc) + rest;
    if items.len() == 0 {
        assert(whole =~= rest);
        assert(items =~= Seq::<T>::empty());
    } else {
        let t = items.skip(1);
        assert forall|k: int, r: Seq<u8>| 0 <= k < t.len() implies #[trigger] st(enc(t[k]) + r)
            == Step::Done(t[k], r) by {
            assert(t[k] == items[k + 1]);
        }
        steps_read_back(t, enc, st, rest);
        assert(whole =~= enc(items[0]) + (crate::wire::wr_list(t, enc) + rest));
        assert(items =~= seq![items[0]] + t);
    }
}

pub proof fn st_str_read_back(s: Seq<char>, rest: Seq<u8>)
    requires
        vstd::utf8::encode_utf8(s).len() <= u32::MAX,
    ensures
        st_str(crate::wire::wr_str(s) + rest) == Step::Done(s, rest),
{
    crate::wire::str_read_back(s, rest);
}

pub open spec fn same<T>() -> spec_fn(T) -> T {
    |x: T| x
}

pub open spec fn text() -> spec_fn(String) -> Seq<char> {
    |x: String| x@
}

pub fn more_u8(buf: &[u8], pos: &mut usize) -> (r: Got<u8>)
    requires
        *old(pos) <= buf@.len(),
    ensures
        gets(buf@, *old(pos), *final(pos), r, same(), st_u8(buf@.skip(*old(pos) as int))),
{
    match get_u8(buf, pos) {
        Some(v) => Got::Done(v),
        None => Got::More,
    }
}

pub fn more_u32(buf: &[u8], pos: &mut usize) -> (r: Got<u32>)
    requires
        *old(pos) <= buf@.len(),
    ensures
        gets(buf@, *old(pos), *final(pos), r, same(), st_u32(buf@.skip(*old(pos) as int))),
{
    match get_u32(buf, pos) {
        Some(v) => Got::Done(v),
        None => Got::More,
    }
}

pub fn more_u64(buf: &[u8], pos: &mut usize) -> (r: Got<u64>)
    requires
        *old(pos) <= buf@.len(),
    ensures
        gets(buf@, *old(pos), *final(pos), r, same(), st_u64(buf@.skip(*old(pos) as int))),
{
    match get_u64(buf, pos) {
        Some(v) => Got::Done(v),
        None => Got::More,
    }
}

pub fn more_str(buf: &[u8], pos: &mut usize) -> (r: Got<String>)
    requires
        *old(pos) <= buf@.len(),
    ensures
        gets(buf@, *old(pos), *final(pos), r, text(), st_str(buf@.skip(*old(pos) as int))),
{
    let start: usize = *pos;
    match get_bytes(buf, pos) {
        None => {
            *pos = start;
            Got::More
        },
        Some(b) => match string_from_utf8(b) {
            Some(s) => Got::Done(s),
            None => Got::Bad,
        },
    }
}

} // verus!
