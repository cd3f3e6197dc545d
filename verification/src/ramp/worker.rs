//! The worker's side: the messages it is sent, and what it does on each.
use crate::cluster::ClusteredTable;
use crate::kernel::{lists, Acc, Block, Column};
use crate::ramp::message::{
    write_partial, wr_partial, MSG_DONE, MSG_MORSEL, MSG_SHUFFLE, MSG_SHUFFLE_PART,
};
use crate::ramp::morsel::{exec_morsel, fits, has_columns, partial_of, task_of, Partial, PartialView};
use crate::ramp::shuffle::{wr_shuffle, wr_vals};
use crate::sql::Query;
use crate::wire::{
    continues, continues_step, from_le, get_bytes, get_i64, get_u32, get_u64, i64_read_back, le,
    le_i64, le_read_back, list_read_back, put_i64, put_len32, put_u32, put_u64, rd_bytes, rd_i64,
    rd_list, rd_u32, rd_u64, signed_pattern, u32_read_back, u64_at, u64_read_back, wr_list,
    wr_list_push,
};
use vstd::prelude::*;

verus! {

/// What a worker is told.
pub enum Message {
    /// A morsel by its number in shared storage.
    Morsel(u32),
    /// A morsel's columns by their numbers.
    Inline(Vec<(usize, Vec<i64>)>),
    /// A shuffled part: its columns and how many rows it has.
    Shuffle(Vec<Vec<i64>>, usize),
    /// A shuffled part with a column that is no run of values.
    BadColumn,
    /// The end of a shuffled partition.
    ShufflePart,
    Done,
    Unknown(u8),
}

#[verifier::ext_equal]
pub enum MessageView {
    Morsel(u32),
    Inline(Seq<(usize, Seq<i64>)>),
    Shuffle(Seq<Seq<i64>>, usize),
    BadColumn,
    ShufflePart,
    Done,
    Unknown(u8),
}

pub open spec fn cols_view(c: Seq<(usize, Vec<i64>)>) -> Seq<(usize, Seq<i64>)> {
    Seq::new(c.len(), |i: int| (c[i].0, c[i].1@))
}

pub open spec fn vals_view(c: Seq<Vec<i64>>) -> Seq<Seq<i64>> {
    Seq::new(c.len(), |i: int| c[i]@)
}

impl View for Message {
    type V = MessageView;

    open spec fn view(&self) -> MessageView {
        match *self {
            Message::Morsel(m) => MessageView::Morsel(m),
            Message::Inline(c) => MessageView::Inline(cols_view(c@)),
            Message::Shuffle(c, rows) => MessageView::Shuffle(vals_view(c@), rows),
            Message::BadColumn => MessageView::BadColumn,
            Message::ShufflePart => MessageView::ShufflePart,
            Message::Done => MessageView::Done,
            Message::Unknown(b) => MessageView::Unknown(b),
        }
    }
}

// ---------------------------------------------------------------------------
// Layout
// ---------------------------------------------------------------------------

/// A morsel by its number.
pub open spec fn wr_morsel(m: nat) -> Seq<u8> {
    seq![MSG_MORSEL] + le(m, 4)
}

/// A column behind its number and its length.
pub open spec fn wr_col(c: (usize, Seq<i64>)) -> Seq<u8> {
    le(c.0 as nat, 4) + (le(c.1.len(), 8) + wr_list(c.1, |x: i64| le_i64(x)))
}

/// A morsel's columns, in the place of its number.
pub open spec fn wr_inline(cols: Seq<(usize, Seq<i64>)>) -> Seq<u8> {
    seq![MSG_MORSEL] + (le(u32::MAX as nat, 4) + (le(cols.len(), 4) + wr_list(
        cols,
        |c: (usize, Seq<i64>)| wr_col(c),
    )))
}

pub open spec fn rd_vals(s: Seq<u8>) -> Option<(Seq<i64>, Seq<u8>)> {
    match rd_u64(s) {
        None => None,
        Some((n, s)) => rd_list(s, n as nat, |s: Seq<u8>| rd_i64(s)),
    }
}

pub open spec fn rd_col(s: Seq<u8>) -> Option<((usize, Seq<i64>), Seq<u8>)> {
    match rd_u32(s) {
        None => None,
        Some((id, s)) => match rd_vals(s) {
            None => None,
            Some((v, s)) => Some(((id as usize, v), s)),
        },
    }
}

/// The values some bytes hold, eight bytes each.
pub open spec fn vals_in(b: Seq<u8>) -> Option<Seq<i64>> {
    if b.len() % 8 != 0 {
        None
    } else {
        Some(
            Seq::new(
                b.len() / 8,
                |i: int| from_le(b.subrange(8 * i, 8 * i + 8)) as u64 as i64,
            ),
        )
    }
}

/// The values of each of some runs of bytes, if all are such runs.
pub open spec fn all_vals(l: Seq<Seq<u8>>) -> Option<Seq<Seq<i64>>>
    decreases l.len(),
{
    if l.len() == 0 {
        Some(Seq::empty())
    } else {
        match (all_vals(l.drop_last()), vals_in(l.last())) {
            (Some(c), Some(v)) => Some(c.push(v)),
            _ => None,
        }
    }
}

pub open spec fn rd_inline(s: Seq<u8>) -> Option<(MessageView, Seq<u8>)> {
    match rd_u32(s) {
        None => None,
        Some((n, s)) => match rd_list(s, n as nat, |s: Seq<u8>| rd_col(s)) {
            None => None,
            Some((cols, s)) => Some((MessageView::Inline(cols), s)),
        },
    }
}

pub open spec fn rd_shuffle(s: Seq<u8>) -> Option<(MessageView, Seq<u8>)> {
    match rd_u32(s) {
        None => None,
        Some((_p, s)) => match rd_u32(s) {
            None => None,
            Some((n, s)) => match rd_u32(s) {
                None => None,
                Some((rows, s)) => match rd_list(s, n as nat, |s: Seq<u8>| rd_bytes(s)) {
                    None => None,
                    Some((l, s)) => match all_vals(l) {
                        Some(c) => Some((MessageView::Shuffle(c, rows as usize), s)),
                        None => Some((MessageView::BadColumn, s)),
                    },
                },
            },
        },
    }
}

/// The message at the start of some bytes, if all of it is there.
pub open spec fn rd_message(s: Seq<u8>) -> Option<(MessageView, Seq<u8>)> {
    if s.len() == 0 {
        None
    } else {
        let r = s.skip(1);
        if s[0] == MSG_MORSEL {
            match rd_u32(r) {
                None => None,
                Some((tag, r)) => if tag == u32::MAX {
                    rd_inline(r)
                } else {
                    Some((MessageView::Morsel(tag), r))
                },
            }
        } else if s[0] == MSG_SHUFFLE {
            rd_shuffle(r)
        } else if s[0] == MSG_SHUFFLE_PART {
            Some((MessageView::ShufflePart, r))
        } else if s[0] == MSG_DONE {
            Some((MessageView::Done, r))
        } else {
            Some((MessageView::Unknown(s[0]), r))
        }
    }
}

// ---------------------------------------------------------------------------
// Writing
// ---------------------------------------------------------------------------

/// A morsel by its number.
pub fn morsel_message(m: usize) -> (out: Vec<u8>)
    ensures
        out@ == wr_morsel(m as nat),
{
    let mut out: Vec<u8> = Vec::new();
    out.push(MSG_MORSEL);
    put_len32(&mut out, m);
    assert(out@ =~= wr_morsel(m as nat));
    out
}

fn put_col(out: &mut Vec<u8>, id: usize, v: &[i64])
    ensures
        final(out)@ == old(out)@ + wr_col((id, v@)),
{
    let ghost enc = |x: i64| le_i64(x);
    put_len32(out, id);
    put_u64(out, v.len() as u64);
    let ghost head = out@;
    let mut i: usize = 0;
    assert(v@.take(0) =~= Seq::<i64>::empty());
    assert(out@ =~= head + wr_list(v@.take(0), enc));
    while i < v.len()
        invariant
            i <= v@.len(),
            enc == (|x: i64| le_i64(x)),
            out@ == head + wr_list(v@.take(i as int), enc),
        decreases v@.len() - i,
    {
        put_i64(out, v[i]);
        proof {
            wr_list_push(v@.take(i as int), v@[i as int], enc);
            assert(v@.take(i + 1) =~= v@.take(i as int).push(v@[i as int]));
            assert(out@ =~= head + wr_list(v@.take(i + 1), enc));
        }
        i += 1;
    }
    assert(v@.take(i as int) =~= v@);
    assert(out@ =~= old(out)@ + wr_col((id, v@)));
}

/// The columns of a block by their numbers.
pub open spec fn picked_cols(b: Block, ids: Seq<usize>) -> Seq<(usize, Seq<i64>)> {
    Seq::new(ids.len(), |i: int| (ids[i], b.columns@[ids[i] as int].vals()))
}

/// A morsel's columns, in the place of its number.
pub fn inline_message(b: &Block, ids: &Vec<usize>) -> (out: Vec<u8>)
    requires
        forall|i: int| 0 <= i < ids@.len() ==> (#[trigger] ids@[i]) < b.columns@.len(),
    ensures
        out@ == wr_inline(picked_cols(*b, ids@)),
{
    let ghost enc = |c: (usize, Seq<i64>)| wr_col(c);
    let ghost cols = picked_cols(*b, ids@);
    let mut out: Vec<u8> = Vec::new();
    out.push(MSG_MORSEL);
    put_u32(&mut out, u32::MAX);
    put_len32(&mut out, ids.len());
    let ghost head = out@;
    let mut i: usize = 0;
    assert(cols.take(0) =~= Seq::<(usize, Seq<i64>)>::empty());
    assert(out@ =~= head + wr_list(cols.take(0), enc));
    while i < ids.len()
        invariant
            i <= ids@.len(),
            forall|i: int| 0 <= i < ids@.len() ==> (#[trigger] ids@[i]) < b.columns@.len(),
            enc == (|c: (usize, Seq<i64>)| wr_col(c)),
            cols == picked_cols(*b, ids@),
            out@ == head + wr_list(cols.take(i as int), enc),
        decreases ids@.len() - i,
    {
        let c: usize = ids[i];
        assert(ids@[i as int] < b.columns@.len());
        put_col(&mut out, c, b.columns[c].as_i64());
        proof {
            wr_list_push(cols.take(i as int), cols[i as int], enc);
            assert(cols.take(i + 1) =~= cols.take(i as int).push(cols[i as int]));
            assert(out@ =~= head + wr_list(cols.take(i + 1), enc));
        }
        i += 1;
    }
    assert(cols.take(i as int) =~= cols);
    assert(out@ =~= wr_inline(cols));
    out
}

// ---------------------------------------------------------------------------
// Reading
// ---------------------------------------------------------------------------

fn get_vals(buf: &[u8], pos: &mut usize) -> (r: Option<Vec<i64>>)
    requires
        *old(pos) <= buf@.len(),
    ensures
        *final(pos) <= buf@.len(),
        match rd_vals(buf@.skip(*old(pos) as int)) {
            Some((v, rest)) => r is Some && r->0@ == v && buf@.skip(*final(pos) as int) == rest,
            None => r is None,
        },
{
    let n: u64 = match get_u64(buf, pos) {
        Some(n) => n,
        None => return None,
    };
    let ghost rd = |s: Seq<u8>| rd_i64(s);
    let ghost want = rd_list(buf@.skip(*pos as int), n as nat, rd);
    let mut out: Vec<i64> = Vec::new();
    let mut i: u64 = 0;
    proof {
        if let Some((xs, rest)) = want {
            assert(out@ + xs =~= xs);
        }
    }
    while i < n
        invariant
            i <= n,
            *pos <= buf@.len(),
            rd == (|s: Seq<u8>| rd_i64(s)),
            rd_vals(buf@.skip(*old(pos) as int)) == want,
            continues(want, out@, rd_list(buf@.skip(*pos as int), (n - i) as nat, rd)),
        decreases n - i,
    {
        proof {
            continues_step(want, out@, buf@.skip(*pos as int), (n - i) as nat, rd);
        }
        let ghost here = buf@.skip(*pos as int);
        match get_i64(buf, pos) {
            Some(v) => {
                assert(rd(here) == Some((v, buf@.skip(*pos as int))));
                out.push(v);
            },
            None => {
                assert(rd(here) is None);
                return None;
            },
        }
        i += 1;
    }
    assert(out@ + Seq::<i64>::empty() =~= out@);
    Some(out)
}

fn get_inline(buf: &[u8], pos: &mut usize) -> (r: Option<Message>)
    requires
        *old(pos) <= buf@.len(),
    ensures
        *final(pos) <= buf@.len(),
        match rd_inline(buf@.skip(*old(pos) as int)) {
            Some((m, rest)) => r is Some && r->0@ == m && buf@.skip(*final(pos) as int) == rest,
            None => r is None,
        },
{
    let n: u32 = match get_u32(buf, pos) {
        Some(n) => n,
        None => return None,
    };
    let ghost rd = |s: Seq<u8>| rd_col(s);
    let ghost want = rd_list(buf@.skip(*pos as int), n as nat, rd);
    let mut out: Vec<(usize, Vec<i64>)> = Vec::new();
    let mut i: u32 = 0;
    proof {
        if let Some((xs, rest)) = want {
            assert(cols_view(out@) + xs =~= xs);
        }
    }
    while i < n
        invariant
            i <= n,
            *pos <= buf@.len(),
            rd == (|s: Seq<u8>| rd_col(s)),
            rd_inline(buf@.skip(*old(pos) as int)) == (match want {
                None => None::<(MessageView, Seq<u8>)>,
                Some((c, s)) => Some((MessageView::Inline(c), s)),
            }),
            continues(want, cols_view(out@), rd_list(buf@.skip(*pos as int), (n - i) as nat, rd)),
        decreases n - i,
    {
        proof {
            continues_step(want, cols_view(out@), buf@.skip(*pos as int), (n - i) as nat, rd);
        }
        let ghost here = buf@.skip(*pos as int);
        let id: u32 = match get_u32(buf, pos) {
            Some(v) => v,
            None => {
                assert(rd(here) is None);
                return None;
            },
        };
        let v: Vec<i64> = match get_vals(buf, pos) {
            Some(v) => v,
            None => {
                assert(rd(here) is None);
                return None;
            },
        };
        assert(rd(here) == Some(((id as usize, v@), buf@.skip(*pos as int))));
        let ghost before = out@;
        out.push((id as usize, v));
        assert(cols_view(out@) =~= cols_view(before).push((id as usize, v@)));
        i += 1;
    }
    assert(cols_view(out@) + Seq::<(usize, Seq<i64>)>::empty() =~= cols_view(out@));
    Some(Message::Inline(out))
}

fn vals_of(b: &Vec<u8>) -> (r: Option<Vec<i64>>)
    ensures
        match r {
            Some(v) => vals_in(b@) == Some(v@),
            None => vals_in(b@) is None,
        },
{
    if b.len() % 8 != 0 {
        return None;
    }
    let len: usize = b.len();
    let n: usize = len / 8;
    let mut out: Vec<i64> = Vec::new();
    let mut i: usize = 0;
    while i < n
        invariant
            i <= n,
            8 * n == len,
            len == b@.len(),
            out@.len() == i,
            forall|k: int|
                0 <= k < i ==> #[trigger] out@[k] == from_le(
                    b@.subrange(8 * k, 8 * k + 8),
                ) as u64 as i64,
        decreases n - i,
    {
        let u: u64 = u64_at(b.as_slice(), 8 * i);
        out.push(#[verifier::truncate] (u as i64));
        i += 1;
    }
    assert(out@ =~= vals_in(b@)->Some_0);
    Some(out)
}

fn get_shuffle(buf: &[u8], pos: &mut usize) -> (r: Option<Message>)
    requires
        *old(pos) <= buf@.len(),
    ensures
        *final(pos) <= buf@.len(),
        match rd_shuffle(buf@.skip(*old(pos) as int)) {
            Some((m, rest)) => r is Some && r->0@ == m && buf@.skip(*final(pos) as int) == rest,
            None => r is None,
        },
{
    let _p: u32 = match get_u32(buf, pos) {
        Some(n) => n,
        None => return None,
    };
    let n: u32 = match get_u32(buf, pos) {
        Some(n) => n,
        None => return None,
    };
    let rows: u32 = match get_u32(buf, pos) {
        Some(n) => n,
        None => return None,
    };
    let ghost rd = |s: Seq<u8>| rd_bytes(s);
    let ghost want = rd_list(buf@.skip(*pos as int), n as nat, rd);
    let ghost mut got = Seq::<Seq<u8>>::empty();
    let mut out: Vec<Vec<i64>> = Vec::new();
    let mut good: bool = true;
    let mut i: u32 = 0;
    proof {
        if let Some((xs, rest)) = want {
            assert(got + xs =~= xs);
        }
        assert(vals_view(out@) =~= Seq::empty());
    }
    while i < n
        invariant
            i <= n,
            *pos <= buf@.len(),
            rd == (|s: Seq<u8>| rd_bytes(s)),
            rd_shuffle(buf@.skip(*old(pos) as int)) == (match want {
                None => None::<(MessageView, Seq<u8>)>,
                Some((l, s)) => match all_vals(l) {
                    Some(c) => Some((MessageView::Shuffle(c, rows as usize), s)),
                    None => Some((MessageView::BadColumn, s)),
                },
            }),
            continues(want, got, rd_list(buf@.skip(*pos as int), (n - i) as nat, rd)),
            good ==> all_vals(got) == Some(vals_view(out@)),
            !good ==> all_vals(got) is None,
        decreases n - i,
    {
        proof {
            continues_step(want, got, buf@.skip(*pos as int), (n - i) as nat, rd);
        }
        let ghost here = buf@.skip(*pos as int);
        let b: Vec<u8> = match get_bytes(buf, pos) {
            Some(v) => v,
            None => {
                assert(rd(here) is None);
                return None;
            },
        };
        proof {
            assert(rd(here) == Some((b@, buf@.skip(*pos as int))));
            assert(got.push(b@).drop_last() =~= got);
            got = got.push(b@);
        }
        if good {
            match vals_of(&b) {
                Some(v) => {
                    let ghost before = out@;
                    out.push(v);
                    assert(vals_view(out@) =~= vals_view(before).push(v@));
                },
                None => good = false,
            }
        }
        i += 1;
    }
    assert(got + Seq::<Seq<u8>>::empty() =~= got);
    if good {
        Some(Message::Shuffle(out, rows as usize))
    } else {
        Some(Message::BadColumn)
    }
}

/// Reads the message at the start of some bytes, once all of it is there, and
/// moves behind it.
pub fn read_message(buf: &[u8], pos: &mut usize) -> (r: Option<Message>)
    requires
        *old(pos) <= buf@.len(),
    ensures
        *final(pos) <= buf@.len(),
        match rd_message(buf@.skip(*old(pos) as int)) {
            Some((m, rest)) => r is Some && r->0@ == m && buf@.skip(*final(pos) as int) == rest,
            None => r is None,
        },
{
    if *pos >= buf.len() {
        return None;
    }
    let b: u8 = buf[*pos];
    *pos = *pos + 1;
    assert(buf@.skip(*old(pos) as int).skip(1) =~= buf@.skip(*pos as int));
    if b == MSG_MORSEL {
        match get_u32(buf, pos) {
            None => None,
            Some(tag) => if tag == u32::MAX {
                get_inline(buf, pos)
            } else {
                Some(Message::Morsel(tag))
            },
        }
    } else if b == MSG_SHUFFLE {
        get_shuffle(buf, pos)
    } else if b == MSG_SHUFFLE_PART {
        Some(Message::ShufflePart)
    } else if b == MSG_DONE {
        Some(Message::Done)
    } else {
        Some(Message::Unknown(b))
    }
}

// ---------------------------------------------------------------------------
// Reacting
// ---------------------------------------------------------------------------

/// The greatest number of some columns.
pub open spec fn max_id(cols: Seq<(usize, Seq<i64>)>) -> usize
    decreases cols.len(),
{
    if cols.len() == 0 {
        0
    } else if cols.last().0 > max_id(cols.drop_last()) {
        cols.last().0
    } else {
        max_id(cols.drop_last())
    }
}

/// Columns at the places of their numbers; the others are empty.
pub open spec fn placed(cols: Seq<(usize, Seq<i64>)>, n: nat) -> Seq<Seq<i64>>
    decreases cols.len(),
{
    if cols.len() == 0 {
        Seq::new(n, |i: int| Seq::<i64>::empty())
    } else {
        placed(cols.drop_last(), n).update(cols.last().0 as int, cols.last().1)
    }
}

pub open spec fn columns_view(c: Seq<Column>) -> Seq<Seq<i64>> {
    Seq::new(c.len(), |i: int| c[i].vals())
}

/// Whether a block is made of inlined columns: each at its place, and as many
/// rows as the first one has values.
pub open spec fn is_inlined(b: Block, cols: Seq<(usize, Seq<i64>)>) -> bool {
    &&& columns_view(b.columns@) == placed(cols, (max_id(cols) + 1) as nat)
    &&& b.rows == cols[0].1.len()
}

fn copy_vals(v: &Vec<i64>) -> (r: Vec<i64>)
    ensures
        r@ == v@,
{
    let mut out: Vec<i64> = Vec::new();
    let mut i: usize = 0;
    while i < v.len()
        invariant
            i <= v@.len(),
            out@ == v@.take(i as int),
        decreases v@.len() - i,
    {
        out.push(v[i]);
        i += 1;
        assert(out@ =~= v@.take(i as int));
    }
    assert(out@ =~= v@);
    out
}

/// The block some inlined columns make; there is none without a column.
pub fn inlined_block(cols: &Vec<(usize, Vec<i64>)>) -> (r: Option<Block>)
    ensures
        match r {
            Some(b) => cols@.len() > 0 && max_id(cols_view(cols@)) < usize::MAX && is_inlined(
                b,
                cols_view(cols@),
            ),
            None => cols@.len() == 0 || max_id(cols_view(cols@)) == usize::MAX,
        },
{
    let ghost cv = cols_view(cols@);
    if cols.len() == 0 {
        return None;
    }
    let mut top: usize = 0;
    let mut i: usize = 0;
    assert(cv.take(0) =~= Seq::<(usize, Seq<i64>)>::empty());
    while i < cols.len()
        invariant
            i <= cols@.len(),
            cv == cols_view(cols@),
            top == max_id(cv.take(i as int)),
            forall|k: int| 0 <= k < i ==> (#[trigger] cv[k]).0 <= top,
        decreases cols@.len() - i,
    {
        assert(cv.take(i + 1).drop_last() =~= cv.take(i as int));
        assert(cv[i as int].0 == cols@[i as int].0);
        if cols[i].0 > top {
            top = cols[i].0;
        }
        i += 1;
    }
    assert(cv.take(i as int) =~= cv);
    if top == usize::MAX {
        return None;
    }
    let n: usize = top + 1;
    let mut columns: Vec<Column> = Vec::new();
    let mut k: usize = 0;
    while k < n
        invariant
            k <= n,
            columns@.len() == k,
            forall|j: int| 0 <= j < k ==> (#[trigger] columns@[j]).vals() == Seq::<i64>::empty(),
        decreases n - k,
    {
        columns.push(Column::I64(Vec::new()));
        k += 1;
    }
    assert(columns_view(columns@) =~= placed(cv.take(0), n as nat));
    let mut i: usize = 0;
    while i < cols.len()
        invariant
            i <= cols@.len(),
            n == top + 1,
            cv == cols_view(cols@),
            forall|k: int| 0 <= k < cols@.len() ==> (#[trigger] cv[k]).0 <= top,
            columns@.len() == n,
            columns_view(columns@) == placed(cv.take(i as int), n as nat),
        decreases cols@.len() - i,
    {
        assert(cv.take(i + 1).drop_last() =~= cv.take(i as int));
        assert(cv[i as int].0 <= top);
        let ghost before = columns@;
        let v: Vec<i64> = copy_vals(&cols[i].1);
        columns.set(cols[i].0, Column::I64(v));
        assert(columns_view(columns@) =~= columns_view(before).update(cols@[i as int].0 as int, v@));
        i += 1;
    }
    assert(cv.take(i as int) =~= cv);
    assert(cv[0].1 == cols@[0].1@);
    Some(Block { columns, rows: cols[0].1.len() })
}

/// A worker with its query: how much it has done, and what it holds of the
/// shuffled partition that is under way.
pub struct Worker {
    pub query: Query,
    pub shuffled: Vec<Partial>,
    pub done: usize,
}

/// What a worker does on a message.
pub enum Reply {
    Send(Vec<u8>),
    /// Nothing is sent.
    Wait,
    /// The work is over; so much was done.
    Stop(usize),
    /// The message is none a worker understands.
    Invalid,
    /// The message asks for a block or a column that is not there.
    Unsound,
}

pub open spec fn partials(p: Seq<Partial>) -> Seq<PartialView> {
    Seq::new(p.len(), |i: int| p[i]@)
}

/// Partial results merged one after another.
pub open spec fn merged_all(p: Seq<PartialView>) -> PartialView
    decreases p.len(),
{
    if p.len() == 0 {
        PartialView::none()
    } else {
        merged_all(p.drop_last()).merged(p.last())
    }
}

/// Whether some bytes are a partial result, its groups in some order.
pub open spec fn says(out: Seq<u8>, p: PartialView) -> bool {
    exists|l: Seq<(i64, Acc)>| lists(l, p.groups) && out == #[trigger] wr_partial(p.scalar, l)
}

fn partial_message(p: &Partial) -> (out: Vec<u8>)
    ensures
        says(out@, p@),
{
    let mut out: Vec<u8> = Vec::new();
    let ghost o0 = out@;
    write_partial(&mut out, p);
    proof {
        let l = choose|l: Seq<(i64, Acc)>|
            lists(l, p.groups@) && out@ == o0 + #[trigger] wr_partial(p.scalar, l);
        assert(out@ =~= wr_partial(p.scalar, l));
        assert(p@.scalar == p.scalar && p@.groups == p.groups@);
        assert(lists(l, p@.groups) && out@ == wr_partial(p@.scalar, l));
    }
    out
}

impl Worker {
    pub open spec fn task(self) -> crate::ramp::morsel::Task {
        task_of(self.query.model())
    }

    pub fn new(query: Query) -> (w: Worker)
        ensures
            w.query == query,
            w.shuffled@.len() == 0,
            w.done == 0,
    {
        Worker { query, shuffled: Vec::new(), done: 0 }
    }

    /// Whether the worker answers a block: with its partial result if it has
    /// the columns, and with nothing done if not.
    pub open spec fn answers(self, after: Worker, r: Reply, b: Block) -> bool {
        if has_columns(b, self.task()) {
            &&& r matches Reply::Send(out) && says(out@, partial_of(b, self.task()))
            &&& after.done == self.done + 1
            &&& after.shuffled == self.shuffled
        } else {
            r is Unsound && after.done == self.done && after.shuffled == self.shuffled
        }
    }

    fn answer(&mut self, b: &Block) -> (r: Reply)
        requires
            old(self).done < usize::MAX,
        ensures
            final(self).query == old(self).query,
            old(self).answers(*final(self), r, *b),
    {
        if !fits(b, &self.query) {
            return Reply::Unsound;
        }
        let p: Partial = exec_morsel(b, &self.query);
        let out: Vec<u8> = partial_message(&p);
        self.done = self.done + 1;
        Reply::Send(out)
    }

    /// What the worker does on a message. A morsel is answered with its
    /// partial result: it stands in shared storage, or its columns came along.
    /// Shuffled parts are kept until their partition ends and are then answered
    /// together.
    pub fn react(&mut self, m: Message, storage: Option<&ClusteredTable>) -> (r: Reply)
        requires
            old(self).done < usize::MAX,
        ensures
            final(self).query == old(self).query,
            match m {
                Message::Morsel(tag) => match storage {
                    Some(t) if tag < t.blocks@.len() => old(self).answers(
                        *final(self),
                        r,
                        t.blocks@[tag as int],
                    ),
                    _ => r is Unsound && *final(self) == *old(self),
                },
                Message::Inline(cols) => if cols@.len() == 0 || max_id(cols_view(cols@))
                    == usize::MAX {
                    r is Unsound && *final(self) == *old(self)
                } else {
                    exists|b: Block| #[trigger]
                        is_inlined(b, cols_view(cols@)) && old(self).answers(*final(self), r, b)
                },
                Message::Shuffle(cols, rows) => {
                    &&& final(self).done == old(self).done
                    &&& exists|b: Block|
                        #![trigger columns_view(b.columns@)]
                        columns_view(b.columns@) == vals_view(cols@) && b.rows == rows && if has_columns(
                            b,
                            old(self).task(),
                        ) {
                            r is Wait && partials(final(self).shuffled@) == partials(
                                old(self).shuffled@,
                            ).push(partial_of(b, old(self).task()))
                        } else {
                            r is Unsound && final(self).shuffled == old(self).shuffled
                        }
                },
                Message::ShufflePart => {
                    &&& final(self).done == old(self).done + 1
                    &&& final(self).shuffled@.len() == 0
                    &&& if old(self).shuffled@.len() == 0 {
                        r is Wait
                    } else {
                        r matches Reply::Send(out) && says(
                            out@,
                            merged_all(partials(old(self).shuffled@)),
                        )
                    }
                },
                Message::Done => r == Reply::Stop(old(self).done) && *final(self) == *old(self),
                Message::BadColumn => r is Invalid && *final(self) == *old(self),
                Message::Unknown(_) => r is Invalid && *final(self) == *old(self),
            },
    {
        match m {
            Message::Morsel(tag) => match storage {
                Some(t) => {
                    if (tag as u64) < (t.blocks.len() as u64) {
                        self.answer(&t.blocks[tag as usize])
                    } else {
                        Reply::Unsound
                    }
                },
                None => Reply::Unsound,
            },
            Message::Inline(cols) => match inlined_block(&cols) {
                Some(b) => self.answer(&b),
                None => Reply::Unsound,
            },
            Message::Shuffle(cols, rows) => {
                let ghost cv = vals_view(cols@);
                let mut columns: Vec<Column> = Vec::new();
                let mut i: usize = 0;
                while i < cols.len()
                    invariant
                        i <= cols@.len(),
                        columns@.len() == i,
                        forall|k: int| 0 <= k < i ==> (#[trigger] columns@[k]).vals() == cols@[k]@,
                    decreases cols@.len() - i,
                {
                    columns.push(Column::I64(copy_vals(&cols[i])));
                    i += 1;
                }
                let b: Block = Block { columns, rows };
                assert(columns_view(b.columns@) =~= cv);
                if !fits(&b, &self.query) {
                    return Reply::Unsound;
                }
                let p: Partial = exec_morsel(&b, &self.query);
                let ghost before = self.shuffled@;
                self.shuffled.push(p);
                assert(partials(self.shuffled@) =~= partials(before).push(p@));
                Reply::Wait
            },
            Message::ShufflePart => {
                let mut parts: Vec<Partial> = Vec::new();
                std::mem::swap(&mut parts, &mut self.shuffled);
                self.done = self.done + 1;
                if parts.len() == 0 {
                    return Reply::Wait;
                }
                let merged: Partial = merge_parts(parts);
                let out: Vec<u8> = partial_message(&merged);
                Reply::Send(out)
            },
            Message::Done => Reply::Stop(self.done),
            Message::BadColumn => Reply::Invalid,
            Message::Unknown(_) => Reply::Invalid,
        }
    }
}

/// Merges partial results. They are taken from the end, which makes no
/// difference.
fn merge_parts(parts: Vec<Partial>) -> (r: Partial)
    ensures
        r@ == merged_all(partials(parts@)),
{
    let ghost all = partials(parts@);
    let mut parts: Vec<Partial> = parts;
    let mut r: Partial = Partial::default();
    proof {
        crate::ramp::morsel::partial_merge_laws(merged_all(all), r@, r@);
    }
    while parts.len() > 0
        invariant
            partials(parts@).len() == parts@.len(),
            merged_all(partials(parts@)).merged(r@) == merged_all(all),
        decreases parts@.len(),
    {
        let ghost before = partials(parts@);
        let ghost r0 = r@;
        if let Some(p) = parts.pop() {
            proof {
                assert(before.drop_last() =~= partials(parts@));
                assert(before.last() == p@);
                crate::ramp::morsel::partial_merge_laws(merged_all(partials(parts@)), p@, r0);
                crate::ramp::morsel::partial_merge_laws(r0, p@, p@);
            }
            r.merge(p);
        }
    }
    proof {
        assert(partials(parts@) =~= Seq::<PartialView>::empty());
        crate::ramp::morsel::partial_merge_laws(r@, PartialView::none(), r@);
    }
    r
}

// ---------------------------------------------------------------------------
// What was sent is read back
// ---------------------------------------------------------------------------

/// A worker reads the morsel number it was sent.
pub proof fn morsel_read_back(m: u32, rest: Seq<u8>)
    requires
        m != u32::MAX,
    ensures
        rd_message(wr_morsel(m as nat) + rest) == Some((MessageView::Morsel(m), rest)),
{
    let s = wr_morsel(m as nat) + rest;
    assert(s.skip(1) =~= le(m as nat, 4) + rest);
    u32_read_back(m, rest);
}

proof fn col_read_back(c: (usize, Seq<i64>), rest: Seq<u8>)
    requires
        c.0 <= u32::MAX,
        c.1.len() <= u64::MAX,
    ensures
        rd_col(wr_col(c) + rest) == Some((c, rest)),
{
    let enc = |x: i64| le_i64(x);
    let rd = |s: Seq<u8>| rd_i64(s);
    let body = wr_list(c.1, enc) + rest;
    let r1 = le(c.1.len(), 8) + body;
    assert(wr_col(c) + rest =~= le(c.0 as nat, 4) + r1);
    u32_read_back(c.0 as u32, r1);
    u64_read_back(c.1.len() as u64, body);
    assert forall|k: int, r: Seq<u8>| 0 <= k < c.1.len() implies #[trigger] rd(enc(c.1[k]) + r)
        == Some((c.1[k], r)) by {
        i64_read_back(c.1[k], r);
    }
    list_read_back(c.1, enc, rd, rest);
}

/// A worker reads the columns it was sent.
pub proof fn inline_read_back(cols: Seq<(usize, Seq<i64>)>, rest: Seq<u8>)
    requires
        cols.len() <= u32::MAX,
        forall|i: int|
            #![trigger cols[i]]
            0 <= i < cols.len() ==> cols[i].0 <= u32::MAX && cols[i].1.len() <= u64::MAX,
    ensures
        rd_message(wr_inline(cols) + rest) == Some((MessageView::Inline(cols), rest)),
{
    let enc = |c: (usize, Seq<i64>)| wr_col(c);
    let rd = |s: Seq<u8>| rd_col(s);
    let s = wr_inline(cols) + rest;
    let body = wr_list(cols, enc) + rest;
    let r1 = le(cols.len(), 4) + body;
    assert(s.skip(1) =~= le(u32::MAX as nat, 4) + r1);
    u32_read_back(u32::MAX, r1);
    u32_read_back(cols.len() as u32, body);
    assert forall|k: int, r: Seq<u8>| 0 <= k < cols.len() implies #[trigger] rd(enc(cols[k]) + r)
        == Some((cols[k], r)) by {
        col_read_back(cols[k], r);
    }
    list_read_back(cols, enc, rd, rest);
}

proof fn vals_bytes(v: Seq<i64>)
    ensures
        wr_list(v, |x: i64| le_i64(x)).len() == 8 * v.len(),
        vals_in(wr_list(v, |x: i64| le_i64(x))) == Some(v),
    decreases v.len(),
{
    let enc = |x: i64| le_i64(x);
    let w = wr_list(v, enc);
    if v.len() > 0 {
        let d = v.drop_last();
        vals_bytes(d);
        wr_list_push(d, v.last(), enc);
        assert(d.push(v.last()) =~= v);
        let w0 = wr_list(d, enc);
        le_read_back(v.last() as u64 as nat, 8);
        signed_pattern(v.last(), 0);
        let got = vals_in(w)->Some_0;
        assert(w.len() % 8 == 0);
        assert forall|i: int| 0 <= i < v.len() implies got[i] == v[i] by {
            if i < d.len() {
                assert(w.subrange(8 * i, 8 * i + 8) =~= w0.subrange(8 * i, 8 * i + 8));
                assert(vals_in(w0)->Some_0[i] == d[i]);
            } else {
                assert(w.subrange(8 * i, 8 * i + 8) =~= le_i64(v.last()));
            }
        }
        assert(got =~= v);
    } else {
        assert(vals_in(w)->Some_0 =~= v);
    }
}

proof fn all_vals_read(cols: Seq<Column>)
    ensures
        all_vals(Seq::new(cols.len(), |i: int| wr_list(cols[i].vals(), |x: i64| le_i64(x)))) == Some(
            columns_view(cols),
        ),
    decreases cols.len(),
{
    let l = Seq::new(cols.len(), |i: int| wr_list(cols[i].vals(), |x: i64| le_i64(x)));
    if cols.len() == 0 {
        assert(columns_view(cols) =~= Seq::empty());
    } else {
        let d = cols.drop_last();
        all_vals_read(d);
        assert(l.drop_last() =~= Seq::new(
            d.len(),
            |i: int| wr_list(d[i].vals(), |x: i64| le_i64(x)),
        ));
        vals_bytes(cols.last().vals());
        assert(columns_view(cols) =~= columns_view(d).push(cols.last().vals()));
    }
}

/// A worker reads the shuffled part it was sent.
pub proof fn shuffle_read_back(p: nat, cols: Seq<Column>, rows: nat, rest: Seq<u8>)
    requires
        p <= u32::MAX,
        cols.len() <= u32::MAX,
        rows <= u32::MAX,
        forall|i: int| 0 <= i < cols.len() ==> 8 * (#[trigger] cols[i]).vals().len() <= u32::MAX,
    ensures
        rd_message(wr_shuffle(p, cols, rows) + rest) == Some(
            (MessageView::Shuffle(columns_view(cols), rows as usize), rest),
        ),
{
    let one = |x: i64| le_i64(x);
    let enc = |c: Column| wr_vals(c.vals());
    let l = Seq::new(cols.len(), |i: int| wr_list(cols[i].vals(), one));
    let enc2 = |b: Seq<u8>| le(b.len(), 4) + b;
    let rd = |s: Seq<u8>| rd_bytes(s);
    let s = wr_shuffle(p, cols, rows) + rest;
    let body = wr_list(cols, enc) + rest;
    let r2 = le(rows, 4) + body;
    let r1 = le(cols.len(), 4) + r2;
    assert(s.skip(1) =~= le(p, 4) + r1);
    u32_read_back(p as u32, r1);
    u32_read_back(cols.len() as u32, r2);
    u32_read_back(rows as u32, body);
    same_bytes(cols);
    assert forall|k: int, r: Seq<u8>| 0 <= k < l.len() implies #[trigger] rd(enc2(l[k]) + r) == Some(
        (l[k], r),
    ) by {
        let b = l[k];
        vals_bytes(cols[k].vals());
        assert(enc2(b) + r =~= le(b.len(), 4) + (b + r));
        u32_read_back(b.len() as u32, b + r);
        assert((b + r).take(b.len() as int) =~= b);
        assert((b + r).skip(b.len() as int) =~= r);
    }
    list_read_back(l, enc2, rd, rest);
    all_vals_read(cols);
}

proof fn same_bytes(cols: Seq<Column>)
    ensures
        wr_list(cols, |c: Column| wr_vals(c.vals())) == wr_list(
            Seq::new(cols.len(), |i: int| wr_list(cols[i].vals(), |x: i64| le_i64(x))),
            |b: Seq<u8>| le(b.len(), 4) + b,
        ),
    decreases cols.len(),
{
    let l = Seq::new(cols.len(), |i: int| wr_list(cols[i].vals(), |x: i64| le_i64(x)));
    if cols.len() > 0 {
        let t = cols.skip(1);
        same_bytes(t);
        assert(l.skip(1) =~= Seq::new(t.len(), |i: int| wr_list(t[i].vals(), |x: i64| le_i64(x))));
        vals_bytes(cols[0].vals());
    }
}

} // verus!
