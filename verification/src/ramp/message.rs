//! What coordinator and workers say to each other: little-endian fields behind
//! one byte that tells the message.
use crate::kernel::{entries, lists, Acc, CmpOp};
use crate::ramp::morsel::{Partial, PartialView};
use crate::sql::{AggFn, Query, QueryView, SourceView, TableSource};
use crate::wire::{
    continues, continues_step, from_le, get_i64, get_u64, i64_read_back, le, le_i64, le_read_back,
    list_read_back, put_i64, put_len32, put_u64, rd_i64, rd_list, rd_u64, regroup, signed_pattern,
    u32_at, u64_at, u64_read_back, wr_list, wr_list_push,
};
use std::collections::HashMap;
use vstd::prelude::*;

verus! {

broadcast use vstd::std_specs::hash::group_hash_axioms;

pub const MSG_QUERY: u8 = 1;

pub const MSG_MORSEL: u8 = 2;

pub const MSG_DONE: u8 = 3;

pub const MSG_NEXT: u8 = 4;

pub const MSG_PARTIAL: u8 = 5;

/// A shuffled part of a block.
pub const MSG_SHUFFLE: u8 = 6;

/// The end of a shuffled partition.
pub const MSG_SHUFFLE_PART: u8 = 7;

// ---------------------------------------------------------------------------
// Queries
// ---------------------------------------------------------------------------

/// Bytes of a query behind its message byte.
pub const QUERY_LEN: usize = 35;

pub open spec fn wr_filter(f: Option<(usize, CmpOp, i64)>) -> Seq<u8> {
    match f {
        Some((c, op, lit)) => seq![1u8, op.byte()] + le(c as nat, 4) + le_i64(lit),
        None => seq![0u8, 0u8] + le(0, 4) + le_i64(0),
    }
}

pub open spec fn wr_number(n: Option<usize>) -> Seq<u8> {
    match n {
        Some(c) => seq![1u8] + le(c as nat, 4),
        None => seq![0u8] + le(0, 4),
    }
}

pub open spec fn wr_order(o: Option<(usize, bool)>) -> Seq<u8> {
    match o {
        Some((c, asc)) => seq![
            1u8,
            if asc {
                1u8
            } else {
                0u8
            },
        ] + le(c as nat, 4),
        None => seq![0u8, 0u8] + le(0, 4),
    }
}

/// A query, with its column numbers and its limit modulo `2^32`. Its source is
/// not sent.
pub open spec fn wr_query(q: QueryView) -> Seq<u8> {
    seq![MSG_QUERY, q.agg.byte()] + le(q.agg_col as nat, 4) + wr_filter(q.filter) + wr_number(
        q.group_by,
    ) + wr_order(q.order_by) + wr_number(q.limit)
}

pub open spec fn u32_in(s: Seq<u8>, at: int) -> usize {
    from_le(s.subrange(at, at + 4)) as usize
}

pub open spec fn i64_in(s: Seq<u8>, at: int) -> i64 {
    from_le(s.subrange(at, at + 8)) as u64 as i64
}

pub open spec fn flagged<T>(flag: u8, v: T) -> Option<T> {
    if flag == 1 {
        Some(v)
    } else {
        None
    }
}

/// The query behind its message byte.
pub open spec fn rd_query(s: Seq<u8>) -> Option<QueryView> {
    if s.len() < QUERY_LEN {
        None
    } else {
        Some(
            QueryView {
                agg: AggFn::of_byte(s[0]),
                agg_col: u32_in(s, 1),
                table: SourceView::Table(Seq::empty()),
                filter: flagged(s[5], (u32_in(s, 7), CmpOp::of_byte(s[6]), i64_in(s, 11))),
                group_by: flagged(s[19], u32_in(s, 20)),
                ctes: Seq::empty(),
                order_by: flagged(s[24], (u32_in(s, 26), s[25] != 0)),
                limit: flagged(s[30], u32_in(s, 31)),
            },
        )
    }
}

fn put_number(out: &mut Vec<u8>, n: Option<usize>)
    ensures
        final(out)@ == old(out)@ + wr_number(n),
{
    match n {
        Some(c) => {
            out.push(1);
            put_len32(out, c);
        },
        None => {
            out.push(0);
            put_len32(out, 0);
        },
    }
    assert(out@ =~= old(out)@ + wr_number(n));
}

fn put_filter(out: &mut Vec<u8>, f: Option<(usize, CmpOp, i64)>)
    ensures
        final(out)@ == old(out)@ + wr_filter(f),
{
    match f {
        Some((c, op, lit)) => {
            out.push(1);
            out.push(op.to_u8());
            put_len32(out, c);
            put_i64(out, lit);
        },
        None => {
            out.push(0);
            out.push(0);
            put_len32(out, 0);
            put_i64(out, 0);
        },
    }
    assert(out@ =~= old(out)@ + wr_filter(f));
}

fn put_order(out: &mut Vec<u8>, o: Option<(usize, bool)>)
    ensures
        final(out)@ == old(out)@ + wr_order(o),
{
    match o {
        Some((c, asc)) => {
            out.push(1);
            out.push(if asc { 1 } else { 0 });
            put_len32(out, c);
        },
        None => {
            out.push(0);
            out.push(0);
            put_len32(out, 0);
        },
    }
    assert(out@ =~= old(out)@ + wr_order(o));
}

/// Appends a query.
pub fn write_query(out: &mut Vec<u8>, q: &Query)
    ensures
        final(out)@ == old(out)@ + wr_query(q.model()),
{
    out.push(MSG_QUERY);
    out.push(q.agg.to_u8());
    put_len32(out, q.agg_col);
    let ghost o = old(out)@;
    let ghost h = seq![MSG_QUERY, q.agg.byte()] + le(q.agg_col as nat, 4);
    assert(out@ =~= o + h);
    put_filter(out, q.filter);
    put_number(out, q.group_by);
    put_order(out, q.order_by);
    put_number(out, q.limit);
    proof {
        let f = wr_filter(q.filter);
        let g = wr_number(q.group_by);
        let r = wr_order(q.order_by);
        regroup(o, h, f);
        regroup(o, h + f, g);
        regroup(o, h + f + g, r);
        regroup(o, h + f + g + r, wr_number(q.limit));
    }
}

fn flag<T: Copy>(f: u8, v: T) -> (r: Option<T>)
    ensures
        r == flagged(f, v),
{
    if f == 1 {
        Some(v)
    } else {
        None
    }
}

/// Reads the query behind its message byte.
pub fn read_query(buf: &[u8]) -> (r: Option<Query>)
    ensures
        match r {
            Some(q) => rd_query(buf@) == Some(q.model()),
            None => rd_query(buf@) is None,
        },
{
    if buf.len() < QUERY_LEN {
        return None;
    }
    let lit: i64 = #[verifier::truncate] (u64_at(buf, 11) as i64);
    let name: String = String::new();
    assert(name@ =~= Seq::<char>::empty());
    let q: Query = Query {
        agg: AggFn::from_u8(buf[0]),
        agg_col: u32_at(buf, 1) as usize,
        table: TableSource::Table(name),
        filter: flag(buf[5], (u32_at(buf, 7) as usize, CmpOp::from_u8(buf[6]), lit)),
        group_by: flag(buf[19], u32_at(buf, 20) as usize),
        ctes: Vec::new(),
        order_by: flag(buf[24], (u32_at(buf, 26) as usize, buf[25] != 0)),
        limit: flag(buf[30], u32_at(buf, 31) as usize),
    };
    proof {
        let m = q.model();
        let w = rd_query(buf@)->Some_0;
        assert(m.agg_col == w.agg_col);
        assert(m.filter == w.filter);
        assert(m.group_by == w.group_by);
        assert(m.order_by == w.order_by);
        assert(m.limit == w.limit);
        assert(m.ctes =~= w.ctes);
        assert(m.table =~= w.table);
        assert(m =~= w);
    }
    Some(q)
}

/// Whether the numbers of a query fit the four bytes they are sent in.
pub open spec fn query_fits(q: QueryView) -> bool {
    &&& q.agg_col <= u32::MAX
    &&& q.filter matches Some((c, op, lit)) ==> c <= u32::MAX
    &&& q.group_by matches Some(c) ==> c <= u32::MAX
    &&& q.order_by matches Some((c, asc)) ==> c <= u32::MAX
    &&& q.limit matches Some(n) ==> n <= u32::MAX
}

proof fn number_bytes(n: Option<usize>)
    requires
        n matches Some(c) ==> c <= u32::MAX,
    ensures
        wr_number(n).len() == 5,
        flagged(wr_number(n)[0], u32_in(wr_number(n), 1)) == n,
{
    let c: nat = match n {
        Some(c) => c as nat,
        None => 0,
    };
    le_read_back(c, 4);
    assert(wr_number(n).subrange(1, 5) =~= le(c, 4));
}

proof fn order_bytes(o: Option<(usize, bool)>)
    requires
        o matches Some((c, asc)) ==> c <= u32::MAX,
    ensures
        wr_order(o).len() == 6,
        flagged(wr_order(o)[0], (u32_in(wr_order(o), 2), wr_order(o)[1] != 0)) == o,
{
    let c: nat = match o {
        Some((c, asc)) => c as nat,
        None => 0,
    };
    le_read_back(c, 4);
    assert(wr_order(o).subrange(2, 6) =~= le(c, 4));
}

proof fn filter_bytes(f: Option<(usize, CmpOp, i64)>)
    requires
        f matches Some((c, op, lit)) ==> c <= u32::MAX,
    ensures
        wr_filter(f).len() == 14,
        flagged(
            wr_filter(f)[0],
            (u32_in(wr_filter(f), 2), CmpOp::of_byte(wr_filter(f)[1]), i64_in(wr_filter(f), 6)),
        ) == f,
{
    let c: nat = match f {
        Some((c, op, lit)) => c as nat,
        None => 0,
    };
    let l: i64 = match f {
        Some((c, op, lit)) => lit,
        None => 0,
    };
    le_read_back(c, 4);
    le_read_back(l as u64 as nat, 8);
    signed_pattern(l, 0);
    assert(wr_filter(f).subrange(2, 6) =~= le(c, 4));
    assert(wr_filter(f).subrange(6, 14) =~= le_i64(l));
    if let Some((c, op, lit)) = f {
        crate::kernel::op_read_back(op);
    }
}

/// A worker reads the query that was sent, but for its source.
pub proof fn query_read_back(q: QueryView)
    requires
        query_fits(q),
    ensures
        wr_query(q)[0] == MSG_QUERY,
        wr_query(q).len() == QUERY_LEN + 1,
        rd_query(wr_query(q).skip(1)) == Some(
            QueryView { table: SourceView::Table(Seq::empty()), ctes: Seq::empty(), ..q },
        ),
{
    let w = wr_query(q);
    let s = w.skip(1);
    le_read_back(q.agg_col as nat, 4);
    filter_bytes(q.filter);
    number_bytes(q.group_by);
    order_bytes(q.order_by);
    number_bytes(q.limit);
    crate::sql::agg_read_back(q.agg);
    assert(s.subrange(1, 5) =~= le(q.agg_col as nat, 4));
    let f = wr_filter(q.filter);
    assert(s.subrange(5, 19) =~= f);
    assert(s.subrange(7, 11) =~= f.subrange(2, 6));
    assert(s.subrange(11, 19) =~= f.subrange(6, 14));
    assert(s[5] == f[0] && s[6] == f[1]);
    let g = wr_number(q.group_by);
    assert(s.subrange(19, 24) =~= g);
    assert(s.subrange(20, 24) =~= g.subrange(1, 5));
    assert(s[19] == g[0]);
    let o = wr_order(q.order_by);
    assert(s.subrange(24, 30) =~= o);
    assert(s.subrange(26, 30) =~= o.subrange(2, 6));
    assert(s[24] == o[0] && s[25] == o[1]);
    let l = wr_number(q.limit);
    assert(s.subrange(30, 35) =~= l);
    assert(s.subrange(31, 35) =~= l.subrange(1, 5));
    assert(s[30] == l[0]);
}

// ---------------------------------------------------------------------------
// Partial results
// ---------------------------------------------------------------------------

pub open spec fn wr_acc(a: Acc) -> Seq<u8> {
    le_i64(a.sum) + (le(a.count as nat, 8) + (le_i64(a.min) + le_i64(a.max)))
}

pub open spec fn rd_acc(s: Seq<u8>) -> Option<(Acc, Seq<u8>)> {
    match rd_i64(s) {
        None => None,
        Some((sum, s)) => match rd_u64(s) {
            None => None,
            Some((count, s)) => match rd_i64(s) {
                None => None,
                Some((min, s)) => match rd_i64(s) {
                    None => None,
                    Some((max, s)) => Some((Acc { sum, count, min, max }, s)),
                },
            },
        },
    }
}

pub open spec fn wr_group(e: (i64, Acc)) -> Seq<u8> {
    le_i64(e.0) + wr_acc(e.1)
}

pub open spec fn rd_group(s: Seq<u8>) -> Option<((i64, Acc), Seq<u8>)> {
    match rd_i64(s) {
        None => None,
        Some((k, s)) => match rd_acc(s) {
            None => None,
            Some((a, s)) => Some(((k, a), s)),
        },
    }
}

/// A partial result whose groups are listed in some order.
pub open spec fn wr_partial(scalar: Acc, l: Seq<(i64, Acc)>) -> Seq<u8> {
    seq![MSG_PARTIAL] + (wr_acc(scalar) + (le(l.len(), 8) + wr_list(
        l,
        |e: (i64, Acc)| wr_group(e),
    )))
}

/// The map of some entries; a later one replaces an earlier one of its key.
pub open spec fn map_of(l: Seq<(i64, Acc)>) -> Map<i64, Acc>
    decreases l.len(),
{
    if l.len() == 0 {
        Map::empty()
    } else {
        map_of(l.drop_last()).insert(l.last().0, l.last().1)
    }
}

/// The partial result behind its message byte.
pub open spec fn rd_partial(s: Seq<u8>) -> Option<(PartialView, Seq<u8>)> {
    match rd_acc(s) {
        None => None,
        Some((scalar, s)) => match rd_u64(s) {
            None => None,
            Some((n, s)) => match rd_list(s, n as nat, |s: Seq<u8>| rd_group(s)) {
                None => None,
                Some((l, s)) => Some((PartialView { scalar, groups: map_of(l) }, s)),
            },
        },
    }
}

fn put_acc(out: &mut Vec<u8>, a: &Acc)
    ensures
        final(out)@ == old(out)@ + wr_acc(*a),
{
    put_i64(out, a.sum);
    put_u64(out, a.count);
    put_i64(out, a.min);
    put_i64(out, a.max);
    assert(out@ =~= old(out)@ + wr_acc(*a));
}

/// Appends a partial result, its groups in some order.
pub fn write_partial(out: &mut Vec<u8>, p: &Partial)
    ensures
        exists|l: Seq<(i64, Acc)>|
            lists(l, p.groups@) && final(out)@ == old(out)@ + #[trigger] wr_partial(p.scalar, l),
{
    let ghost enc = |e: (i64, Acc)| wr_group(e);
    let l: Vec<(i64, Acc)> = entries(&p.groups);
    out.push(MSG_PARTIAL);
    put_acc(out, &p.scalar);
    put_u64(out, l.len() as u64);
    let ghost head = out@;
    let mut i: usize = 0;
    assert(l@.take(0) =~= Seq::<(i64, Acc)>::empty());
    assert(out@ =~= head + wr_list(l@.take(0), enc));
    while i < l.len()
        invariant
            i <= l@.len(),
            enc == (|e: (i64, Acc)| wr_group(e)),
            out@ == head + wr_list(l@.take(i as int), enc),
        decreases l@.len() - i,
    {
        let ghost o = out@;
        put_i64(out, l[i].0);
        put_acc(out, &l[i].1);
        proof {
            wr_list_push(l@.take(i as int), l@[i as int], enc);
            assert(l@.take(i + 1) =~= l@.take(i as int).push(l@[i as int]));
            assert(out@ =~= o + wr_group(l@[i as int]));
            assert(out@ =~= head + wr_list(l@.take(i + 1), enc));
        }
        i += 1;
    }
    proof {
        assert(l@.take(i as int) =~= l@);
        assert(out@ =~= old(out)@ + wr_partial(p.scalar, l@));
    }
}

fn get_acc(buf: &[u8], pos: &mut usize) -> (r: Option<Acc>)
    requires
        *old(pos) <= buf@.len(),
    ensures
        *final(pos) <= buf@.len(),
        match rd_acc(buf@.skip(*old(pos) as int)) {
            Some((a, rest)) => r == Some(a) && buf@.skip(*final(pos) as int) == rest,
            None => r is None,
        },
{
    let sum: i64 = match get_i64(buf, pos) {
        Some(v) => v,
        None => return None,
    };
    let count: u64 = match get_u64(buf, pos) {
        Some(v) => v,
        None => return None,
    };
    let min: i64 = match get_i64(buf, pos) {
        Some(v) => v,
        None => return None,
    };
    let max: i64 = match get_i64(buf, pos) {
        Some(v) => v,
        None => return None,
    };
    Some(Acc { sum, count, min, max })
}

/// Reads the partial result behind its message byte, once all of it is there,
/// and moves behind it.
pub fn read_partial(buf: &[u8], pos: &mut usize) -> (r: Option<Partial>)
    requires
        *old(pos) <= buf@.len(),
    ensures
        *final(pos) <= buf@.len(),
        match rd_partial(buf@.skip(*old(pos) as int)) {
            Some((p, rest)) => r is Some && r->0@ == p && buf@.skip(*final(pos) as int) == rest,
            None => r is None,
        },
{
    let scalar: Acc = match get_acc(buf, pos) {
        Some(a) => a,
        None => return None,
    };
    let n: u64 = match get_u64(buf, pos) {
        Some(n) => n,
        None => return None,
    };
    let ghost rd = |s: Seq<u8>| rd_group(s);
    let ghost want = rd_list(buf@.skip(*pos as int), n as nat, rd);
    let ghost mut got = Seq::<(i64, Acc)>::empty();
    let mut groups: HashMap<i64, Acc> = HashMap::new();
    let mut i: u64 = 0;
    proof {
        if let Some((xs, rest)) = want {
            assert(got + xs =~= xs);
        }
        assert(groups@ =~= map_of(got));
    }
    while i < n
        invariant
            i <= n,
            *pos <= buf@.len(),
            rd == (|s: Seq<u8>| rd_group(s)),
            rd_partial(buf@.skip(*old(pos) as int)) == (match want {
                None => None::<(PartialView, Seq<u8>)>,
                Some((l, s)) => Some((PartialView { scalar, groups: map_of(l) }, s)),
            }),
            continues(want, got, rd_list(buf@.skip(*pos as int), (n - i) as nat, rd)),
            groups@ == map_of(got),
        decreases n - i,
    {
        proof {
            continues_step(want, got, buf@.skip(*pos as int), (n - i) as nat, rd);
        }
        let ghost here = buf@.skip(*pos as int);
        let k: i64 = match get_i64(buf, pos) {
            Some(k) => k,
            None => {
                assert(rd(here) is None);
                return None;
            },
        };
        let a: Acc = match get_acc(buf, pos) {
            Some(a) => a,
            None => {
                assert(rd(here) is None);
                return None;
            },
        };
        proof {
            assert(rd(here) == Some(((k, a), buf@.skip(*pos as int))));
            assert(got.push((k, a)).drop_last() =~= got);
            got = got.push((k, a));
        }
        groups.insert(k, a);
        i += 1;
    }
    proof {
        assert(got + Seq::<(i64, Acc)>::empty() =~= got);
    }
    let p: Partial = Partial { scalar, groups };
    assert(p@ =~= PartialView { scalar, groups: map_of(got) });
    Some(p)
}

/// Whether the bytes at hand are a partial result, all of it.
pub enum PartialMessage {
    Partial(Partial),
    /// More bytes are needed.
    More,
    /// Another message.
    Other,
}

/// Reads a message that has to be a partial result.
pub fn read_partial_msg(buf: &[u8]) -> (r: PartialMessage)
    ensures
        match r {
            PartialMessage::More => buf@.len() == 0 || (buf@[0] == MSG_PARTIAL && rd_partial(
                buf@.skip(1),
            ) is None),
            PartialMessage::Other => buf@.len() > 0 && buf@[0] != MSG_PARTIAL,
            PartialMessage::Partial(p) => buf@.len() > 0 && buf@[0] == MSG_PARTIAL && (rd_partial(
                buf@.skip(1),
            ) matches Some((v, rest)) && p@ == v),
        },
{
    if buf.len() == 0 {
        return PartialMessage::More;
    }
    if buf[0] != MSG_PARTIAL {
        return PartialMessage::Other;
    }
    let mut pos: usize = 1;
    match read_partial(buf, &mut pos) {
        Some(p) => PartialMessage::Partial(p),
        None => PartialMessage::More,
    }
}

proof fn acc_read_back(a: Acc, rest: Seq<u8>)
    ensures
        rd_acc(wr_acc(a) + rest) == Some((a, rest)),
{
    let r3 = le_i64(a.max) + rest;
    let r2 = le_i64(a.min) + r3;
    let r1 = le(a.count as nat, 8) + r2;
    assert(wr_acc(a) + rest =~= le_i64(a.sum) + r1);
    i64_read_back(a.sum, r1);
    u64_read_back(a.count, r2);
    i64_read_back(a.min, r3);
    i64_read_back(a.max, rest);
}

proof fn group_read_back(e: (i64, Acc), rest: Seq<u8>)
    ensures
        rd_group(wr_group(e) + rest) == Some((e, rest)),
{
    assert(wr_group(e) + rest =~= le_i64(e.0) + (wr_acc(e.1) + rest));
    i64_read_back(e.0, wr_acc(e.1) + rest);
    acc_read_back(e.1, rest);
}

proof fn map_of_value(l: Seq<(i64, Acc)>)
    requires
        forall|i: int, j: int| 0 <= i < j < l.len() ==> (#[trigger] l[i]).0 != (#[trigger] l[j]).0,
    ensures
        forall|k: i64|
            #[trigger] map_of(l).contains_key(k) <==> exists|i: int|
                0 <= i < l.len() && (#[trigger] l[i]).0 == k,
        forall|i: int| #![trigger l[i]] 0 <= i < l.len() ==> map_of(l)[l[i].0] == l[i].1,
    decreases l.len(),
{
    if l.len() > 0 {
        let d = l.drop_last();
        assert forall|i: int, j: int| 0 <= i < j < d.len() implies (#[trigger] d[i]).0
            != (#[trigger] d[j]).0 by {
            assert(l[i].0 != l[j].0);
        }
        map_of_value(d);
        assert forall|k: i64|
            #[trigger] map_of(l).contains_key(k) <==> exists|i: int|
                0 <= i < l.len() && (#[trigger] l[i]).0 == k by {
            assert(map_of(d).contains_key(k) <==> exists|i: int|
                0 <= i < d.len() && (#[trigger] d[i]).0 == k);
            assert(map_of(l).contains_key(k) <==> map_of(d).contains_key(k) || k == l.last().0);
            if exists|i: int| 0 <= i < d.len() && (#[trigger] d[i]).0 == k {
                let i = choose|i: int| 0 <= i < d.len() && (#[trigger] d[i]).0 == k;
                assert(l[i].0 == k);
            }
            if exists|i: int| 0 <= i < l.len() && (#[trigger] l[i]).0 == k {
                let i = choose|i: int| 0 <= i < l.len() && (#[trigger] l[i]).0 == k;
                if i < d.len() {
                    assert(d[i].0 == k);
                }
            }
            assert(l[l.len() - 1] == l.last());
        }
        assert forall|i: int| #![trigger l[i]] 0 <= i < l.len() implies map_of(l)[l[i].0]
            == l[i].1 by {
            if i < d.len() {
                assert(d[i] == l[i]);
                assert(l[i].0 != l[l.len() - 1].0);
            }
        }
    }
}

/// A coordinator reads the partial result a worker sent, in whatever order its
/// groups were listed.
pub proof fn partial_read_back(p: PartialView, l: Seq<(i64, Acc)>, rest: Seq<u8>)
    requires
        lists(l, p.groups),
        l.len() <= u64::MAX,
    ensures
        wr_partial(p.scalar, l)[0] == MSG_PARTIAL,
        rd_partial(wr_partial(p.scalar, l).skip(1) + rest) == Some((p, rest)),
{
    let enc = |e: (i64, Acc)| wr_group(e);
    let rd = |s: Seq<u8>| rd_group(s);
    let w = wr_partial(p.scalar, l);
    let body = wr_list(l, enc) + rest;
    let r1 = le(l.len(), 8) + body;
    assert(w.skip(1) + rest =~= wr_acc(p.scalar) + r1);
    acc_read_back(p.scalar, r1);
    u64_read_back(l.len() as u64, body);
    assert forall|k: int, r: Seq<u8>| 0 <= k < l.len() implies #[trigger] rd(enc(l[k]) + r) == Some(
        (l[k], r),
    ) by {
        group_read_back(l[k], r);
    }
    list_read_back(l, enc, rd, rest);
    map_of_value(l);
    assert forall|k: i64| #[trigger] map_of(l).contains_key(k) <==> p.groups.contains_key(k) by {
        if map_of(l).contains_key(k) {
            let i = choose|i: int| 0 <= i < l.len() && (#[trigger] l[i]).0 == k;
            assert(p.groups.contains_key(l[i].0));
        }
    }
    assert forall|k: i64| #[trigger] map_of(l).contains_key(k) implies map_of(l)[k]
        == p.groups[k] by {
        let i = choose|i: int| 0 <= i < l.len() && (#[trigger] l[i]).0 == k;
        assert(map_of(l)[l[i].0] == l[i].1);
    }
    assert(map_of(l) =~= p.groups);
}

} // verus!
