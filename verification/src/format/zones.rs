//! What a file's statistics say of its values.
use crate::format::meta::{holds, range_prunes_exactly, CmpOp, ColumnView, DataType, LitView};
use crate::format::reader::zone_prunes;
use crate::format::writer::{
    chunk_meta, codes_of, dict_distinct, dict_of, max_text, min_text, page_bounds, page_count,
    page_end,
};
use crate::format::page::PAGE_ROWS;
use crate::format::meta::ChunkView;
use crate::relations::a_zone_spans_its_values;
use crate::tally::spans;
use crate::text::{bytes_lt_transitive, text_lt, text_lt_total};
use vstd::prelude::*;
use vstd::utf8::encode_utf8;

verus! {

/// The first and the last of some texts are among them, and none sorts before
/// the one or behind the other.
pub proof fn text_ends_are_texts(d: Seq<Seq<char>>)
    ensures
        d.len() > 0 ==> d.contains(min_text(d)) && d.contains(max_text(d)),
        forall|i: int|
            0 <= i < d.len() ==> !text_lt(#[trigger] d[i], min_text(d)) && !text_lt(max_text(d), d[i]),
        d.len() == 0 ==> min_text(d).len() == 0 && max_text(d).len() == 0,
    decreases d.len(),
{
    if d.len() > 0 {
        let p = d.drop_last();
        let x = d.last();
        text_ends_are_texts(p);
        assert(d[d.len() - 1] == x);
        text_lt_total(x, x);
        let (lo, hi) = (min_text(p), max_text(p));
        if p.len() > 0 {
            let i = choose|i: int| 0 <= i < p.len() && p[i] == lo;
            let j = choose|j: int| 0 <= j < p.len() && p[j] == hi;
            assert(d[i] == lo && d[j] == hi);
        }
        assert forall|i: int| 0 <= i < d.len() implies !text_lt(#[trigger] d[i], min_text(d))
            && !text_lt(max_text(d), d[i]) by {
            if i < p.len() {
                assert(p[i] == d[i]);
                if text_lt(x, lo) && text_lt(d[i], x) {
                    bytes_lt_transitive(encode_utf8(d[i]), encode_utf8(x), encode_utf8(lo));
                }
                if text_lt(hi, x) && text_lt(x, d[i]) {
                    bytes_lt_transitive(encode_utf8(hi), encode_utf8(x), encode_utf8(d[i]));
                }
            }
        }
    }
}

/// A chunk of integers is bounded by its least and greatest value, and each of
/// its pages by those of the page; the pages hold all rows.
pub proof fn a_chunk_of_integers_is_bounded(v: Seq<i64>, pos: nat)
    ensures
        ({
            let c = chunk_meta(ColumnView::Int64(v), pos);
            &&& c.dtype == DataType::Int64
            &&& spans(c.min_i, c.max_i, v)
            &&& c.pages.len() == page_count(v.len())
            &&& forall|k: int|
                0 <= k < c.pages.len() ==> 0 <= k * PAGE_ROWS < page_end(v.len(), k) <= v.len()
                    && spans(
                    (#[trigger] c.pages[k]).min,
                    c.pages[k].max,
                    v.subrange(k * PAGE_ROWS, page_end(v.len(), k)),
                ) && c.pages[k].rows == page_end(v.len(), k) - k * PAGE_ROWS
            &&& v.len() > 0 ==> c.pages.len() > 0 && page_end(v.len(), c.pages.len() - 1) == v.len()
        }),
{
    let c = chunk_meta(ColumnView::Int64(v), pos);
    a_zone_spans_its_values(v);
    assert forall|k: int| 0 <= k < c.pages.len() implies 0 <= k * PAGE_ROWS < page_end(v.len(), k)
        <= v.len() && spans(
        (#[trigger] c.pages[k]).min,
        c.pages[k].max,
        v.subrange(k * PAGE_ROWS, page_end(v.len(), k)),
    ) && c.pages[k].rows == page_end(v.len(), k) - k * PAGE_ROWS by {
        page_bounds(v.len(), k);
        a_zone_spans_its_values(v.subrange(k * PAGE_ROWS, page_end(v.len(), k)));
    }
    if v.len() > 0 {
        page_bounds(v.len(), page_count(v.len()) - 1);
    }
}

/// A chunk of texts is bounded by its first and last text, and its dictionary
/// counts the different ones.
pub proof fn a_chunk_of_texts_is_bounded(v: Seq<Seq<char>>, pos: nat, i: int)
    requires
        0 <= i < v.len(),
        v.len() <= u32::MAX,
    ensures
        ({
            let c = chunk_meta(ColumnView::Utf8(v), pos);
            &&& c.dtype == DataType::Utf8
            &&& v.contains(c.min_s) && v.contains(c.max_s)
            &&& !text_lt(v[i], c.min_s) && !text_lt(c.max_s, v[i])
            &&& c.dict_count == dict_of(v).len()
        }),
{
    let d = dict_of(v);
    dict_distinct(v);
    text_ends_are_texts(d);
    assert(d.contains(v[i]));
    let k = choose|k: int| 0 <= k < d.len() && d[k] == v[i];
    let a = choose|a: int| 0 <= a < d.len() && d[a] == min_text(d);
    let b = choose|b: int| 0 <= b < d.len() && d[b] == max_text(d);
    assert(v.contains(d[a]) && v.contains(d[b]));
}

/// A text's code is its place in the dictionary: two rows have the same code
/// exactly where they have the same text.
pub proof fn a_code_stands_for_its_text(v: Seq<Seq<char>>, i: int, j: int)
    requires
        0 <= i < v.len(),
        0 <= j < v.len(),
        v.len() <= u32::MAX,
    ensures
        codes_of(v).len() == v.len(),
        codes_of(v)[i] < dict_of(v).len(),
        dict_of(v)[codes_of(v)[i] as int] == v[i],
        codes_of(v)[i] == codes_of(v)[j] <==> v[i] == v[j],
{
    let d = dict_of(v);
    dict_distinct(v);
    assert(d.contains(v[i]) && d.contains(v[j]));
    d.index_of_first_ensures(v[i]);
    let a = choose|k: int| 0 <= k < d.len() && d[k] == v[i];
    let b = choose|k: int| 0 <= k < d.len() && d[k] == v[j];
    assert(0 <= d.index_of(v[i]) < d.len() && d[d.index_of(v[i])] == v[i]);
    assert(0 <= d.index_of(v[j]) < d.len() && d[d.index_of(v[j])] == v[j]);
}

/// A chunk is ruled out for an integer exactly where no value between its ends
/// satisfies the predicate, and for a text where equality asks for one outside
/// of them.
pub proof fn a_chunk_is_ruled_out_exactly(c: ChunkView, op: CmpOp, l: i64, s: Seq<char>)
    requires
        c.min_i <= c.max_i,
    ensures
        c.dtype == DataType::Int64 ==> (zone_prunes(c, op, LitView::Int(l)) <==> forall|v: i64|
            c.min_i <= v <= c.max_i ==> !#[trigger] holds(op, v, l)),
        c.dtype == DataType::Utf8 && op == CmpOp::Eq ==> (zone_prunes(c, op, LitView::Str(s))
            <==> text_lt(s, c.min_s) || text_lt(c.max_s, s)),
        c.dtype == DataType::Utf8 && op != CmpOp::Eq ==> !zone_prunes(c, op, LitView::Str(s)),
        c.dtype == DataType::Int64 ==> !zone_prunes(c, op, LitView::Str(s)),
        c.dtype == DataType::Utf8 ==> !zone_prunes(c, op, LitView::Int(l)),
{
    range_prunes_exactly(op, c.min_i, c.max_i, l);
}

} // verus!
