//! What a reader finds in a file is what was written to it.
use crate::format::lz4::{compressed, compressed_bound, round_trip};
use crate::format::meta::{
    footer, footer_read_back, holds, range_prunes, short_footer_fits, CmpOp, ColumnView, FieldView,
    LitView, PageMeta, RowGroupView,
};
use crate::format::page::{i64_page_bound, i64_page_read_back, PAGE_ROWS};
use crate::format::reader::{
    all_rows, bytes_at, chunk_dict, code_vals, eval_pages, evaluated, gather_pages, gathered, hits,
    i64_vals, lookup, pick, pred_typed, rd_dict, rd_file, rd_words, run_below, zone_prunes,
    Counters,
};
use crate::format::writer::{
    chunk_bytes, chunk_meta, code_image, code_images, codes_of, column_fits, dict_distinct,
    dict_entries_fit, dict_of, dict_raw, file_head, file_tail, i64_image, i64_images, magic,
    max_text, min_max_bound, min_text, page_bounds, page_count, page_end, page_rows, payload,
    payload_snoc, place, placed, rowgroup_bytes, rowgroup_bytes_snoc, rowgroup_meta, words,
    words_len, PageImage,
};
use crate::text::{bytes_lt_transitive, text_lt, text_lt_total};
use crate::wire::{
    le, le_len, le_read_back, list_read_back, rd_str, str_read_back, u32_read_back, wr_list, wr_str,
};
use vstd::prelude::*;
use vstd::utf8::encode_utf8;

verus! {

// ---------------------------------------------------------------------------
// Pages in place
// ---------------------------------------------------------------------------

/// Bytes inside bytes.
proof fn bytes_within(file: Seq<u8>, off: nat, whole: Seq<u8>, at: nat, len: nat)
    requires
        bytes_at(file, off, whole.len()) == Some(whole),
        at + len <= whole.len(),
    ensures
        bytes_at(file, off + at, len) == Some(whole.subrange(at as int, (at + len) as int)),
{
    assert(file.subrange((off + at) as int, (off + at + len) as int) =~= whole.subrange(
        at as int,
        (at + len) as int,
    ));
}

/// A page stands in a payload where its directory entry says.
proof fn page_in_payload(pages: Seq<PageImage>, k: int)
    requires
        0 <= k < pages.len(),
    ensures
        payload(pages.take(k)).len() + pages[k].payload.len() <= payload(pages).len(),
        payload(pages).subrange(
            payload(pages.take(k)).len() as int,
            (payload(pages.take(k)).len() + pages[k].payload.len()) as int,
        ) == pages[k].payload,
    decreases pages.len(),
{
    let a = payload(pages.take(k)).len() as int;
    let b = a + pages[k].payload.len();
    payload_snoc(pages, k);
    if k + 1 == pages.len() {
        assert(pages.take(k) =~= pages.drop_last());
        assert(payload(pages).subrange(a, b) =~= pages[k].payload);
    } else {
        let d = pages.drop_last();
        page_in_payload(d, k);
        assert(d.take(k) =~= pages.take(k));
        assert(payload(pages).subrange(a, b) =~= payload(d).subrange(a, b));
    }
}

/// The bytes a placed page's entry points to are its payload.
proof fn placed_page_found(file: Seq<u8>, pages: Seq<PageImage>, pos: nat, k: int)
    requires
        0 <= k < pages.len(),
        bytes_at(file, pos, payload(pages).len()) == Some(payload(pages)),
        pos + payload(pages).len() <= u64::MAX,
        pages[k].payload.len() <= u32::MAX,
    ensures
        bytes_at(
            file,
            placed(pages, pos, k).offset as nat,
            placed(pages, pos, k).comp_len as nat,
        ) == Some(pages[k].payload),
{
    page_in_payload(pages, k);
    bytes_within(
        file,
        pos,
        payload(pages),
        payload(pages.take(k)).len(),
        pages[k].payload.len(),
    );
}

/// Whether the entries of `pages`, read by `vals`, give the pages of `all`.
spec fn serves<T>(
    pages: Seq<PageMeta>,
    vals: spec_fn(PageMeta) -> Option<Seq<T>>,
    all: Seq<T>,
) -> bool {
    &&& pages.len() == page_count(all.len())
    &&& forall|k: int|
        #![trigger pages[k]]
        0 <= k < pages.len() ==> vals(pages[k]) == Some(page_rows(all, k)) && pages[k].rows
            == page_rows(all, k).len()
}

proof fn i64_pages_serve(file: Seq<u8>, v: Seq<i64>, pos: nat)
    requires
        bytes_at(file, pos, payload(i64_images(v)).len()) == Some(payload(i64_images(v))),
        pos + payload(i64_images(v)).len() <= u64::MAX,
    ensures
        serves(place(i64_images(v), pos), |p: PageMeta| i64_vals(file, p), v),
{
    let images = i64_images(v);
    let pages = place(images, pos);
    let vals = |p: PageMeta| i64_vals(file, p);
    assert forall|k: int| #![trigger pages[k]] 0 <= k < pages.len() implies vals(pages[k]) == Some(
        page_rows(v, k),
    ) && pages[k].rows == page_rows(v, k).len() by {
        page_bounds(v.len(), k);
        let rows = page_rows(v, k);
        assert(images[k] == i64_image(rows));
        i64_page_bound(rows);
        placed_page_found(file, images, pos, k);
        i64_page_read_back(rows);
    }
}

proof fn words_read_back(codes: Seq<u32>)
    ensures
        rd_words(words(codes)) == codes,
    decreases codes.len(),
{
    words_len(codes);
    if codes.len() > 0 {
        let t = codes.skip(1);
        let ew = |c: u32| le(c as nat, 4);
        words_read_back(t);
        words_len(t);
        le_read_back(codes[0] as nat, 4);
        let raw = words(codes);
        assert(raw == le(codes[0] as nat, 4) + words(t));
        assert forall|i: int| 0 <= i < codes.len() implies rd_words(raw)[i] == codes[i] by {
            if i == 0 {
                assert(raw.subrange(0, 4) =~= le(codes[0] as nat, 4));
            } else {
                assert(raw.subrange(4 * i, 4 * i + 4) =~= words(t).subrange(
                    4 * (i - 1),
                    4 * (i - 1) + 4,
                ));
                assert(rd_words(words(t))[i - 1] == t[i - 1]);
            }
        }
    }
    assert(rd_words(words(codes)) =~= codes);
}

proof fn code_pages_serve(file: Seq<u8>, codes: Seq<u32>, pos: nat)
    requires
        bytes_at(file, pos, payload(code_images(codes)).len()) == Some(payload(code_images(codes))),
        pos + payload(code_images(codes)).len() <= u64::MAX,
    ensures
        serves(place(code_images(codes), pos), |p: PageMeta| code_vals(file, p), codes),
{
    let images = code_images(codes);
    let pages = place(images, pos);
    let vals = |p: PageMeta| code_vals(file, p);
    assert forall|k: int| #![trigger pages[k]] 0 <= k < pages.len() implies vals(pages[k]) == Some(
        page_rows(codes, k),
    ) && pages[k].rows == page_rows(codes, k).len() by {
        page_bounds(codes.len(), k);
        let rows = page_rows(codes, k);
        assert(images[k] == code_image(rows));
        words_len(rows);
        compressed_bound(words(rows));
        placed_page_found(file, images, pos, k);
        round_trip(words(rows));
        words_read_back(rows);
    }
}

// ---------------------------------------------------------------------------
// Gathering
// ---------------------------------------------------------------------------

/// Whether rows never go back.
pub open spec fn ascending(sel: Seq<u32>) -> bool {
    forall|i: int, j: int| 0 <= i <= j < sel.len() ==> sel[i] <= sel[j]
}

/// The values at rows `sel`.
pub open spec fn at_rows<T>(all: Seq<T>, sel: Seq<u32>) -> Seq<T> {
    Seq::new(sel.len(), |i: int| all[sel[i] as int])
}

proof fn run_below_is(sel: Seq<u32>, end: nat)
    ensures
        run_below(sel, end) <= sel.len(),
        forall|i: int| 0 <= i < run_below(sel, end) ==> (#[trigger] sel[i]) < end,
        run_below(sel, end) < sel.len() ==> sel[run_below(sel, end) as int] >= end,
    decreases sel.len(),
{
    if sel.len() > 0 && sel[0] < end {
        run_below_is(sel.skip(1), end);
        assert forall|i: int| 0 <= i < run_below(sel, end) implies (#[trigger] sel[i]) < end by {
            if i > 0 {
                assert(sel.skip(1)[i - 1] < end);
            }
        }
    }
}

/// Where page `k` of `n` rows starts; the end for the page past the last.
pub open spec fn page_start(n: nat, k: int) -> nat {
    if k < page_count(n) { (k * PAGE_ROWS) as nat } else { n }
}

proof fn page_start_steps(n: nat, k: int)
    requires
        0 <= k < page_count(n),
    ensures
        page_start(n, k) == k * PAGE_ROWS,
        page_start(n, k + 1) == page_end(n, k),
        page_start(n, k) < page_end(n, k) <= n,
{
    page_bounds(n, k);
}

/// Whether one of some rows lies in page `k` of `n` rows.
pub open spec fn page_wanted(sel: Seq<u32>, n: nat, k: int) -> bool {
    exists|i: int|
        0 <= i < sel.len() && page_start(n, k) <= #[trigger] sel[i] && sel[i] < page_end(n, k)
}

/// The pages that some rows lie in.
pub open spec fn pages_wanted(sel: Seq<u32>, n: nat) -> spec_fn(int) -> bool {
    |k: int| page_wanted(sel, n, k)
}

/// Counters after the pages from `k` on: those in `touched` were decoded, the
/// others skipped.
pub open spec fn tally(
    c: Counters,
    pages: Seq<PageMeta>,
    k: int,
    touched: spec_fn(int) -> bool,
) -> Counters
    decreases pages.len() - k,
{
    if k >= pages.len() {
        c
    } else {
        tally(
            if touched(k) { c.decoded(pages[k]) } else { c.skipped(pages[k]) },
            pages,
            k + 1,
            touched,
        )
    }
}

/// How many of the pages from `k` on are in `touched`, and how long they are.
pub open spec fn touched_from(pages: Seq<PageMeta>, k: int, touched: spec_fn(int) -> bool) -> (
    nat,
    nat,
)
    decreases pages.len() - k,
{
    if k >= pages.len() {
        (0, 0)
    } else {
        let (n, b) = touched_from(pages, k + 1, touched);
        if touched(k) { (n + 1, b + pages[k].comp_len as nat) } else { (n, b) }
    }
}

/// `2^64`: counters are kept below it.
pub open spec fn wrap() -> int {
    0x1_0000_0000_0000_0000
}

/// A tally raises the decoded counters by exactly the pages touched and their
/// bytes, and the skipped ones by exactly the others and theirs.
pub proof fn tally_counts_pages(
    c: Counters,
    pages: Seq<PageMeta>,
    k: int,
    touched: spec_fn(int) -> bool,
)
    ensures
        ({
            let t = tally(c, pages, k, touched);
            let (n, b) = touched_from(pages, k, touched);
            let (m, d) = touched_from(pages, k, |i: int| !touched(i));
            &&& t.pages_decoded == (c.pages_decoded + n) % wrap()
            &&& t.bytes_decoded == (c.bytes_decoded + b) % wrap()
            &&& t.pages_skipped == (c.pages_skipped + m) % wrap()
            &&& t.bytes_skipped == (c.bytes_skipped + d) % wrap()
        }),
    decreases pages.len() - k,
{
    if k < pages.len() {
        let e = if touched(k) { c.decoded(pages[k]) } else { c.skipped(pages[k]) };
        tally_counts_pages(e, pages, k + 1, touched);
    }
}

proof fn none_touched(c: Counters, pages: Seq<PageMeta>, k: int, touched: spec_fn(int) -> bool)
    requires
        0 <= k <= pages.len(),
        forall|i: int| !(#[trigger] touched(i)),
    ensures
        c.skipped_all(pages.skip(k)) == tally(c, pages, k, touched),
    decreases pages.len() - k,
{
    if k < pages.len() {
        assert(!touched(k));
        assert(pages.skip(k)[0] == pages[k]);
        assert(pages.skip(k).skip(1) =~= pages.skip(k + 1));
        none_touched(c.skipped(pages[k]), pages, k + 1, touched);
    }
}

proof fn gather_serves<T>(
    pages: Seq<PageMeta>,
    vals: spec_fn(PageMeta) -> Option<Seq<T>>,
    all: Seq<T>,
    k: int,
    whole: Seq<u32>,
    sel: Seq<u32>,
    c: Counters,
)
    requires
        serves(pages, vals, all),
        all.len() <= u32::MAX,
        0 <= k <= pages.len(),
        ascending(whole),
        sel.len() <= whole.len(),
        sel == whole.skip(whole.len() - sel.len()),
        forall|i: int|
            0 <= i < whole.len() - sel.len() ==> (#[trigger] whole[i]) < page_start(all.len(), k),
        forall|i: int| 0 <= i < sel.len() ==> page_start(all.len(), k) <= #[trigger] sel[i]
            < all.len(),
    ensures
        gather_pages(pages.skip(k), page_start(all.len(), k), vals, sel, c) matches Some((v, c2))
            && v == at_rows(all, sel) && c2 == tally(c, pages, k, pages_wanted(whole, all.len())),
    decreases pages.len() - k,
{
    let touched = pages_wanted(whole, all.len());
    let m = whole.len() - sel.len();
    assert forall|i: int, j: int| 0 <= i <= j < sel.len() implies sel[i] <= sel[j] by {
        assert(whole[m + i] <= whole[m + j]);
    }
    let here = pages.skip(k);
    if k == pages.len() {
        if sel.len() > 0 {
            assert(sel[0] < all.len());
        }
        assert(at_rows(all, sel) =~= Seq::<T>::empty());
    } else {
        page_start_steps(all.len(), k);
        let base = page_start(all.len(), k);
        let end = page_end(all.len(), k) as nat;
        let rows = page_rows(all, k);
        assert(here[0] == pages[k]);
        assert(here.skip(1) =~= pages.skip(k + 1));
        assert(base + pages[k].rows == end);
        run_below_is(sel, end);
        let n = run_below(sel, end) as int;
        let mine = sel.take(n);
        let rest = sel.skip(n);
        assert forall|i: int| 0 <= i < rest.len() implies page_start(all.len(), k + 1)
            <= #[trigger] rest[i] < all.len() by {
            assert(rest[i] == sel[n + i]);
            assert(sel[n] <= sel[n + i]);
        }
        assert forall|i: int, j: int| 0 <= i <= j < rest.len() implies rest[i] <= rest[j] by {
            assert(sel[n + i] <= sel[n + j]);
        }
        assert(rest =~= whole.skip(whole.len() - rest.len()));
        assert forall|i: int| 0 <= i < whole.len() - rest.len() implies (#[trigger] whole[i])
            < page_start(all.len(), k + 1) by {
            if i >= m {
                assert(whole[i] == sel[i - m]);
            }
        }
        if n == 0 {
            assert(rest =~= sel);
            assert(!touched(k)) by {
                if page_wanted(whole, all.len(), k) {
                    let i = choose|i: int|
                        0 <= i < whole.len() && page_start(all.len(), k) <= #[trigger] whole[i]
                            && whole[i] < page_end(all.len(), k);
                    assert(i >= m);
                    assert(sel[i - m] == whole[i]);
                    assert(sel[0] <= sel[i - m]);
                }
            }
            gather_serves(pages, vals, all, k + 1, whole, sel, c.skipped(pages[k]));
        } else {
            assert(touched(k)) by {
                assert(whole[m] == sel[0]);
            }
            gather_serves(pages, vals, all, k + 1, whole, rest, c.decoded(pages[k]));
            assert forall|i: int| 0 <= i < mine.len() implies base <= #[trigger] mine[i] < base
                + rows.len() by {
                assert(mine[i] == sel[i]);
            }
            let got = pick(rows, base, mine)->0;
            assert(got + at_rows(all, rest) =~= at_rows(all, sel));
        }
    }
}

proof fn dict_read_back(dict: Seq<Seq<char>>)
    requires
        dict.len() <= u32::MAX,
        forall|j: int| 0 <= j < dict.len() ==> encode_utf8(#[trigger] dict[j]).len() <= u32::MAX,
    ensures
        rd_dict(dict_raw(dict)) == Some(dict),
{
    let es = |s: Seq<char>| wr_str(s);
    let rd = |s: Seq<u8>| rd_str(s);
    u32_read_back(dict.len() as u32, wr_list(dict, es));
    assert forall|k: int, r: Seq<u8>| 0 <= k < dict.len() implies #[trigger] rd(
        es(dict[k]) + r,
    ) == Some((dict[k], r)) by {
        str_read_back(dict[k], r);
    }
    list_read_back(dict, es, rd, Seq::empty());
    assert(wr_list(dict, es) + Seq::<u8>::empty() =~= wr_list(dict, es));
}

/// Where a chunk's bytes stand, its dictionary and its code pages do.
proof fn text_chunk_parts(file: Seq<u8>, v: Seq<Seq<char>>, pos: nat)
    requires
        column_fits(ColumnView::Utf8(v)),
        bytes_at(file, pos, chunk_bytes(ColumnView::Utf8(v)).len()) == Some(
            chunk_bytes(ColumnView::Utf8(v)),
        ),
        pos + chunk_bytes(ColumnView::Utf8(v)).len() <= u64::MAX,
    ensures
        chunk_dict(file, chunk_meta(ColumnView::Utf8(v), pos)) == Some(dict_of(v)),
        serves(
            chunk_meta(ColumnView::Utf8(v), pos).pages,
            |p: PageMeta| code_vals(file, p),
            codes_of(v),
        ),
{
    let whole = chunk_bytes(ColumnView::Utf8(v));
    let denc = compressed(dict_raw(dict_of(v)));
    let pay = payload(code_images(codes_of(v)));
    bytes_within(file, pos, whole, 0, denc.len());
    assert(whole.subrange(0, denc.len() as int) =~= denc);
    bytes_within(file, pos, whole, denc.len(), pay.len());
    assert(whole.subrange(denc.len() as int, (denc.len() + pay.len()) as int) =~= pay);
    code_pages_serve(file, codes_of(v), pos + denc.len());
    round_trip(dict_raw(dict_of(v)));
    dict_entries_fit(v);
    dict_read_back(dict_of(v));
}

/// Each code stands for its row's text.
proof fn codes_stand_for(v: Seq<Seq<char>>)
    requires
        dict_of(v).len() <= u32::MAX,
    ensures
        forall|i: int|
            0 <= i < v.len() ==> (#[trigger] codes_of(v)[i]) < dict_of(v).len()
                && dict_of(v)[codes_of(v)[i] as int] == v[i],
{
    dict_distinct(v);
    assert forall|i: int| 0 <= i < v.len() implies (#[trigger] codes_of(v)[i]) < dict_of(v).len()
        && dict_of(v)[codes_of(v)[i] as int] == v[i] by {
        assert(dict_of(v).contains(v[i]));
    }
}

/// The values of a column at some rows.
pub open spec fn column_at(col: ColumnView, sel: Seq<u32>) -> ColumnView {
    match col {
        ColumnView::Int64(v) => ColumnView::Int64(at_rows(v, sel)),
        ColumnView::Utf8(v) => ColumnView::Utf8(at_rows(v, sel)),
    }
}

/// Gathering rows of a chunk that was written gives the values written, for
/// every ascending selection, and decodes exactly the pages that the rows lie
/// in.
pub proof fn written_chunk_gathers(
    file: Seq<u8>,
    col: ColumnView,
    pos: nat,
    sel: Seq<u32>,
    c: Counters,
)
    requires
        column_fits(col),
        col.len() <= u32::MAX,
        bytes_at(file, pos, chunk_bytes(col).len()) == Some(chunk_bytes(col)),
        pos + chunk_bytes(col).len() <= u64::MAX,
        ascending(sel),
        forall|i: int| 0 <= i < sel.len() ==> (#[trigger] sel[i]) < col.len(),
    ensures
        gathered(file, chunk_meta(col, pos), sel, c) matches Some((v, c2)) && v == column_at(
            col,
            sel,
        ) && c2 == tally(c, chunk_meta(col, pos).pages, 0, pages_wanted(sel, col.len())),
{
    let pages = chunk_meta(col, pos).pages;
    assert(pages.skip(0) =~= pages);
    assert(sel.skip(0) =~= sel);
    match col {
        ColumnView::Int64(v) => {
            i64_pages_serve(file, v, pos);
            gather_serves(pages, |p: PageMeta| i64_vals(file, p), v, 0, sel, sel, c);
        },
        ColumnView::Utf8(v) => {
            text_chunk_parts(file, v, pos);
            dict_entries_fit(v);
            codes_stand_for(v);
            let codes = codes_of(v);
            gather_serves(pages, |p: PageMeta| code_vals(file, p), codes, 0, sel, sel, c);
            let got = at_rows(codes, sel);
            assert forall|i: int| 0 <= i < got.len() implies (#[trigger] got[i])
                < dict_of(v).len() by {
                assert(got[i] == codes[sel[i] as int]);
            }
            assert(lookup(dict_of(v), got)->0 =~= at_rows(v, sel)) by {
                assert forall|i: int| 0 <= i < got.len() implies dict_of(v)[got[i] as int]
                    == #[trigger] at_rows(v, sel)[i] by {
                    assert(got[i] == codes[sel[i] as int]);
                }
            }
        },
    }
}

// ---------------------------------------------------------------------------
// Predicates
// ---------------------------------------------------------------------------

proof fn hits_concat<T>(a: Seq<T>, b: Seq<T>, base: nat, hit: spec_fn(T) -> bool)
    ensures
        hits(a + b, base, hit) == hits(a, base, hit) + hits(b, base + a.len(), hit),
    decreases b.len(),
{
    if b.len() == 0 {
        assert(a + b =~= a);
        assert(hits(a, base, hit) + Seq::<u32>::empty() =~= hits(a, base, hit));
    } else {
        assert((a + b).drop_last() =~= a + b.drop_last());
        hits_concat(a, b.drop_last(), base, hit);
        assert(hits(a + b, base, hit) =~= hits(a, base, hit) + hits(b, base + a.len(), hit));
    }
}

proof fn hits_none<T>(a: Seq<T>, base: nat, hit: spec_fn(T) -> bool)
    requires
        forall|i: int| 0 <= i < a.len() ==> !hit(#[trigger] a[i]),
    ensures
        hits(a, base, hit) == Seq::<u32>::empty(),
    decreases a.len(),
{
    if a.len() > 0 {
        assert forall|i: int| 0 <= i < a.drop_last().len() implies !hit(
            #[trigger] a.drop_last()[i],
        ) by {
            assert(a.drop_last()[i] == a[i]);
        }
        hits_none(a.drop_last(), base, hit);
    }
}

proof fn hits_same<A, B>(
    a: Seq<A>,
    b: Seq<B>,
    base: nat,
    ha: spec_fn(A) -> bool,
    hb: spec_fn(B) -> bool,
)
    requires
        a.len() == b.len(),
        forall|i: int| 0 <= i < a.len() ==> ha(#[trigger] a[i]) == hb(#[trigger] b[i]),
    ensures
        hits(a, base, ha) == hits(b, base, hb),
    decreases a.len(),
{
    if a.len() > 0 {
        assert forall|i: int| 0 <= i < a.drop_last().len() implies ha(#[trigger] a.drop_last()[i])
            == hb(#[trigger] b.drop_last()[i]) by {
            assert(ha(a[i]) == hb(b[i]));
        }
        hits_same(a.drop_last(), b.drop_last(), base, ha, hb);
        assert(ha(a[a.len() - 1]) == hb(b[b.len() - 1]));
    }
}

proof fn eval_serves<T>(
    pages: Seq<PageMeta>,
    vals: spec_fn(PageMeta) -> Option<Seq<T>>,
    prune: spec_fn(PageMeta) -> bool,
    hit: spec_fn(T) -> bool,
    all: Seq<T>,
    k: int,
    touched: spec_fn(int) -> bool,
    c: Counters,
)
    requires
        serves(pages, vals, all),
        all.len() <= u32::MAX,
        0 <= k <= pages.len(),
        forall|j: int| 0 <= j < pages.len() ==> #[trigger] touched(j) == !prune(pages[j]),
        forall|j: int, i: int|
            #![trigger pages[j], page_rows(all, j)[i]]
            0 <= j < pages.len() && prune(pages[j]) && 0 <= i < page_rows(all, j).len() ==> !hit(
                page_rows(all, j)[i],
            ),
    ensures
        eval_pages(pages.skip(k), page_start(all.len(), k), prune, vals, hit, c) matches Some(
            (v, c2),
        ) && v == hits(
            all.skip(page_start(all.len(), k) as int),
            page_start(all.len(), k),
            hit,
        ) && c2 == tally(c, pages, k, touched),
    decreases pages.len() - k,
{
    let here = pages.skip(k);
    let base = page_start(all.len(), k);
    if k == pages.len() {
        assert(all.skip(base as int) =~= Seq::<T>::empty());
    } else {
        page_start_steps(all.len(), k);
        let rows = page_rows(all, k);
        let end = page_end(all.len(), k) as nat;
        assert(here[0] == pages[k]);
        assert(here.skip(1) =~= pages.skip(k + 1));
        assert(base + pages[k].rows == end);
        assert(all.skip(base as int) =~= rows + all.skip(end as int));
        hits_concat(rows, all.skip(end as int), base, hit);
        assert(touched(k) == !prune(pages[k]));
        if prune(pages[k]) {
            eval_serves(pages, vals, prune, hit, all, k + 1, touched, c.skipped(pages[k]));
            assert forall|i: int| 0 <= i < rows.len() implies !hit(#[trigger] rows[i]) by {
                assert(!hit(page_rows(all, k)[i]));
            }
            hits_none(rows, base, hit);
            let t = hits(all.skip(end as int), end, hit);
            assert(Seq::<u32>::empty() + t =~= t);
        } else {
            eval_serves(pages, vals, prune, hit, all, k + 1, touched, c.decoded(pages[k]));
        }
    }
}

/// The rows of a column that satisfy a predicate.
pub open spec fn rows_where(col: ColumnView, op: CmpOp, lit: LitView) -> Seq<u32> {
    match (col, lit) {
        (ColumnView::Int64(v), LitView::Int(l)) => hits(v, 0, |x: i64| holds(op, x, l)),
        (ColumnView::Utf8(v), LitView::Str(s)) => hits(v, 0, |x: Seq<char>| x == s),
        _ => Seq::empty(),
    }
}

/// Whether a predicate reads page `k` of a column: of integers, where one
/// between the least and the greatest of the page could satisfy it; of texts,
/// where the column holds the text at all.
pub open spec fn page_read(col: ColumnView, op: CmpOp, lit: LitView, k: int) -> bool {
    match (col, lit) {
        (ColumnView::Int64(v), LitView::Int(l)) => !range_prunes(
            op,
            i64_image(page_rows(v, k)).min,
            i64_image(page_rows(v, k)).max,
            l,
        ),
        (ColumnView::Utf8(v), LitView::Str(s)) => v.contains(s),
        _ => false,
    }
}

/// The pages that a predicate reads.
pub open spec fn pages_read(col: ColumnView, op: CmpOp, lit: LitView) -> spec_fn(int) -> bool {
    |k: int| page_read(col, op, lit, k)
}

/// Searching a chunk that was written finds exactly the rows that satisfy the
/// predicate, whatever pages were skipped, and decodes exactly the pages that
/// the predicate reads.
pub proof fn written_chunk_filters(
    file: Seq<u8>,
    col: ColumnView,
    pos: nat,
    op: CmpOp,
    lit: LitView,
    c: Counters,
)
    requires
        column_fits(col),
        col.len() <= u32::MAX,
        bytes_at(file, pos, chunk_bytes(col).len()) == Some(chunk_bytes(col)),
        pos + chunk_bytes(col).len() <= u64::MAX,
        pred_typed(col.dtype(), op, lit),
    ensures
        evaluated(file, chunk_meta(col, pos), op, lit, c) matches Some((sel, c2)) && sel
            == rows_where(col, op, lit) && c2 == tally(
            c,
            chunk_meta(col, pos).pages,
            0,
            pages_read(col, op, lit),
        ),
{
    let touched = pages_read(col, op, lit);
    let pages = chunk_meta(col, pos).pages;
    assert(pages.skip(0) =~= pages);
    match (col, lit) {
        (ColumnView::Int64(v), LitView::Int(l)) => {
            i64_pages_serve(file, v, pos);
            let prune = |p: PageMeta| range_prunes(op, p.min, p.max, l);
            let hit = |x: i64| holds(op, x, l);
            assert forall|j: int, i: int|
                #![trigger pages[j], page_rows(v, j)[i]]
                0 <= j < pages.len() && prune(pages[j]) && 0 <= i < page_rows(
                    v,
                    j,
                ).len() implies !hit(page_rows(v, j)[i]) by {
                assert(i64_images(v)[j] == i64_image(page_rows(v, j)));
                min_max_bound(page_rows(v, j));
            }
            assert forall|j: int| 0 <= j < pages.len() implies #[trigger] touched(j) == !prune(
                pages[j],
            ) by {
                assert(i64_images(v)[j] == i64_image(page_rows(v, j)));
            }
            eval_serves(pages, |p: PageMeta| i64_vals(file, p), prune, hit, v, 0, touched, c);
            assert(v.skip(0) =~= v);
        },
        (ColumnView::Utf8(v), LitView::Str(s)) => {
            text_chunk_parts(file, v, pos);
            dict_entries_fit(v);
            dict_distinct(v);
            codes_stand_for(v);
            let d = dict_of(v);
            let is_s = |x: Seq<char>| x == s;
            if !d.contains(s) {
                assert forall|i: int| 0 <= i < v.len() implies !is_s(#[trigger] v[i]) by {
                    assert(d.contains(v[i]));
                }
                hits_none(v, 0, is_s);
                assert(!v.contains(s));
                none_touched(c, pages, 0, touched);
            } else {
                d.index_of_first_ensures(s);
                let code = d.index_of_first(s)->0 as u32;
                assert(d[code as int] == s);
                let prune = |p: PageMeta| false;
                let hit = |x: u32| x == code;
                let codes = codes_of(v);
                assert(v.contains(dict_of(v)[code as int]));
                eval_serves(pages, |p: PageMeta| code_vals(file, p), prune, hit, codes, 0, touched, c);
                assert(codes.skip(0) =~= codes);
                assert forall|i: int| 0 <= i < codes.len() implies hit(#[trigger] codes[i]) == is_s(
                    #[trigger] v[i],
                ) by {
                    assert(d[codes_of(v)[i] as int] == v[i]);
                }
                hits_same(codes, v, 0, hit, is_s);
            }
        },
        _ => {},
    }
}

proof fn text_range_bound(d: Seq<Seq<char>>)
    ensures
        forall|i: int|
            0 <= i < d.len() ==> !text_lt(#[trigger] d[i], min_text(d)) && !text_lt(
                max_text(d),
                d[i],
            ),
    decreases d.len(),
{
    if d.len() > 0 {
        let e = d.drop_last();
        text_range_bound(e);
        assert forall|i: int| 0 <= i < d.len() implies !text_lt(#[trigger] d[i], min_text(d))
            && !text_lt(max_text(d), d[i]) by {
            text_lt_total(d.last(), d.last());
            text_lt_total(d[i], min_text(d));
            text_lt_total(d[i], max_text(d));
            if i < e.len() {
                assert(e[i] == d[i]);
                text_lt_total(d[i], min_text(e));
                text_lt_total(d[i], max_text(e));
                if text_lt(d[i], min_text(d)) && text_lt(d.last(), min_text(e)) {
                    bytes_lt_transitive(
                        encode_utf8(d[i]),
                        encode_utf8(d.last()),
                        encode_utf8(min_text(e)),
                    );
                }
                if text_lt(max_text(d), d[i]) && text_lt(max_text(e), d.last()) {
                    bytes_lt_transitive(
                        encode_utf8(max_text(e)),
                        encode_utf8(d.last()),
                        encode_utf8(d[i]),
                    );
                }
            } else {
                text_lt_total(d.last(), min_text(e));
                text_lt_total(d.last(), max_text(e));
            }
        }
    }
}

/// A row group that its zone map rules out holds no row that satisfies the
/// predicate.
pub proof fn pruned_rowgroup_has_no_match(col: ColumnView, pos: nat, op: CmpOp, lit: LitView)
    requires
        zone_prunes(chunk_meta(col, pos), op, lit),
    ensures
        rows_where(col, op, lit) == Seq::<u32>::empty(),
{
    match (col, lit) {
        (ColumnView::Int64(v), LitView::Int(l)) => {
            min_max_bound(v);
            hits_none(v, 0, |x: i64| holds(op, x, l));
        },
        (ColumnView::Utf8(v), LitView::Str(s)) => {
            let d = dict_of(v);
            dict_distinct(v);
            text_range_bound(d);
            let is_s = |x: Seq<char>| x == s;
            assert forall|i: int| 0 <= i < v.len() implies !is_s(#[trigger] v[i]) by {
                assert(d.contains(v[i]));
                let j = choose|j: int| 0 <= j < d.len() && d[j] == v[i];
                assert(!text_lt(d[j], min_text(d)));
            }
            hits_none(v, 0, is_s);
        },
        _ => {},
    }
}

// ---------------------------------------------------------------------------
// Whole files
// ---------------------------------------------------------------------------

/// The row groups of a file one after another.
pub open spec fn body(groups: Seq<Seq<ColumnView>>) -> Seq<u8>
    decreases groups.len(),
{
    if groups.len() == 0 {
        Seq::empty()
    } else {
        body(groups.drop_last()) + rowgroup_bytes(groups.last())
    }
}

/// The footer entries of row groups that follow the file's head.
pub open spec fn group_metas(groups: Seq<Seq<ColumnView>>) -> Seq<RowGroupView> {
    Seq::new(groups.len(), |g: int| rowgroup_meta(groups[g], 8 + body(groups.take(g)).len()))
}

/// The file that holds `groups`.
pub open spec fn file_image(schema: Seq<FieldView>, groups: Seq<Seq<ColumnView>>) -> Seq<u8> {
    file_head() + body(groups) + file_tail(schema, group_metas(groups))
}

/// Writing one more row group extends the body and the footer entries, so a
/// writer that started a file and was given `groups` stands at its body's end
/// with its entries.
pub proof fn file_grows(groups: Seq<Seq<ColumnView>>, cols: Seq<ColumnView>)
    ensures
        body(groups.push(cols)) == body(groups) + rowgroup_bytes(cols),
        group_metas(groups.push(cols)) == group_metas(groups).push(
            rowgroup_meta(cols, 8 + body(groups).len()),
        ),
{
    let t = groups.push(cols);
    assert(t.drop_last() =~= groups);
    assert forall|g: int| 0 <= g < t.len() implies group_metas(t)[g] == group_metas(groups).push(
        rowgroup_meta(cols, 8 + body(groups).len()),
    )[g] by {
        if g < groups.len() {
            assert(t.take(g) =~= groups.take(g));
        } else {
            assert(t.take(g) =~= groups);
        }
    }
    assert(group_metas(t) =~= group_metas(groups).push(
        rowgroup_meta(cols, 8 + body(groups).len()),
    ));
}

/// Opening a file gives the schema and the row groups it was written with.
#[verifier::spinoff_prover]
#[verifier::rlimit(60)]
pub proof fn written_file_opens(schema: Seq<FieldView>, groups: Seq<Seq<ColumnView>>)
    requires
        footer(schema, group_metas(groups)).len() <= u32::MAX,
        forall|g: int| 0 <= g < groups.len() ==> (#[trigger] groups[g]).len() == schema.len(),
    ensures
        rd_file(file_image(schema, groups)) == Some((schema, group_metas(groups))),
{
    let metas = group_metas(groups);
    let f = footer(schema, metas);
    let file = file_image(schema, groups);
    let n = file.len() as int;
    le_read_back(f.len(), 4);
    assert(file.subrange(n - 4, n) =~= magic());
    assert(file.subrange(n - 8, n - 4) =~= le(f.len(), 4));
    assert(file.subrange(n - 8 - f.len(), n - 8) =~= f);
    short_footer_fits(schema, metas);
    assert forall|i: int| 0 <= i < metas.len() implies (#[trigger] metas[i]).chunks.len()
        == schema.len() by {
        assert(groups[i].len() == schema.len());
    }
    footer_read_back(schema, metas);
}

proof fn group_in_body(groups: Seq<Seq<ColumnView>>, g: int)
    requires
        0 <= g < groups.len(),
    ensures
        body(groups.take(g)).len() + rowgroup_bytes(groups[g]).len() <= body(groups).len(),
        body(groups).subrange(
            body(groups.take(g)).len() as int,
            (body(groups.take(g)).len() + rowgroup_bytes(groups[g]).len()) as int,
        ) == rowgroup_bytes(groups[g]),
    decreases groups.len(),
{
    let a = body(groups.take(g)).len() as int;
    let b = a + rowgroup_bytes(groups[g]).len();
    let d = groups.drop_last();
    if g + 1 == groups.len() {
        assert(groups.take(g) =~= d);
        assert(body(groups).subrange(a, b) =~= rowgroup_bytes(groups[g]));
    } else {
        group_in_body(d, g);
        assert(d.take(g) =~= groups.take(g));
        assert(body(groups).subrange(a, b) =~= body(d).subrange(a, b));
    }
}

proof fn chunk_in_rowgroup(cols: Seq<ColumnView>, i: int)
    requires
        0 <= i < cols.len(),
    ensures
        rowgroup_bytes(cols.take(i)).len() + chunk_bytes(cols[i]).len() <= rowgroup_bytes(
            cols,
        ).len(),
        rowgroup_bytes(cols).subrange(
            rowgroup_bytes(cols.take(i)).len() as int,
            (rowgroup_bytes(cols.take(i)).len() + chunk_bytes(cols[i]).len()) as int,
        ) == chunk_bytes(cols[i]),
    decreases cols.len(),
{
    let a = rowgroup_bytes(cols.take(i)).len() as int;
    let b = a + chunk_bytes(cols[i]).len();
    let d = cols.drop_last();
    rowgroup_bytes_snoc(cols, i);
    if i + 1 == cols.len() {
        assert(cols.take(i) =~= d);
        assert(rowgroup_bytes(cols).subrange(a, b) =~= chunk_bytes(cols[i]));
    } else {
        chunk_in_rowgroup(d, i);
        assert(d.take(i) =~= cols.take(i));
        assert(rowgroup_bytes(cols).subrange(a, b) =~= rowgroup_bytes(d).subrange(a, b));
    }
}

/// Reading any column of any row group of a written file, filtered or whole,
/// gives what was written: the rows that satisfy a predicate, and the values
/// at any ascending rows. The counters rise by exactly the pages that the
/// predicate reads or the rows lie in.
#[verifier::spinoff_prover]
#[verifier::rlimit(60)]
pub proof fn written_file_reads_back(
    schema: Seq<FieldView>,
    groups: Seq<Seq<ColumnView>>,
    g: int,
    i: int,
    sel: Seq<u32>,
    op: CmpOp,
    lit: LitView,
    c: Counters,
)
    requires
        file_image(schema, groups).len() <= u64::MAX,
        0 <= g < groups.len(),
        0 <= i < groups[g].len(),
        column_fits(groups[g][i]),
        groups[g][i].len() <= u32::MAX,
    ensures
        ({
            let file = file_image(schema, groups);
            let chunk = group_metas(groups)[g].chunks[i];
            let col = groups[g][i];
            &&& ascending(sel) && (forall|k: int|
                0 <= k < sel.len() ==> (#[trigger] sel[k]) < col.len()) ==> (gathered(
                file,
                chunk,
                sel,
                c,
            ) matches Some((v, c2)) && v == column_at(col, sel) && c2 == tally(
                c,
                chunk.pages,
                0,
                pages_wanted(sel, col.len()),
            ))
            &&& gathered(file, chunk, all_rows(col.len()), c) matches Some((v, _)) && v == col
            &&& pred_typed(col.dtype(), op, lit) ==> (evaluated(
                file,
                chunk,
                op,
                lit,
                c,
            ) matches Some((found, c2)) && found == rows_where(col, op, lit) && c2 == tally(
                c,
                chunk.pages,
                0,
                pages_read(col, op, lit),
            ))
        }),
{
    let file = file_image(schema, groups);
    let cols = groups[g];
    let col = cols[i];
    let a = body(groups.take(g)).len();
    let b = rowgroup_bytes(cols.take(i)).len();
    let pos = 8 + a + b;
    le_len(1, 4);
    group_in_body(groups, g);
    chunk_in_rowgroup(cols, i);
    assert(file.subrange(8, 8 + body(groups).len() as int) =~= body(groups));
    bytes_within(file, 8, body(groups), a, rowgroup_bytes(cols).len());
    bytes_within(file, 8 + a, rowgroup_bytes(cols), b, chunk_bytes(col).len());
    assert(group_metas(groups)[g].chunks[i] == chunk_meta(col, pos));
    if ascending(sel) && (forall|k: int| 0 <= k < sel.len() ==> (#[trigger] sel[k]) < col.len()) {
        written_chunk_gathers(file, col, pos, sel, c);
    }
    written_chunk_gathers(file, col, pos, all_rows(col.len()), c);
    match col {
        ColumnView::Int64(v) => assert(at_rows(v, all_rows(v.len())) =~= v),
        ColumnView::Utf8(v) => assert(at_rows(v, all_rows(v.len())) =~= v),
    }
    if pred_typed(col.dtype(), op, lit) {
        written_chunk_filters(file, col, pos, op, lit, c);
    }
}

} // verus!
