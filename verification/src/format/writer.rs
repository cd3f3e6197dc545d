//! Laying out row groups as pages, and the writer that emits the file.
use crate::format::lz4::{compress_prepend_size, compressed, compressed_bound};
use crate::format::meta::{
    chunk_views, count_within_list, footer, item_within_list, list_snoc, put_footer, rowgroup_views,
    schema_view, short_footer_fits, ChunkMeta, ChunkView, ColumnData, ColumnView, DataType,
    FieldView, FileMeta, PageMeta, RowGroupMeta, RowGroupView,
};
use crate::format::page::{encode_i64_page, i64_page, i64_page_bound, PAGE_ROWS};
use crate::text::{str_lt, strs, strs_push, text_lt};
use crate::wire::{le, le_len, put_bytes, put_str, put_u32, wr_list, wr_str};
use vstd::hash_map::StringHashMap;
use vstd::prelude::*;
use vstd::utf8::encode_utf8;

verus! {

// ---------------------------------------------------------------------------
// Pages of a column
// ---------------------------------------------------------------------------

/// How many pages `n` rows take.
pub open spec fn page_count(n: nat) -> nat {
    (n + PAGE_ROWS - 1) as nat / PAGE_ROWS as nat
}

/// Where page `k` of `n` rows ends.
pub open spec fn page_end(n: nat, k: int) -> int {
    if (k + 1) * PAGE_ROWS <= n { (k + 1) * PAGE_ROWS } else { n as int }
}

/// The rows of page `k`.
pub open spec fn page_rows<T>(vals: Seq<T>, k: int) -> Seq<T> {
    vals.subrange(k * PAGE_ROWS, page_end(vals.len(), k))
}

/// A page before it is placed in the file.
pub struct PageImage {
    pub payload: Seq<u8>,
    pub rows: nat,
    pub min: i64,
    pub max: i64,
}

/// The least of some integers; the largest 64-bit integer if there are none.
pub open spec fn min_of(v: Seq<i64>) -> i64
    decreases v.len(),
{
    if v.len() == 0 {
        i64::MAX
    } else if v.last() < min_of(v.drop_last()) {
        v.last()
    } else {
        min_of(v.drop_last())
    }
}

/// The greatest of some integers; the least 64-bit integer if there are none.
pub open spec fn max_of(v: Seq<i64>) -> i64
    decreases v.len(),
{
    if v.len() == 0 {
        i64::MIN
    } else if v.last() > max_of(v.drop_last()) {
        v.last()
    } else {
        max_of(v.drop_last())
    }
}

/// Every value lies between the least and the greatest.
pub proof fn min_max_bound(v: Seq<i64>)
    ensures
        forall|i: int| 0 <= i < v.len() ==> min_of(v) <= #[trigger] v[i] <= max_of(v),
    decreases v.len(),
{
    if v.len() > 0 {
        min_max_bound(v.drop_last());
        assert forall|i: int| 0 <= i < v.len() implies min_of(v) <= #[trigger] v[i] <= max_of(
            v,
        ) by {
            if i < v.len() - 1 {
                assert(v.drop_last()[i] == v[i]);
            }
        }
    }
}

/// The range of two runs of values is the range of their ranges.
pub proof fn min_max_concat(a: Seq<i64>, b: Seq<i64>)
    ensures
        min_of(a + b) == if min_of(b) < min_of(a) { min_of(b) } else { min_of(a) },
        max_of(a + b) == if max_of(b) > max_of(a) { max_of(b) } else { max_of(a) },
    decreases b.len(),
{
    if b.len() == 0 {
        assert(a + b =~= a);
    } else {
        assert((a + b).drop_last() =~= a + b.drop_last());
        min_max_concat(a, b.drop_last());
    }
}

pub open spec fn i64_image(vals: Seq<i64>) -> PageImage {
    PageImage {
        payload: i64_page(vals),
        rows: vals.len(),
        min: min_of(vals),
        max: max_of(vals),
    }
}

pub open spec fn i64_images(vals: Seq<i64>) -> Seq<PageImage> {
    Seq::new(page_count(vals.len()), |k: int| i64_image(page_rows(vals, k)))
}

/// Dictionary codes as little-endian words.
pub open spec fn words(codes: Seq<u32>) -> Seq<u8> {
    wr_list(codes, |c: u32| le(c as nat, 4))
}

pub open spec fn code_image(codes: Seq<u32>) -> PageImage {
    PageImage { payload: compressed(words(codes)), rows: codes.len(), min: 0, max: 0 }
}

pub open spec fn code_images(codes: Seq<u32>) -> Seq<PageImage> {
    Seq::new(page_count(codes.len()), |k: int| code_image(page_rows(codes, k)))
}

/// The payloads of some pages one after another.
pub open spec fn payload(pages: Seq<PageImage>) -> Seq<u8>
    decreases pages.len(),
{
    if pages.len() == 0 {
        Seq::empty()
    } else {
        payload(pages.drop_last()) + pages.last().payload
    }
}

/// The directory entry of page `k`, where the first page is at `pos`.
pub open spec fn placed(pages: Seq<PageImage>, pos: nat, k: int) -> PageMeta {
    PageMeta {
        offset: (pos + payload(pages.take(k)).len()) as u64,
        comp_len: pages[k].payload.len() as u32,
        rows: pages[k].rows as u32,
        min: pages[k].min,
        max: pages[k].max,
    }
}

/// The page directory of pages that start at `pos`.
pub open spec fn place(pages: Seq<PageImage>, pos: nat) -> Seq<PageMeta> {
    Seq::new(pages.len(), |k: int| placed(pages, pos, k))
}

// ---------------------------------------------------------------------------
// Dictionaries
// ---------------------------------------------------------------------------

/// The distinct texts of a column, in the order of their first occurrence.
pub open spec fn dict_of(v: Seq<Seq<char>>) -> Seq<Seq<char>>
    decreases v.len(),
{
    if v.len() == 0 {
        Seq::empty()
    } else {
        let d = dict_of(v.drop_last());
        if d.contains(v.last()) { d } else { d.push(v.last()) }
    }
}

/// Each text's place in the dictionary.
pub open spec fn codes_of(v: Seq<Seq<char>>) -> Seq<u32> {
    Seq::new(v.len(), |i: int| dict_of(v).index_of(v[i]) as u32)
}

/// The dictionary block before compression.
pub open spec fn dict_raw(dict: Seq<Seq<char>>) -> Seq<u8> {
    le(dict.len(), 4) + wr_list(dict, |s: Seq<char>| wr_str(s))
}

/// The text that sorts first; empty if there is none.
pub open spec fn min_text(d: Seq<Seq<char>>) -> Seq<char>
    decreases d.len(),
{
    if d.len() == 0 {
        Seq::empty()
    } else if d.len() == 1 || text_lt(d.last(), min_text(d.drop_last())) {
        d.last()
    } else {
        min_text(d.drop_last())
    }
}

/// The text that sorts last; empty if there is none.
pub open spec fn max_text(d: Seq<Seq<char>>) -> Seq<char>
    decreases d.len(),
{
    if d.len() == 0 {
        Seq::empty()
    } else if d.len() == 1 || text_lt(max_text(d.drop_last()), d.last()) {
        d.last()
    } else {
        max_text(d.drop_last())
    }
}

/// A dictionary repeats nothing and holds exactly the column's texts.
pub proof fn dict_distinct(v: Seq<Seq<char>>)
    ensures
        dict_of(v).no_duplicates(),
        forall|i: int| 0 <= i < v.len() ==> dict_of(v).contains(#[trigger] v[i]),
        forall|j: int| 0 <= j < dict_of(v).len() ==> v.contains(#[trigger] dict_of(v)[j]),
        dict_of(v).len() <= v.len(),
    decreases v.len(),
{
    if v.len() > 0 {
        let w = v.drop_last();
        let d = dict_of(w);
        dict_distinct(w);
        assert forall|i: int| 0 <= i < v.len() implies dict_of(v).contains(#[trigger] v[i]) by {
            if i < v.len() - 1 {
                assert(w[i] == v[i]);
                let j = choose|j: int| 0 <= j < d.len() && d[j] == w[i];
                assert(dict_of(v)[j] == v[i]);
            } else if !d.contains(v.last()) {
                assert(dict_of(v)[d.len() as int] == v[i]);
            }
        }
        assert forall|j: int| 0 <= j < dict_of(v).len() implies v.contains(
            #[trigger] dict_of(v)[j],
        ) by {
            if j < d.len() {
                assert(w.contains(d[j]));
                let i = choose|i: int| 0 <= i < w.len() && w[i] == d[j];
                assert(v[i] == d[j]);
            } else {
                assert(v[v.len() - 1] == dict_of(v)[j]);
            }
        }
    }
}

/// The dictionary of a column starts with those of its prefixes.
proof fn dict_grows(v: Seq<Seq<char>>, k: int)
    requires
        0 <= k <= v.len(),
    ensures
        dict_of(v.take(k)).len() <= dict_of(v).len(),
        dict_of(v).take(dict_of(v.take(k)).len() as int) == dict_of(v.take(k)),
    decreases v.len(),
{
    if k == v.len() {
        assert(v.take(k) =~= v);
        assert(dict_of(v).take(dict_of(v).len() as int) =~= dict_of(v));
    } else {
        let w = v.drop_last();
        dict_grows(w, k);
        assert(w.take(k) =~= v.take(k));
        let n = dict_of(v.take(k)).len() as int;
        assert(dict_of(v).take(n) =~= dict_of(w).take(n));
    }
}

// ---------------------------------------------------------------------------
// Chunks and row groups
// ---------------------------------------------------------------------------

/// The bytes of a column chunk.
pub open spec fn chunk_bytes(col: ColumnView) -> Seq<u8> {
    match col {
        ColumnView::Int64(v) => payload(i64_images(v)),
        ColumnView::Utf8(v) => compressed(dict_raw(dict_of(v))) + payload(
            code_images(codes_of(v)),
        ),
    }
}

/// The footer entry of a column chunk whose bytes start at `pos`.
pub open spec fn chunk_meta(col: ColumnView, pos: nat) -> ChunkView {
    match col {
        ColumnView::Int64(v) => ChunkView {
            dtype: DataType::Int64,
            min_i: min_of(v),
            max_i: max_of(v),
            min_s: Seq::empty(),
            max_s: Seq::empty(),
            dict_off: 0,
            dict_len: 0,
            dict_count: 0,
            pages: place(i64_images(v), pos),
        },
        ColumnView::Utf8(v) => {
            let dict = dict_of(v);
            let denc = compressed(dict_raw(dict));
            ChunkView {
                dtype: DataType::Utf8,
                min_i: 0,
                max_i: 0,
                min_s: min_text(dict),
                max_s: max_text(dict),
                dict_off: pos as u64,
                dict_len: denc.len() as u32,
                dict_count: dict.len() as u32,
                pages: place(code_images(codes_of(v)), pos + denc.len()),
            }
        },
    }
}

/// The chunks of a row group one after another.
pub open spec fn rowgroup_bytes(cols: Seq<ColumnView>) -> Seq<u8>
    decreases cols.len(),
{
    if cols.len() == 0 {
        Seq::empty()
    } else {
        rowgroup_bytes(cols.drop_last()) + chunk_bytes(cols.last())
    }
}

pub open spec fn column_views(cols: Seq<ColumnData>) -> Seq<ColumnView> {
    Seq::new(cols.len(), |i: int| cols[i]@)
}

/// The footer entry of a row group whose bytes start at `pos`.
pub open spec fn rowgroup_meta(cols: Seq<ColumnView>, pos: nat) -> RowGroupView {
    RowGroupView {
        rows: cols[0].len() as usize,
        chunks: Seq::new(
            cols.len(),
            |i: int| chunk_meta(cols[i], pos + rowgroup_bytes(cols.take(i)).len()),
        ),
    }
}

/// Whether a column's dictionary fits the length fields that describe it.
pub open spec fn column_fits(col: ColumnView) -> bool {
    match col {
        ColumnView::Int64(_) => true,
        ColumnView::Utf8(v) => {
            &&& dict_raw(dict_of(v)).len() <= u32::MAX
            &&& compressed(dict_raw(dict_of(v))).len() <= u32::MAX
        },
    }
}

// ---------------------------------------------------------------------------
// Executable layout
// ---------------------------------------------------------------------------

pub proof fn payload_snoc(pages: Seq<PageImage>, k: int)
    requires
        0 <= k < pages.len(),
    ensures
        payload(pages.take(k + 1)) == payload(pages.take(k)) + pages[k].payload,
        payload(pages.take(k + 1)).len() <= payload(pages).len(),
    decreases pages.len(),
{
    assert(pages.take(k + 1).drop_last() =~= pages.take(k));
    if k + 1 == pages.len() {
        assert(pages.take(k + 1) =~= pages);
    } else {
        payload_snoc(pages.drop_last(), k);
        assert(pages.drop_last().take(k + 1) =~= pages.take(k + 1));
    }
}

/// Page `k` covers the rows from where it starts to where it ends.
pub proof fn page_bounds(n: nat, k: int)
    requires
        0 <= k < page_count(n),
    ensures
        0 <= k * PAGE_ROWS < page_end(n, k) <= n,
        page_end(n, k) - k * PAGE_ROWS <= PAGE_ROWS,
        k + 1 < page_count(n) ==> page_end(n, k) == (k + 1) * PAGE_ROWS,
        k + 1 == page_count(n) ==> page_end(n, k) == n,
{
}

/// Emits the pages of an integer column that start at `pos`; returns their
/// directory and the column's range.
fn put_i64_pages(out: &mut Vec<u8>, vals: &[i64], pos: u64) -> (r: (Vec<PageMeta>, i64, i64))
    requires
        pos + payload(i64_images(vals@)).len() <= u64::MAX,
    ensures
        final(out)@ == old(out)@ + payload(i64_images(vals@)),
        r.0@ == place(i64_images(vals@), pos as nat),
        r.1 == min_of(vals@),
        r.2 == max_of(vals@),
{
    let ghost images = i64_images(vals@);
    let mut pages: Vec<PageMeta> = Vec::new();
    let mut cmin: i64 = i64::MAX;
    let mut cmax: i64 = i64::MIN;
    let mut at: usize = 0;
    let mut p: u64 = pos;
    let ghost mut k: int = 0;
    assert(vals@.take(0) =~= Seq::<i64>::empty());
    assert(images.take(0) =~= Seq::<PageImage>::empty());
    assert(out@ + Seq::<u8>::empty() =~= out@);
    while at < vals.len()
        invariant
            images == i64_images(vals@),
            pos + payload(images).len() <= u64::MAX,
            0 <= k <= images.len(),
            at <= vals@.len(),
            at < vals@.len() ==> at == k * PAGE_ROWS && k < images.len(),
            at == vals@.len() ==> k == images.len(),
            out@ == old(out)@ + payload(images.take(k)),
            p == pos + payload(images.take(k)).len(),
            pages@.len() == k,
            forall|j: int| 0 <= j < k ==> pages@[j] == placed(images, pos as nat, j),
            cmin == min_of(vals@.take(at as int)),
            cmax == max_of(vals@.take(at as int)),
        decreases vals@.len() - at,
    {
        proof {
            page_bounds(vals@.len(), k);
        }
        let end: usize = if vals.len() - at <= PAGE_ROWS { vals.len() } else { at + PAGE_ROWS };
        let ghost rows = page_rows(vals@, k);
        assert(end == page_end(vals@.len(), k));
        let page: &[i64] = &vals[at..end];
        assert(page@ =~= rows);
        let mut mn: i64 = i64::MAX;
        let mut mx: i64 = i64::MIN;
        let mut i: usize = 0;
        assert(page@.take(0) =~= Seq::<i64>::empty());
        while i < page.len()
            invariant
                i <= page@.len(),
                mn == min_of(page@.take(i as int)),
                mx == max_of(page@.take(i as int)),
            decreases page@.len() - i,
        {
            let x: i64 = page[i];
            assert(page@.take(i + 1).drop_last() =~= page@.take(i as int));
            if x < mn {
                mn = x;
            }
            if x > mx {
                mx = x;
            }
            i += 1;
        }
        proof {
            assert(page@.take(i as int) =~= rows);
            min_max_concat(vals@.take(at as int), rows);
            assert(vals@.take(at as int) + rows =~= vals@.take(end as int));
            i64_page_bound(rows);
            payload_snoc(images, k);
            assert(images[k] == i64_image(rows));
        }
        if mn < cmin {
            cmin = mn;
        }
        if mx > cmax {
            cmax = mx;
        }
        let enc: Vec<u8> = encode_i64_page(page);
        pages.push(
            PageMeta {
                offset: p,
                comp_len: enc.len() as u32,
                rows: page.len() as u32,
                min: mn,
                max: mx,
            },
        );
        let ghost before = out@;
        put_bytes(out, enc.as_slice());
        p = p + enc.len() as u64;
        at = end;
        proof {
            assert(out@ =~= old(out)@ + payload(images.take(k + 1)));
            k = k + 1;
        }
    }
    proof {
        assert(images.take(k) =~= images);
        assert(pages@ =~= place(images, pos as nat));
        assert(vals@.take(at as int) =~= vals@);
    }
    (pages, cmin, cmax)
}

pub proof fn words_len(codes: Seq<u32>)
    ensures
        words(codes).len() == 4 * codes.len(),
    decreases codes.len(),
{
    if codes.len() > 0 {
        words_len(codes.skip(1));
        le_len(codes[0] as nat, 4);
    }
}

/// Emits the pages of a column of dictionary codes that start at `pos`.
fn put_code_pages(out: &mut Vec<u8>, codes: &[u32], pos: u64) -> (r: Vec<PageMeta>)
    requires
        pos + payload(code_images(codes@)).len() <= u64::MAX,
    ensures
        final(out)@ == old(out)@ + payload(code_images(codes@)),
        r@ == place(code_images(codes@), pos as nat),
{
    let ghost images = code_images(codes@);
    let ghost ew = |c: u32| le(c as nat, 4);
    let mut pages: Vec<PageMeta> = Vec::new();
    let mut at: usize = 0;
    let mut p: u64 = pos;
    let ghost mut k: int = 0;
    assert(images.take(0) =~= Seq::<PageImage>::empty());
    assert(out@ + Seq::<u8>::empty() =~= out@);
    while at < codes.len()
        invariant
            images == code_images(codes@),
            ew == (|c: u32| le(c as nat, 4)),
            pos + payload(images).len() <= u64::MAX,
            0 <= k <= images.len(),
            at <= codes@.len(),
            at < codes@.len() ==> at == k * PAGE_ROWS && k < images.len(),
            at == codes@.len() ==> k == images.len(),
            out@ == old(out)@ + payload(images.take(k)),
            p == pos + payload(images.take(k)).len(),
            pages@.len() == k,
            forall|j: int| 0 <= j < k ==> pages@[j] == placed(images, pos as nat, j),
        decreases codes@.len() - at,
    {
        proof {
            page_bounds(codes@.len(), k);
        }
        let end: usize = if codes.len() - at <= PAGE_ROWS { codes.len() } else { at + PAGE_ROWS };
        let ghost rows = page_rows(codes@, k);
        let mut raw: Vec<u8> = Vec::new();
        let mut i: usize = at;
        assert(rows.take(0) =~= Seq::<u32>::empty());
        while i < end
            invariant
                at <= i <= end <= codes@.len(),
                rows == codes@.subrange(at as int, end as int),
                ew == (|c: u32| le(c as nat, 4)),
                raw@ == wr_list(rows.take(i - at), ew),
            decreases end - i,
        {
            put_u32(&mut raw, codes[i]);
            proof {
                list_snoc(rows, i - at, ew);
            }
            i += 1;
        }
        proof {
            assert(rows.take(i - at) =~= rows);
            words_len(rows);
            compressed_bound(words(rows));
            payload_snoc(images, k);
            assert(images[k] == code_image(rows));
        }
        let enc: Vec<u8> = compress_prepend_size(raw.as_slice());
        pages.push(
            PageMeta {
                offset: p,
                comp_len: enc.len() as u32,
                rows: (end - at) as u32,
                min: 0,
                max: 0,
            },
        );
        put_bytes(out, enc.as_slice());
        p = p + enc.len() as u64;
        at = end;
        proof {
            assert(out@ =~= old(out)@ + payload(images.take(k + 1)));
            k = k + 1;
        }
    }
    proof {
        assert(images.take(k) =~= images);
        assert(pages@ =~= place(images, pos as nat));
    }
    pages
}

pub proof fn dict_entries_fit(v: Seq<Seq<char>>)
    requires
        dict_raw(dict_of(v)).len() <= u32::MAX,
    ensures
        dict_of(v).len() <= u32::MAX,
        forall|j: int|
            0 <= j < dict_of(v).len() ==> encode_utf8(#[trigger] dict_of(v)[j]).len() <= u32::MAX,
{
    let d = dict_of(v);
    let es = |s: Seq<char>| wr_str(s);
    assert forall|k: int| 0 <= k < d.len() implies (#[trigger] es(d[k])).len() >= 1 by {
        le_len(encode_utf8(d[k]).len(), 4);
    }
    count_within_list(d, es);
    assert forall|j: int| 0 <= j < d.len() implies encode_utf8(#[trigger] d[j]).len()
        <= u32::MAX by {
        item_within_list(d, j, es);
    }
}

/// The dictionary of a text column and each row's code in it.
fn build_dict(v: &Vec<String>) -> (r: (Vec<String>, Vec<u32>))
    requires
        dict_of(strs(v@)).len() <= u32::MAX,
    ensures
        strs(r.0@) == dict_of(strs(v@)),
        r.1@ == codes_of(strs(v@)),
{
    let ghost texts = strs(v@);
    let mut dict: Vec<String> = Vec::new();
    let mut ids: StringHashMap<u32> = StringHashMap::new();
    let mut codes: Vec<u32> = Vec::new();
    let mut k: usize = 0;
    assert(texts.take(0) =~= Seq::<Seq<char>>::empty());
    assert(strs(dict@) =~= Seq::<Seq<char>>::empty());
    while k < v.len()
        invariant
            k <= v@.len(),
            texts == strs(v@),
            dict_of(texts).len() <= u32::MAX,
            strs(dict@) == dict_of(texts.take(k as int)),
            forall|s: Seq<char>|
                #![trigger ids@.contains_key(s)]
                ids@.contains_key(s) ==> ids@[s] < dict@.len() && strs(dict@)[ids@[s] as int] == s,
            forall|j: int|
                0 <= j < dict@.len() ==> ids@.contains_key(#[trigger] strs(dict@)[j]),
            codes@.len() == k,
            forall|i: int|
                0 <= i < k ==> (#[trigger] codes@[i]) < dict@.len() && strs(dict@)[codes@[i] as int]
                    == texts[i],
        decreases v@.len() - k,
    {
        let ghost before = strs(dict@);
        let ghost s = texts[k as int];
        proof {
            assert(texts.take(k + 1).drop_last() =~= texts.take(k as int));
            assert(texts.take(k + 1).last() == s);
            dict_grows(texts, k + 1);
        }
        let id: u32 = match ids.get(v[k].as_str()) {
            Some(id) => *id,
            None => {
                let id: u32 = dict.len() as u32;
                id
            },
        };
        if id as usize == dict.len() {
            assert(!before.contains(s)) by {
                if before.contains(s) {
                    let j = choose|j: int| 0 <= j < before.len() && before[j] == s;
                    assert(ids@.contains_key(before[j]));
                }
            }
            let ghost old_ids = ids@;
            dict.push(v[k].clone());
            ids.insert(v[k].clone(), id);
            proof {
                strs_push(dict@.drop_last(), dict@.last());
                assert(dict@.drop_last().push(dict@.last()) =~= dict@);
                assert(strs(dict@) =~= before.push(s));
                assert forall|t: Seq<char>|
                    #![trigger ids@.contains_key(t)]
                    ids@.contains_key(t) implies ids@[t] < dict@.len() && strs(
                    dict@,
                )[ids@[t] as int] == t by {
                    if t != s {
                        assert(old_ids.contains_key(t));
                    }
                }
                assert forall|j: int| 0 <= j < dict@.len() implies ids@.contains_key(
                    #[trigger] strs(dict@)[j],
                ) by {
                    if j < before.len() {
                        assert(old_ids.contains_key(before[j]));
                    }
                }
            }
        } else {
            assert(before[id as int] == s);
            assert(before.contains(s));
        }
        codes.push(id);
        k += 1;
        assert forall|i: int| 0 <= i < k implies (#[trigger] codes@[i]) < dict@.len() && strs(
            dict@,
        )[codes@[i] as int] == texts[i] by {
            if i < k - 1 {
                assert(before[codes@[i] as int] == texts[i]);
            }
        }
    }
    proof {
        assert(texts.take(k as int) =~= texts);
        dict_distinct(texts);
        let d = dict_of(texts);
        assert forall|i: int| 0 <= i < k implies codes@[i] == #[trigger] codes_of(texts)[i] by {
            assert(d[codes@[i] as int] == texts[i]);
            assert(d.contains(texts[i]));
            let j = d.index_of(texts[i]);
            assert(0 <= j < d.len() && d[j] == texts[i]);
        }
        assert(codes@ =~= codes_of(texts));
    }
    (dict, codes)
}

/// The first and the last text of a dictionary in sort order.
fn dict_range(dict: &Vec<String>) -> (r: (String, String))
    ensures
        r.0@ == min_text(strs(dict@)),
        r.1@ == max_text(strs(dict@)),
{
    let ghost d = strs(dict@);
    if dict.len() == 0 {
        return (String::new(), String::new());
    }
    let mut lo: usize = 0;
    let mut hi: usize = 0;
    let mut k: usize = 1;
    assert(d.take(1).last() == d[0]);
    while k < dict.len()
        invariant
            1 <= k <= dict@.len(),
            d == strs(dict@),
            lo < k,
            hi < k,
            d[lo as int] == min_text(d.take(k as int)),
            d[hi as int] == max_text(d.take(k as int)),
        decreases dict@.len() - k,
    {
        assert(d.take(k + 1).drop_last() =~= d.take(k as int));
        assert(d.take(k + 1).last() == d[k as int]);
        if str_lt(dict[k].as_str(), dict[lo].as_str()) {
            lo = k;
        }
        if str_lt(dict[hi].as_str(), dict[k].as_str()) {
            hi = k;
        }
        k += 1;
    }
    assert(d.take(k as int) =~= d);
    (dict[lo].clone(), dict[hi].clone())
}

/// The dictionary block of some texts.
fn encode_dict(dict: &Vec<String>) -> (r: Vec<u8>)
    requires
        dict_raw(strs(dict@)).len() <= u32::MAX,
        dict@.len() <= u32::MAX,
        forall|j: int|
            0 <= j < dict@.len() ==> encode_utf8(#[trigger] strs(dict@)[j]).len() <= u32::MAX,
    ensures
        r@ == compressed(dict_raw(strs(dict@))),
{
    let ghost d = strs(dict@);
    let ghost es = |s: Seq<char>| wr_str(s);
    let mut raw: Vec<u8> = Vec::new();
    put_u32(&mut raw, dict.len() as u32);
    let mut k: usize = 0;
    assert(raw@ =~= le(d.len(), 4) + wr_list(d.take(0), es));
    while k < dict.len()
        invariant
            k <= dict@.len(),
            d == strs(dict@),
            es == (|s: Seq<char>| wr_str(s)),
            forall|j: int| 0 <= j < d.len() ==> encode_utf8(#[trigger] d[j]).len() <= u32::MAX,
            raw@ == le(d.len(), 4) + wr_list(d.take(k as int), es),
        decreases dict@.len() - k,
    {
        assert(encode_utf8(d[k as int]).len() <= u32::MAX);
        put_str(&mut raw, dict[k].as_str());
        proof {
            list_snoc(d, k as int, es);
            assert(raw@ =~= le(d.len(), 4) + wr_list(d.take(k + 1), es));
        }
        k += 1;
    }
    assert(d.take(k as int) =~= d);
    compress_prepend_size(raw.as_slice())
}

/// Emits a column chunk that starts at `pos`.
fn put_chunk(out: &mut Vec<u8>, col: &ColumnData, pos: u64) -> (r: ChunkMeta)
    requires
        column_fits(col@),
        pos + chunk_bytes(col@).len() <= u64::MAX,
    ensures
        final(out)@ == old(out)@ + chunk_bytes(col@),
        r@ == chunk_meta(col@, pos as nat),
{
    match col {
        ColumnData::Int64(v) => {
            let (pages, min_i, max_i) = put_i64_pages(out, v.as_slice(), pos);
            let c: ChunkMeta = ChunkMeta {
                dtype: DataType::Int64,
                min_i,
                max_i,
                min_s: String::new(),
                max_s: String::new(),
                dict_off: 0,
                dict_len: 0,
                dict_count: 0,
                pages,
            };
            assert(c@ =~= chunk_meta(col@, pos as nat));
            c
        },
        ColumnData::Utf8(v) => {
            proof {
                dict_entries_fit(strs(v@));
            }
            let (dict, codes) = build_dict(v);
            let (min_s, max_s) = dict_range(&dict);
            let denc: Vec<u8> = encode_dict(&dict);
            let ghost before = out@;
            put_bytes(out, denc.as_slice());
            let pages: Vec<PageMeta> = put_code_pages(
                out,
                codes.as_slice(),
                pos + denc.len() as u64,
            );
            assert(out@ =~= before + chunk_bytes(col@));
            let c: ChunkMeta = ChunkMeta {
                dtype: DataType::Utf8,
                min_i: 0,
                max_i: 0,
                min_s,
                max_s,
                dict_off: pos,
                dict_len: denc.len() as u32,
                dict_count: dict.len() as u32,
                pages,
            };
            assert(c@ =~= chunk_meta(col@, pos as nat));
            c
        },
    }
}

// ---------------------------------------------------------------------------
// The writer
// ---------------------------------------------------------------------------

/// The bytes at both ends of a file.
pub open spec fn magic() -> Seq<u8> {
    seq![0x42u8, 0x4cu8, 0x5au8, 0x43u8]
}

/// The bytes a file starts with: the magic and a version.
pub open spec fn file_head() -> Seq<u8> {
    magic() + le(1, 4)
}

/// The bytes a file ends with: the footer, its length and the magic.
pub open spec fn file_tail(schema: Seq<FieldView>, rowgroups: Seq<RowGroupView>) -> Seq<u8> {
    footer(schema, rowgroups) + le(footer(schema, rowgroups).len(), 4) + magic()
}

/// A file being written. Each operation hands back the bytes to append to it.
pub struct Writer {
    pub pos: u64,
    pub schema: Vec<(String, DataType)>,
    pub rowgroups: Vec<RowGroupMeta>,
}

/// Whether columns match a schema, one by one.
pub open spec fn columns_match(cols: Seq<ColumnView>, schema: Seq<FieldView>) -> bool {
    &&& cols.len() == schema.len()
    &&& forall|i: int|
        0 <= i < cols.len() ==> (#[trigger] cols[i]).dtype() == (#[trigger] schema[i]).dtype
}

fn put_magic(out: &mut Vec<u8>)
    ensures
        final(out)@ == old(out)@ + magic(),
{
    out.push(0x42);
    out.push(0x4c);
    out.push(0x5a);
    out.push(0x43);
    assert(out@ =~= old(out)@ + magic());
}

pub proof fn rowgroup_bytes_snoc(cols: Seq<ColumnView>, k: int)
    requires
        0 <= k < cols.len(),
    ensures
        rowgroup_bytes(cols.take(k + 1)) == rowgroup_bytes(cols.take(k)) + chunk_bytes(cols[k]),
        rowgroup_bytes(cols.take(k + 1)).len() <= rowgroup_bytes(cols).len(),
    decreases cols.len(),
{
    assert(cols.take(k + 1).drop_last() =~= cols.take(k));
    if k + 1 == cols.len() {
        assert(cols.take(k + 1) =~= cols);
    } else {
        rowgroup_bytes_snoc(cols.drop_last(), k);
        assert(cols.drop_last().take(k + 1) =~= cols.take(k + 1));
    }
}

impl Writer {
    /// A writer at the start of a file, and the file's first bytes.
    pub fn create(schema: Vec<(String, DataType)>) -> (r: (Writer, Vec<u8>))
        ensures
            r.0.pos == 8,
            r.0.schema == schema,
            r.0.rowgroups@.len() == 0,
            r.1@ == file_head(),
    {
        let mut head: Vec<u8> = Vec::new();
        put_magic(&mut head);
        put_u32(&mut head, 1);
        assert(head@ =~= file_head());
        (Writer { pos: 8, schema, rowgroups: Vec::new() }, head)
    }

    /// Lays out one row group; returns the bytes to append to the file.
    pub fn write_rowgroup(&mut self, cols: &[ColumnData]) -> (bytes: Vec<u8>)
        requires
            cols@.len() >= 1,
            columns_match(column_views(cols@), schema_view(old(self).schema@)),
            forall|i: int| 0 <= i < cols@.len() ==> column_fits((#[trigger] cols@[i])@),
            old(self).pos + rowgroup_bytes(column_views(cols@)).len() <= u64::MAX,
        ensures
            bytes@ == rowgroup_bytes(column_views(cols@)),
            final(self).pos == old(self).pos + bytes@.len(),
            final(self).schema == old(self).schema,
            rowgroup_views(final(self).rowgroups@) == rowgroup_views(old(self).rowgroups@).push(
                rowgroup_meta(column_views(cols@), old(self).pos as nat),
            ),
    {
        let ghost cv = column_views(cols@);
        let base: u64 = self.pos;
        let ghost start = base as nat;
        let rows: usize = cols[0].len();
        let mut out: Vec<u8> = Vec::new();
        let mut chunks: Vec<ChunkMeta> = Vec::new();
        let mut ci: usize = 0;
        assert(cv.take(0) =~= Seq::<ColumnView>::empty());
        assert(out@ =~= rowgroup_bytes(cv.take(0)));
        while ci < cols.len()
            invariant
                ci <= cols@.len(),
                cv == column_views(cols@),
                forall|i: int| 0 <= i < cols@.len() ==> column_fits((#[trigger] cols@[i])@),
                start + rowgroup_bytes(cv).len() <= u64::MAX,
                out@ == rowgroup_bytes(cv.take(ci as int)),
                start == base,
                chunks@.len() == ci,
                forall|i: int|
                    0 <= i < ci ==> (#[trigger] chunks@[i])@ == chunk_meta(
                        cv[i],
                        start + rowgroup_bytes(cv.take(i)).len(),
                    ),
            decreases cols@.len() - ci,
        {
            proof {
                rowgroup_bytes_snoc(cv, ci as int);
            }
            assert(cv[ci as int] == cols@[ci as int]@);
            assert(column_fits(cols@[ci as int]@));
            let p: u64 = base + out.len() as u64;
            let chunk: ChunkMeta = put_chunk(&mut out, &cols[ci], p);
            chunks.push(chunk);
            ci += 1;
        }
        assert(cv.take(ci as int) =~= cv);
        let ghost before = rowgroup_views(self.rowgroups@);
        let rg: RowGroupMeta = RowGroupMeta { rows, chunks };
        assert(rg@ =~= rowgroup_meta(cv, start)) by {
            assert(chunk_views(chunks@) =~= rowgroup_meta(cv, start).chunks);
        }
        self.rowgroups.push(rg);
        self.pos = base + out.len() as u64;
        assert(rowgroup_views(self.rowgroups@) =~= before.push(rg@));
        out
    }

    /// Ends the file; returns the bytes to append and what the file holds.
    pub fn finish(self) -> (r: (Vec<u8>, FileMeta))
        requires
            footer(schema_view(self.schema@), rowgroup_views(self.rowgroups@)).len() <= u32::MAX,
            self.pos + footer(schema_view(self.schema@), rowgroup_views(self.rowgroups@)).len() + 8
                <= u64::MAX,
        ensures
            r.0@ == file_tail(schema_view(self.schema@), rowgroup_views(self.rowgroups@)),
            r.1.schema == self.schema,
            r.1.rowgroups == self.rowgroups,
            r.1.file_size == self.pos + r.0@.len(),
    {
        let ghost f = footer(schema_view(self.schema@), rowgroup_views(self.rowgroups@));
        proof {
            short_footer_fits(schema_view(self.schema@), rowgroup_views(self.rowgroups@));
            le_len(f.len(), 4);
        }
        let mut out: Vec<u8> = Vec::new();
        put_footer(&mut out, &self.schema, &self.rowgroups);
        assert(out@ =~= f);
        let flen: usize = out.len();
        put_u32(&mut out, flen as u32);
        put_magic(&mut out);
        let file_size: u64 = self.pos + flen as u64 + 8;
        (out, FileMeta { schema: self.schema, rowgroups: self.rowgroups, file_size })
    }
}

} // verus!
