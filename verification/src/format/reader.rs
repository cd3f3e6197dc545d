//! The late-materialising reader: predicates meet zone maps before any page
//! is decompressed, and only pages that hold selected rows are decoded.
use crate::format::meta::{
    get_footer, holds, range_has_none, range_prunes, rd_footer, rowgroup_views, schema_view,
    value_holds, ChunkMeta, ChunkView, CmpOp, ColumnData, ColumnView, DataType, FieldView, FileMeta,
    LitView, Literal, PageMeta, RowGroupView,
};
use crate::format::page::{block, decode_i64_page, open_block, rd_i64_page};
use crate::format::writer::magic;
use crate::text::{str_eq, str_lt, strs, strs_push, text_lt};
use crate::wire::{
    continues, continues_step, copy_range, from_le, get_str, get_u32, rd_list, rd_str, rd_u32,
    u32_at,
};
use vstd::prelude::*;

verus! {

// ---------------------------------------------------------------------------
// Counters
// ---------------------------------------------------------------------------

/// How much was decoded and how much was left alone, modulo `2^64`.
#[derive(Clone, Copy, Debug, PartialEq, Eq, Structural)]
pub struct Counters {
    pub bytes_decoded: u64,
    pub bytes_skipped: u64,
    pub pages_decoded: u64,
    pub pages_skipped: u64,
}

impl Counters {
    pub open spec fn zero() -> Counters {
        Counters { bytes_decoded: 0, bytes_skipped: 0, pages_decoded: 0, pages_skipped: 0 }
    }

    pub open spec fn decoded(self, p: PageMeta) -> Counters {
        Counters {
            bytes_decoded: self.bytes_decoded.wrapping_add(p.comp_len as u64),
            pages_decoded: self.pages_decoded.wrapping_add(1),
            ..self
        }
    }

    pub open spec fn skipped(self, p: PageMeta) -> Counters {
        Counters {
            bytes_skipped: self.bytes_skipped.wrapping_add(p.comp_len as u64),
            pages_skipped: self.pages_skipped.wrapping_add(1),
            ..self
        }
    }

    pub open spec fn skipped_all(self, pages: Seq<PageMeta>) -> Counters
        decreases pages.len(),
    {
        if pages.len() == 0 {
            self
        } else {
            self.skipped(pages[0]).skipped_all(pages.skip(1))
        }
    }

    fn count_decoded(&mut self, p: &PageMeta)
        ensures
            *final(self) == old(self).decoded(*p),
    {
        self.pages_decoded = self.pages_decoded.wrapping_add(1);
        self.bytes_decoded = self.bytes_decoded.wrapping_add(p.comp_len as u64);
    }

    fn count_skipped(&mut self, p: &PageMeta)
        ensures
            *final(self) == old(self).skipped(*p),
    {
        self.pages_skipped = self.pages_skipped.wrapping_add(1);
        self.bytes_skipped = self.bytes_skipped.wrapping_add(p.comp_len as u64);
    }
}

/// Sets all counters to zero.
pub fn reset_counters(c: &mut Counters)
    ensures
        *final(c) == Counters::zero(),
{
    *c = Counters { bytes_decoded: 0, bytes_skipped: 0, pages_decoded: 0, pages_skipped: 0 };
}

// ---------------------------------------------------------------------------
// What the pages of a file hold
// ---------------------------------------------------------------------------

/// `len` bytes of the file at `off`, if it is that long.
pub open spec fn bytes_at(file: Seq<u8>, off: nat, len: nat) -> Option<Seq<u8>> {
    if off + len <= file.len() { Some(file.subrange(off as int, (off + len) as int)) } else { None }
}

/// The values of an integer page.
pub open spec fn i64_vals(file: Seq<u8>, p: PageMeta) -> Option<Seq<i64>> {
    match bytes_at(file, p.offset as nat, p.comp_len as nat) {
        None => None,
        Some(comp) => rd_i64_page(comp, p.rows as nat),
    }
}

/// The whole little-endian words in `raw`.
pub open spec fn rd_words(raw: Seq<u8>) -> Seq<u32> {
    Seq::new(raw.len() / 4, |i: int| from_le(raw.subrange(4 * i, 4 * i + 4)) as u32)
}

/// The codes of a text page.
pub open spec fn code_vals(file: Seq<u8>, p: PageMeta) -> Option<Seq<u32>> {
    match bytes_at(file, p.offset as nat, p.comp_len as nat) {
        None => None,
        Some(comp) => match block(comp) {
            None => None,
            Some(raw) => Some(rd_words(raw)),
        },
    }
}

/// The texts in a dictionary block.
pub open spec fn rd_dict(raw: Seq<u8>) -> Option<Seq<Seq<char>>> {
    match rd_u32(raw) {
        None => None,
        Some((n, s)) => match rd_list(s, n as nat, |s: Seq<u8>| rd_str(s)) {
            None => None,
            Some((d, _)) => Some(d),
        },
    }
}

/// The dictionary of a text chunk.
pub open spec fn chunk_dict(file: Seq<u8>, c: ChunkView) -> Option<Seq<Seq<char>>> {
    match bytes_at(file, c.dict_off as nat, c.dict_len as nat) {
        None => None,
        Some(comp) => match block(comp) {
            None => None,
            Some(raw) => rd_dict(raw),
        },
    }
}

// ---------------------------------------------------------------------------
// Predicates
// ---------------------------------------------------------------------------

/// The row numbers, counted from `base`, of the values that satisfy `hit`.
pub open spec fn hits<T>(vals: Seq<T>, base: nat, hit: spec_fn(T) -> bool) -> Seq<u32>
    decreases vals.len(),
{
    if vals.len() == 0 {
        Seq::empty()
    } else {
        let h = hits(vals.drop_last(), base, hit);
        if hit(vals.last()) { h.push((base + vals.len() - 1) as u32) } else { h }
    }
}

/// The rows of `pages` that satisfy `hit`, where the first row has number
/// `base`. A page that `prune` rules out is not decoded. Nothing where a page
/// does not decode or a row number does not fit 32 bits.
pub open spec fn eval_pages<T>(
    pages: Seq<PageMeta>,
    base: nat,
    prune: spec_fn(PageMeta) -> bool,
    vals: spec_fn(PageMeta) -> Option<Seq<T>>,
    hit: spec_fn(T) -> bool,
    c: Counters,
) -> Option<(Seq<u32>, Counters)>
    decreases pages.len(),
{
    if pages.len() == 0 {
        Some((Seq::empty(), c))
    } else if base + pages[0].rows > u32::MAX {
        None
    } else if prune(pages[0]) {
        eval_pages(
            pages.skip(1),
            base + pages[0].rows as nat,
            prune,
            vals,
            hit,
            c.skipped(pages[0]),
        )
    } else {
        match vals(pages[0]) {
            None => None,
            Some(vs) => if base + vs.len() > u32::MAX {
                None
            } else {
                match eval_pages(
                    pages.skip(1),
                    base + pages[0].rows as nat,
                    prune,
                    vals,
                    hit,
                    c.decoded(pages[0]),
                ) {
                    None => None,
                    Some((rest, c2)) => Some((hits(vs, base, hit) + rest, c2)),
                }
            },
        }
    }
}

/// The selected rows of a chunk and the counters after it was searched.
pub open spec fn evaluated(
    file: Seq<u8>,
    chunk: ChunkView,
    op: CmpOp,
    lit: LitView,
    c: Counters,
) -> Option<(Seq<u32>, Counters)> {
    match lit {
        LitView::Int(l) => eval_pages(
            chunk.pages,
            0,
            |p: PageMeta| range_prunes(op, p.min, p.max, l),
            |p: PageMeta| i64_vals(file, p),
            |v: i64| holds(op, v, l),
            c,
        ),
        LitView::Str(s) => match chunk_dict(file, chunk) {
            None => None,
            Some(dict) => if !dict.contains(s) {
                Some((Seq::empty(), c.skipped_all(chunk.pages)))
            } else {
                let code = dict.index_of_first(s)->0 as u32;
                eval_pages(
                    chunk.pages,
                    0,
                    |p: PageMeta| false,
                    |p: PageMeta| code_vals(file, p),
                    |v: u32| v == code,
                    c,
                )
            },
        },
    }
}

/// Whether a predicate makes sense on a column of type `t`: comparisons of
/// integers, and equality of text.
pub open spec fn pred_typed(t: DataType, op: CmpOp, lit: LitView) -> bool {
    match lit {
        LitView::Int(_) => t == DataType::Int64,
        LitView::Str(_) => t == DataType::Utf8 && op == CmpOp::Eq,
    }
}

// ---------------------------------------------------------------------------
// Gathering
// ---------------------------------------------------------------------------

/// How many leading rows of `sel` are below `end`.
pub open spec fn run_below(sel: Seq<u32>, end: nat) -> nat
    decreases sel.len(),
{
    if sel.len() > 0 && sel[0] < end { 1 + run_below(sel.skip(1), end) } else { 0 }
}

/// The values at rows `sel` of a page whose first row has number `base`.
pub open spec fn pick<T>(vals: Seq<T>, base: nat, sel: Seq<u32>) -> Option<Seq<T>> {
    if forall|i: int| 0 <= i < sel.len() ==> base <= #[trigger] sel[i] < base + vals.len() {
        Some(Seq::new(sel.len(), |i: int| vals[sel[i] - base]))
    } else {
        None
    }
}

/// The values at rows `sel`, page by page. Only pages that the next rows of
/// `sel` fall into are decoded.
pub open spec fn gather_pages<T>(
    pages: Seq<PageMeta>,
    base: nat,
    vals: spec_fn(PageMeta) -> Option<Seq<T>>,
    sel: Seq<u32>,
    c: Counters,
) -> Option<(Seq<T>, Counters)>
    decreases pages.len(),
{
    if pages.len() == 0 {
        Some((Seq::empty(), c))
    } else if base + pages[0].rows > u32::MAX {
        None
    } else {
        let end = base + pages[0].rows as nat;
        let n = run_below(sel, end);
        if n == 0 {
            gather_pages(pages.skip(1), end, vals, sel, c.skipped(pages[0]))
        } else {
            match vals(pages[0]) {
                None => None,
                Some(vs) => match pick(vs, base, sel.take(n as int)) {
                    None => None,
                    Some(got) => match gather_pages(
                        pages.skip(1),
                        end,
                        vals,
                        sel.skip(n as int),
                        c.decoded(pages[0]),
                    ) {
                        None => None,
                        Some((rest, c2)) => Some((got + rest, c2)),
                    },
                },
            }
        }
    }
}

/// The texts that some codes stand for.
pub open spec fn lookup(dict: Seq<Seq<char>>, codes: Seq<u32>) -> Option<Seq<Seq<char>>> {
    if forall|i: int| 0 <= i < codes.len() ==> (#[trigger] codes[i]) < dict.len() {
        Some(Seq::new(codes.len(), |i: int| dict[codes[i] as int]))
    } else {
        None
    }
}

/// The values of a chunk at rows `sel` and the counters afterwards.
pub open spec fn gathered(file: Seq<u8>, chunk: ChunkView, sel: Seq<u32>, c: Counters) -> Option<
    (ColumnView, Counters),
> {
    match chunk.dtype {
        DataType::Int64 => match gather_pages(
            chunk.pages,
            0,
            |p: PageMeta| i64_vals(file, p),
            sel,
            c,
        ) {
            None => None,
            Some((v, c2)) => Some((ColumnView::Int64(v), c2)),
        },
        DataType::Utf8 => match chunk_dict(file, chunk) {
            None => None,
            Some(dict) => match gather_pages(
                chunk.pages,
                0,
                |p: PageMeta| code_vals(file, p),
                sel,
                c,
            ) {
                None => None,
                Some((codes, c2)) => match lookup(dict, codes) {
                    None => None,
                    Some(v) => Some((ColumnView::Utf8(v), c2)),
                },
            },
        },
    }
}

/// All row numbers below `n`.
pub open spec fn all_rows(n: nat) -> Seq<u32> {
    Seq::new(n, |i: int| i as u32)
}

/// Whether a row group's zone map rules a predicate out.
pub open spec fn zone_prunes(c: ChunkView, op: CmpOp, lit: LitView) -> bool {
    match (c.dtype, lit) {
        (DataType::Int64, LitView::Int(l)) => range_prunes(op, c.min_i, c.max_i, l),
        (DataType::Utf8, LitView::Str(s)) => op == CmpOp::Eq && (text_lt(s, c.min_s) || text_lt(
            c.max_s,
            s,
        )),
        _ => false,
    }
}

/// What a file's last bytes say about it: the footer they delimit.
pub open spec fn rd_file(file: Seq<u8>) -> Option<(Seq<FieldView>, Seq<RowGroupView>)> {
    if file.len() < 8 {
        None
    } else {
        let n = file.len() as int;
        let flen = from_le(file.subrange(n - 8, n - 4));
        if file.subrange(n - 4, n) != magic() || flen > n - 8 {
            None
        } else {
            rd_footer(file.subrange(n - 8 - flen, n - 8))
        }
    }
}

// ---------------------------------------------------------------------------
// The reader
// ---------------------------------------------------------------------------

/// An opened file: its bytes, what its footer says, and counters of the work
/// done on it.
pub struct Reader {
    pub file: Vec<u8>,
    pub meta: FileMeta,
    pub counters: Counters,
}

proof fn hits_step<T>(vals: Seq<T>, k: int, base: nat, hit: spec_fn(T) -> bool)
    requires
        0 <= k < vals.len(),
    ensures
        hits(vals.take(k + 1), base, hit) == if hit(vals[k]) {
            hits(vals.take(k), base, hit).push((base + k) as u32)
        } else {
            hits(vals.take(k), base, hit)
        },
{
    assert(vals.take(k + 1).drop_last() =~= vals.take(k));
}

/// Rows found so far, followed by what `rest` finds, are what `want` finds.
spec fn finds<T>(
    want: Option<(Seq<T>, Counters)>,
    got: Seq<T>,
    rest: Option<(Seq<T>, Counters)>,
) -> bool {
    match rest {
        None => want is None,
        Some((r, c)) => want == Some((got + r, c)),
    }
}

proof fn run_below_props(sel: Seq<u32>, end: nat, n: int)
    requires
        0 <= n <= sel.len(),
        forall|i: int| 0 <= i < n ==> (#[trigger] sel[i]) < end,
        n < sel.len() ==> sel[n] >= end,
    ensures
        run_below(sel, end) == n,
    decreases sel.len(),
{
    if n > 0 {
        assert(sel[0] < end);
        assert forall|i: int| 0 <= i < n - 1 implies (#[trigger] sel.skip(1)[i]) < end by {
            assert(sel.skip(1)[i] == sel[i + 1]);
        }
        run_below_props(sel.skip(1), end, n - 1);
    }
}

/// The whole words of a buffer.
fn get_words(raw: &[u8]) -> (r: Vec<u32>)
    ensures
        r@ == rd_words(raw@),
{
    let len: usize = raw.len();
    let n: usize = len / 4;
    let mut out: Vec<u32> = Vec::new();
    let mut i: usize = 0;
    while i < n
        invariant
            i <= n,
            n == len / 4,
            len == raw@.len(),
            out@.len() == i,
            forall|j: int| 0 <= j < i ==> out@[j] == rd_words(raw@)[j],
        decreases n - i,
    {
        let v: u32 = u32_at(raw, 4 * i);
        out.push(v);
        i += 1;
    }
    assert(out@ =~= rd_words(raw@));
    out
}

/// Reads a dictionary block.
fn get_dict(raw: &[u8]) -> (r: Option<Vec<String>>)
    ensures
        match rd_dict(raw@) {
            None => r is None,
            Some(d) => r is Some && strs(r->0@) == d,
        },
{
    let mut pos: usize = 0;
    assert(raw@.skip(0) =~= raw@);
    let n: u32 = get_u32(raw, &mut pos)?;
    let ghost s1 = raw@.skip(pos as int);
    let ghost rd = |s: Seq<u8>| rd_str(s);
    let ghost want = rd_list(s1, n as nat, rd);
    let mut out: Vec<String> = Vec::new();
    let mut k: u32 = 0;
    proof {
        if let Some((xs, rest)) = want {
            assert(strs(out@) + xs =~= xs);
        }
    }
    while k < n
        invariant
            k <= n,
            pos <= raw@.len(),
            rd == (|s: Seq<u8>| rd_str(s)),
            rd_u32(raw@) == Some((n, s1)),
            want == rd_list(s1, n as nat, rd),
            continues(want, strs(out@), rd_list(raw@.skip(pos as int), (n - k) as nat, rd)),
        decreases n - k,
    {
        let ghost before = out@;
        proof {
            continues_step(want, strs(out@), raw@.skip(pos as int), (n - k) as nat, rd);
        }
        let s: String = get_str(raw, &mut pos)?;
        out.push(s);
        proof {
            strs_push(before, s);
        }
        k += 1;
    }
    assert(strs(out@) + Seq::<Seq<char>>::empty() =~= strs(out@));
    Some(out)
}

/// Finds a text in a dictionary.
fn find_code(dict: &Vec<String>, s: &str) -> (r: Option<usize>)
    ensures
        match r {
            None => !strs(dict@).contains(s@),
            Some(i) => i < dict@.len() && strs(dict@).contains(s@)
                && strs(dict@).index_of_first(s@) == Some(i as int),
        },
{
    let ghost d = strs(dict@);
    let mut i: usize = 0;
    while i < dict.len()
        invariant
            i <= dict@.len(),
            d == strs(dict@),
            forall|j: int| 0 <= j < i ==> #[trigger] d[j] != s@,
        decreases dict@.len() - i,
    {
        if str_eq(dict[i].as_str(), s) {
            proof {
                assert(d[i as int] == s@);
                d.index_of_first_ensures(s@);
            }
            return Some(i);
        }
        i += 1;
    }
    None
}

/// Whether a page's range rules a comparison with `lit` out.
fn pred_page_prunes(p: &PageMeta, op: CmpOp, lit: i64) -> (r: bool)
    ensures
        r == range_prunes(op, p.min, p.max, lit),
{
    range_has_none(op, p.min, p.max, lit)
}

/// Appends the values of a page at rows `sel[from..to]`, if all are in it.
fn pick_rows<T: Copy>(
    vals: &[T],
    base: u32,
    sel: &[u32],
    from: usize,
    to: usize,
    out: &mut Vec<T>,
) -> (ok: bool)
    requires
        from <= to <= sel@.len(),
    ensures
        match pick(vals@, base as nat, sel@.subrange(from as int, to as int)) {
            None => !ok,
            Some(got) => ok && final(out)@ == old(out)@ + got,
        },
{
    let ghost mine = sel@.subrange(from as int, to as int);
    let mut i: usize = from;
    while i < to
        invariant
            from <= i <= to <= sel@.len(),
            mine == sel@.subrange(from as int, to as int),
            forall|j: int| 0 <= j < i - from ==> base <= #[trigger] mine[j] < base + vals@.len(),
            out@ == old(out)@ + Seq::new((i - from) as nat, |j: int| vals@[mine[j] - base]),
        decreases to - i,
    {
        let s: u32 = sel[i];
        assert(mine[i - from] == s);
        if s < base || (s - base) as usize >= vals.len() {
            return false;
        }
        out.push(vals[(s - base) as usize]);
        i += 1;
        assert(out@ =~= old(out)@ + Seq::new((i - from) as nat, |j: int| vals@[mine[j] - base]));
    }
    true
}

/// The texts that some codes stand for, if the dictionary has them all.
fn look_up(dict: &Vec<String>, codes: &[u32]) -> (r: Option<Vec<String>>)
    ensures
        match lookup(strs(dict@), codes@) {
            None => r is None,
            Some(v) => r is Some && strs(r->0@) == v,
        },
{
    let ghost d = strs(dict@);
    let mut out: Vec<String> = Vec::new();
    let mut i: usize = 0;
    while i < codes.len()
        invariant
            i <= codes@.len(),
            d == strs(dict@),
            forall|j: int| 0 <= j < i ==> (#[trigger] codes@[j]) < d.len(),
            strs(out@) == Seq::new(i as nat, |j: int| d[codes@[j] as int]),
        decreases codes@.len() - i,
    {
        let code: usize = codes[i] as usize;
        if code >= dict.len() {
            return None;
        }
        let ghost before = out@;
        let s: String = dict[code].clone();
        out.push(s);
        proof {
            strs_push(before, s);
            assert(strs(out@) =~= Seq::new((i + 1) as nat, |j: int| d[codes@[j] as int]));
        }
        i += 1;
    }
    assert(strs(out@) =~= Seq::new(codes@.len(), |j: int| d[codes@[j] as int]));
    Some(out)
}

impl Reader {
    /// Opens a file, or returns nothing where its footer is not sound.
    pub fn open(file: Vec<u8>) -> (r: Option<Reader>)
        ensures
            match rd_file(file@) {
                None => r is None,
                Some((schema, rowgroups)) => r matches Some(rd) && rd.file@ == file@ && schema_view(
                    rd.meta.schema@,
                ) == schema && rowgroup_views(rd.meta.rowgroups@) == rowgroups
                    && rd.meta.file_size == file@.len() && rd.counters == Counters::zero(),
            },
    {
        let size: usize = file.len();
        if size < 8 {
            return None;
        }
        proof {
            let t = file@.subrange(size - 4, size as int);
            assert(t =~= seq![file@[size - 4], file@[size - 3], file@[size - 2], file@[size - 1]]);
            assert(t[0] == file@[size - 4] && t[1] == file@[size - 3] && t[2] == file@[size - 2]
                && t[3] == file@[size - 1]);
            if file@[size - 4] == 0x42 && file@[size - 3] == 0x4c && file@[size - 2] == 0x5a
                && file@[size - 1] == 0x43 {
                assert(t =~= magic());
            }
        }
        if file[size - 4] != 0x42 || file[size - 3] != 0x4c || file[size - 2] != 0x5a
            || file[size - 1] != 0x43 {
            return None;
        }
        let flen: usize = u32_at(file.as_slice(), size - 8) as usize;
        assert(file@.subrange(size - 8, size - 8 + 4) == file@.subrange(size - 8, size - 4));
        if flen > size - 8 {
            return None;
        }
        let f: Vec<u8> = copy_range(file.as_slice(), size - 8 - flen, size - 8);
        let (schema, rowgroups) = get_footer(f.as_slice())?;
        Some(
            Reader {
                file,
                meta: FileMeta { schema, rowgroups, file_size: size as u64 },
                counters: Counters {
                    bytes_decoded: 0,
                    bytes_skipped: 0,
                    pages_decoded: 0,
                    pages_skipped: 0,
                },
            },
        )
    }

    fn read_at(&self, off: u64, len: usize) -> (r: Option<Vec<u8>>)
        ensures
            match bytes_at(self.file@, off as nat, len as nat) {
                None => r is None,
                Some(b) => r is Some && r->0@ == b,
            },
    {
        let n: u64 = self.file.len() as u64;
        if off > n || len as u64 > n - off {
            return None;
        }
        Some(copy_range(self.file.as_slice(), off as usize, off as usize + len))
    }

    fn read_dict(&self, c: &ChunkMeta) -> (r: Option<Vec<String>>)
        ensures
            match chunk_dict(self.file@, c@) {
                None => r is None,
                Some(d) => r is Some && strs(r->0@) == d,
            },
    {
        let comp: Vec<u8> = self.read_at(c.dict_off, c.dict_len as usize)?;
        let raw: Vec<u8> = open_block(comp.as_slice())?;
        get_dict(raw.as_slice())
    }

    fn page_i64s(&self, p: &PageMeta) -> (r: Option<Vec<i64>>)
        ensures
            match i64_vals(self.file@, *p) {
                None => r is None,
                Some(v) => r is Some && r->0@ == v,
            },
    {
        let comp: Vec<u8> = self.read_at(p.offset, p.comp_len as usize)?;
        decode_i64_page(comp.as_slice(), p.rows as usize)
    }

    fn page_codes(&self, p: &PageMeta) -> (r: Option<Vec<u32>>)
        ensures
            match code_vals(self.file@, *p) {
                None => r is None,
                Some(v) => r is Some && r->0@ == v,
            },
    {
        let comp: Vec<u8> = self.read_at(p.offset, p.comp_len as usize)?;
        let raw: Vec<u8> = open_block(comp.as_slice())?;
        Some(get_words(raw.as_slice()))
    }

    fn eval_i64(&self, pages: &Vec<PageMeta>, op: CmpOp, l: i64) -> (r: Option<
        (Vec<u32>, Counters),
    >)
        ensures
            ({
                let want = eval_pages(
                    pages@,
                    0,
                    |p: PageMeta| range_prunes(op, p.min, p.max, l),
                    |p: PageMeta| i64_vals(self.file@, p),
                    |v: i64| holds(op, v, l),
                    self.counters,
                );
                match want {
                    None => r is None,
                    Some((sel, c)) => r matches Some((v, c1)) && v@ == sel && c1 == c,
                }
            }),
    {
        let ghost file = self.file@;
        let ghost prune = |p: PageMeta| range_prunes(op, p.min, p.max, l);
        let ghost vals = |p: PageMeta| i64_vals(file, p);
        let ghost hit = |v: i64| holds(op, v, l);
        let ghost want = eval_pages(pages@, 0, prune, vals, hit, self.counters);
        let mut c: Counters = self.counters;
        let mut sel: Vec<u32> = Vec::new();
        let mut base: u32 = 0;
        let mut k: usize = 0;
        proof {
            assert(pages@.skip(0) =~= pages@);
            if let Some((r, c2)) = want {
                assert(sel@ + r =~= r);
            }
        }
        while k < pages.len()
            invariant
                k <= pages@.len(),
                file == self.file@,
                prune == (|p: PageMeta| range_prunes(op, p.min, p.max, l)),
                vals == (|p: PageMeta| i64_vals(file, p)),
                hit == (|v: i64| holds(op, v, l)),
                want == eval_pages(pages@, 0, prune, vals, hit, self.counters),
                finds(
                    want,
                    sel@,
                    eval_pages(pages@.skip(k as int), base as nat, prune, vals, hit, c),
                ),
            decreases pages@.len() - k,
        {
            let p: PageMeta = pages[k];
            let ghost here = pages@.skip(k as int);
            let ghost sel0 = sel@;
            proof {
                assert(here[0] == p);
                assert(here.skip(1) =~= pages@.skip(k + 1));
            }
            if p.rows > u32::MAX - base {
                return None;
            }
            if pred_page_prunes(&p, op, l) {
                c.count_skipped(&p);
            } else {
                let vs: Vec<i64> = self.page_i64s(&p)?;
                if vs.len() > (u32::MAX - base) as usize {
                    return None;
                }
                c.count_decoded(&p);
                let mut i: usize = 0;
                assert(vs@.take(0) =~= Seq::<i64>::empty());
                assert(sel0 + Seq::<u32>::empty() =~= sel0);
                while i < vs.len()
                    invariant
                        i <= vs@.len(),
                        base + vs@.len() <= u32::MAX,
                        hit == (|v: i64| holds(op, v, l)),
                        sel@ == sel0 + hits(vs@.take(i as int), base as nat, hit),
                    decreases vs@.len() - i,
                {
                    proof {
                        hits_step(vs@, i as int, base as nat, hit);
                    }
                    let ghost before = sel@;
                    if value_holds(op, vs[i], l) {
                        sel.push(base + i as u32);
                        assert(sel@ =~= sel0 + hits(vs@.take(i + 1), base as nat, hit));
                    }
                    i += 1;
                }
                proof {
                    assert(vs@.take(i as int) =~= vs@);
                    if let Some((r, c2)) = eval_pages(
                        here.skip(1),
                        base as nat + p.rows as nat,
                        prune,
                        vals,
                        hit,
                        c,
                    ) {
                        assert(sel0 + (hits(vs@, base as nat, hit) + r) =~= sel@ + r);
                    }
                }
            }
            base = base + p.rows;
            k += 1;
        }
        assert(sel@ + Seq::<u32>::empty() =~= sel@);
        Some((sel, c))
    }

    fn eval_code(&self, pages: &Vec<PageMeta>, code: u32) -> (r: Option<(Vec<u32>, Counters)>)
        ensures
            ({
                let want = eval_pages(
                    pages@,
                    0,
                    |p: PageMeta| false,
                    |p: PageMeta| code_vals(self.file@, p),
                    |v: u32| v == code,
                    self.counters,
                );
                match want {
                    None => r is None,
                    Some((sel, c)) => r matches Some((v, c1)) && v@ == sel && c1 == c,
                }
            }),
    {
        let ghost file = self.file@;
        let ghost prune = |p: PageMeta| false;
        let ghost vals = |p: PageMeta| code_vals(file, p);
        let ghost hit = |v: u32| v == code;
        let ghost want = eval_pages(pages@, 0, prune, vals, hit, self.counters);
        let mut c: Counters = self.counters;
        let mut sel: Vec<u32> = Vec::new();
        let mut base: u32 = 0;
        let mut k: usize = 0;
        proof {
            assert(pages@.skip(0) =~= pages@);
            if let Some((r, c2)) = want {
                assert(sel@ + r =~= r);
            }
        }
        while k < pages.len()
            invariant
                k <= pages@.len(),
                file == self.file@,
                prune == (|p: PageMeta| false),
                vals == (|p: PageMeta| code_vals(file, p)),
                hit == (|v: u32| v == code),
                want == eval_pages(pages@, 0, prune, vals, hit, self.counters),
                finds(
                    want,
                    sel@,
                    eval_pages(pages@.skip(k as int), base as nat, prune, vals, hit, c),
                ),
            decreases pages@.len() - k,
        {
            let p: PageMeta = pages[k];
            let ghost here = pages@.skip(k as int);
            let ghost sel0 = sel@;
            proof {
                assert(here[0] == p);
                assert(here.skip(1) =~= pages@.skip(k + 1));
            }
            if p.rows > u32::MAX - base {
                return None;
            }
            let vs: Vec<u32> = self.page_codes(&p)?;
            if vs.len() > (u32::MAX - base) as usize {
                return None;
            }
            c.count_decoded(&p);
            let mut i: usize = 0;
            assert(vs@.take(0) =~= Seq::<u32>::empty());
            assert(sel0 + Seq::<u32>::empty() =~= sel0);
            while i < vs.len()
                invariant
                    i <= vs@.len(),
                    base + vs@.len() <= u32::MAX,
                    hit == (|v: u32| v == code),
                    sel@ == sel0 + hits(vs@.take(i as int), base as nat, hit),
                decreases vs@.len() - i,
            {
                proof {
                    hits_step(vs@, i as int, base as nat, hit);
                }
                if vs[i] == code {
                    sel.push(base + i as u32);
                    assert(sel@ =~= sel0 + hits(vs@.take(i + 1), base as nat, hit));
                }
                i += 1;
            }
            proof {
                assert(vs@.take(i as int) =~= vs@);
                if let Some((r, c2)) = eval_pages(
                    here.skip(1),
                    base as nat + p.rows as nat,
                    prune,
                    vals,
                    hit,
                    c,
                ) {
                    assert(sel0 + (hits(vs@, base as nat, hit) + r) =~= sel@ + r);
                }
            }
            base = base + p.rows;
            k += 1;
        }
        assert(sel@ + Seq::<u32>::empty() =~= sel@);
        Some((sel, c))
    }

    fn skip_pages(&self, pages: &Vec<PageMeta>) -> (r: Counters)
        ensures
            r == self.counters.skipped_all(pages@),
    {
        let mut c: Counters = self.counters;
        let mut k: usize = 0;
        assert(pages@.skip(0) =~= pages@);
        while k < pages.len()
            invariant
                k <= pages@.len(),
                c.skipped_all(pages@.skip(k as int)) == self.counters.skipped_all(pages@),
            decreases pages@.len() - k,
        {
            assert(pages@.skip(k as int).skip(1) =~= pages@.skip(k + 1));
            c.count_skipped(&pages[k]);
            k += 1;
        }
        c
    }

    /// Evaluates one predicate over one row group and returns the selected
    /// rows. Pages whose zone maps prove there is no match are never
    /// decompressed. Nothing is returned where a page it needs is not sound.
    pub fn eval_pred(&mut self, rg: usize, col: usize, op: CmpOp, lit: &Literal) -> (r: Option<
        Vec<u32>,
    >)
        requires
            rg < old(self).meta.rowgroups@.len(),
            col < old(self).meta.rowgroups@[rg as int].chunks@.len(),
            pred_typed(old(self).meta.rowgroups@[rg as int].chunks@[col as int].dtype, op, lit@),
        ensures
            final(self).file == old(self).file,
            final(self).meta == old(self).meta,
            match evaluated(
                old(self).file@,
                old(self).meta.rowgroups@[rg as int].chunks@[col as int]@,
                op,
                lit@,
                old(self).counters,
            ) {
                None => r is None && final(self).counters == old(self).counters,
                Some((sel, c)) => r is Some && r->0@ == sel && final(self).counters == c,
            },
    {
        let chunk: &ChunkMeta = &self.meta.rowgroups[rg].chunks[col];
        match lit {
            Literal::Int(l) => {
                let (sel, c) = self.eval_i64(&chunk.pages, op, *l)?;
                self.counters = c;
                Some(sel)
            },
            Literal::Str(s) => {
                let dict: Vec<String> = self.read_dict(chunk)?;
                match find_code(&dict, s.as_str()) {
                    None => {
                        let c: Counters = self.skip_pages(&chunk.pages);
                        self.counters = c;
                        Some(Vec::new())
                    },
                    Some(i) => {
                        let (sel, c) = self.eval_code(
                            &chunk.pages,
                            #[verifier::truncate] (i as u32),
                        )?;
                        self.counters = c;
                        Some(sel)
                    },
                }
            },
        }
    }

    fn gather_i64(&self, pages: &Vec<PageMeta>, sel: &[u32]) -> (r: Option<(Vec<i64>, Counters)>)
        ensures
            match gather_pages(
                pages@,
                0,
                |p: PageMeta| i64_vals(self.file@, p),
                sel@,
                self.counters,
            ) {
                None => r is None,
                Some((v, c)) => r matches Some((got, c1)) && got@ == v && c1 == c,
            },
    {
        let ghost file = self.file@;
        let ghost vals = |p: PageMeta| i64_vals(file, p);
        let ghost want = gather_pages(pages@, 0, vals, sel@, self.counters);
        let mut c: Counters = self.counters;
        let mut out: Vec<i64> = Vec::new();
        let mut si: usize = 0;
        let mut base: u32 = 0;
        let mut k: usize = 0;
        proof {
            assert(pages@.skip(0) =~= pages@);
            assert(sel@.skip(0) =~= sel@);
            if let Some((r, c2)) = want {
                assert(out@ + r =~= r);
            }
        }
        while k < pages.len()
            invariant
                k <= pages@.len(),
                si <= sel@.len(),
                file == self.file@,
                vals == (|p: PageMeta| i64_vals(file, p)),
                want == gather_pages(pages@, 0, vals, sel@, self.counters),
                finds(
                    want,
                    out@,
                    gather_pages(pages@.skip(k as int), base as nat, vals, sel@.skip(si as int), c),
                ),
            decreases pages@.len() - k,
        {
            let p: PageMeta = pages[k];
            let ghost here = pages@.skip(k as int);
            let ghost rows = sel@.skip(si as int);
            let ghost out0 = out@;
            proof {
                assert(here[0] == p);
                assert(here.skip(1) =~= pages@.skip(k + 1));
            }
            if p.rows > u32::MAX - base {
                return None;
            }
            let end: u32 = base + p.rows;
            let start_si: usize = si;
            si = Self::run_end(sel, si, end);
            let ghost n = (si - start_si) as int;
            proof {
                assert forall|i: int| 0 <= i < n implies (#[trigger] rows[i]) < end by {
                    assert(rows[i] == sel@[start_si + i]);
                }
                run_below_props(rows, end as nat, n);
                assert(rows.skip(n) =~= sel@.skip(si as int));
            }
            if si > start_si {
                let vs: Vec<i64> = self.page_i64s(&p)?;
                c.count_decoded(&p);
                assert(rows.take(n) =~= sel@.subrange(start_si as int, si as int));
                if !pick_rows(vs.as_slice(), base, sel, start_si, si, &mut out) {
                    return None;
                }
                proof {
                    let got = pick(vs@, base as nat, rows.take(n))->0;
                    if let Some((r, c2)) = gather_pages(
                        here.skip(1),
                        end as nat,
                        vals,
                        rows.skip(n),
                        c,
                    ) {
                        assert(out0 + (got + r) =~= out@ + r);
                    }
                }
            } else {
                c.count_skipped(&p);
                assert(rows.skip(n) =~= rows);
            }
            base = end;
            k += 1;
        }
        assert(out@ + Seq::<i64>::empty() =~= out@);
        Some((out, c))
    }

    fn gather_codes(&self, pages: &Vec<PageMeta>, sel: &[u32]) -> (r: Option<(Vec<u32>, Counters)>)
        ensures
            match gather_pages(
                pages@,
                0,
                |p: PageMeta| code_vals(self.file@, p),
                sel@,
                self.counters,
            ) {
                None => r is None,
                Some((v, c)) => r matches Some((got, c1)) && got@ == v && c1 == c,
            },
    {
        let ghost file = self.file@;
        let ghost vals = |p: PageMeta| code_vals(file, p);
        let ghost want = gather_pages(pages@, 0, vals, sel@, self.counters);
        let mut c: Counters = self.counters;
        let mut out: Vec<u32> = Vec::new();
        let mut si: usize = 0;
        let mut base: u32 = 0;
        let mut k: usize = 0;
        proof {
            assert(pages@.skip(0) =~= pages@);
            assert(sel@.skip(0) =~= sel@);
            if let Some((r, c2)) = want {
                assert(out@ + r =~= r);
            }
        }
        while k < pages.len()
            invariant
                k <= pages@.len(),
                si <= sel@.len(),
                file == self.file@,
                vals == (|p: PageMeta| code_vals(file, p)),
                want == gather_pages(pages@, 0, vals, sel@, self.counters),
                finds(
                    want,
                    out@,
                    gather_pages(pages@.skip(k as int), base as nat, vals, sel@.skip(si as int), c),
                ),
            decreases pages@.len() - k,
        {
            let p: PageMeta = pages[k];
            let ghost here = pages@.skip(k as int);
            let ghost rows = sel@.skip(si as int);
            let ghost out0 = out@;
            proof {
                assert(here[0] == p);
                assert(here.skip(1) =~= pages@.skip(k + 1));
            }
            if p.rows > u32::MAX - base {
                return None;
            }
            let end: u32 = base + p.rows;
            let start_si: usize = si;
            si = Self::run_end(sel, si, end);
            let ghost n = (si - start_si) as int;
            proof {
                assert forall|i: int| 0 <= i < n implies (#[trigger] rows[i]) < end by {
                    assert(rows[i] == sel@[start_si + i]);
                }
                run_below_props(rows, end as nat, n);
                assert(rows.skip(n) =~= sel@.skip(si as int));
            }
            if si > start_si {
                let vs: Vec<u32> = self.page_codes(&p)?;
                c.count_decoded(&p);
                assert(rows.take(n) =~= sel@.subrange(start_si as int, si as int));
                if !pick_rows(vs.as_slice(), base, sel, start_si, si, &mut out) {
                    return None;
                }
                proof {
                    let got = pick(vs@, base as nat, rows.take(n))->0;
                    if let Some((r, c2)) = gather_pages(
                        here.skip(1),
                        end as nat,
                        vals,
                        rows.skip(n),
                        c,
                    ) {
                        assert(out0 + (got + r) =~= out@ + r);
                    }
                }
            } else {
                c.count_skipped(&p);
                assert(rows.skip(n) =~= rows);
            }
            base = end;
            k += 1;
        }
        assert(out@ + Seq::<u32>::empty() =~= out@);
        Some((out, c))
    }

    /// Decodes only the pages that hold selected rows and returns their values
    /// in the order of `sel`. Nothing is returned where a page it needs is not
    /// sound, or where `sel` goes back to an earlier page.
    pub fn gather(&mut self, rg: usize, col: usize, sel: &[u32]) -> (r: Option<ColumnData>)
        requires
            rg < old(self).meta.rowgroups@.len(),
            col < old(self).meta.rowgroups@[rg as int].chunks@.len(),
        ensures
            final(self).file == old(self).file,
            final(self).meta == old(self).meta,
            match gathered(
                old(self).file@,
                old(self).meta.rowgroups@[rg as int].chunks@[col as int]@,
                sel@,
                old(self).counters,
            ) {
                None => r is None && final(self).counters == old(self).counters,
                Some((v, c)) => r is Some && r->0@ == v && final(self).counters == c,
            },
    {
        let chunk: &ChunkMeta = &self.meta.rowgroups[rg].chunks[col];
        match chunk.dtype {
            DataType::Int64 => {
                let (v, c) = self.gather_i64(&chunk.pages, sel)?;
                self.counters = c;
                Some(ColumnData::Int64(v))
            },
            DataType::Utf8 => {
                let dict: Vec<String> = self.read_dict(chunk)?;
                let (codes, c) = self.gather_codes(&chunk.pages, sel)?;
                let v: Vec<String> = look_up(&dict, codes.as_slice())?;
                self.counters = c;
                Some(ColumnData::Utf8(v))
            },
        }
    }

    /// Reads a whole chunk.
    pub fn read_chunk(&mut self, rg: usize, col: usize) -> (r: Option<ColumnData>)
        requires
            rg < old(self).meta.rowgroups@.len(),
            col < old(self).meta.rowgroups@[rg as int].chunks@.len(),
            old(self).meta.rowgroups@[rg as int].rows <= u32::MAX,
        ensures
            final(self).file == old(self).file,
            final(self).meta == old(self).meta,
            match gathered(
                old(self).file@,
                old(self).meta.rowgroups@[rg as int].chunks@[col as int]@,
                all_rows(old(self).meta.rowgroups@[rg as int].rows as nat),
                old(self).counters,
            ) {
                None => r is None && final(self).counters == old(self).counters,
                Some((v, c)) => r is Some && r->0@ == v && final(self).counters == c,
            },
    {
        let rows: usize = self.meta.rowgroups[rg].rows;
        let mut sel: Vec<u32> = Vec::new();
        let mut i: usize = 0;
        while i < rows
            invariant
                i <= rows <= u32::MAX,
                sel@ == all_rows(i as nat),
            decreases rows - i,
        {
            sel.push(i as u32);
            i += 1;
            assert(sel@ =~= all_rows(i as nat));
        }
        self.gather(rg, col, sel.as_slice())
    }

    /// Whether a row group's zone map rules a predicate out.
    pub fn rg_prunes(&self, rg: usize, col: usize, op: CmpOp, lit: &Literal) -> (r: bool)
        requires
            rg < self.meta.rowgroups@.len(),
            col < self.meta.rowgroups@[rg as int].chunks@.len(),
        ensures
            r == zone_prunes(self.meta.rowgroups@[rg as int].chunks@[col as int]@, op, lit@),
    {
        let c: &ChunkMeta = &self.meta.rowgroups[rg].chunks[col];
        match (c.dtype, lit) {
            (DataType::Int64, Literal::Int(l)) => range_has_none(op, c.min_i, c.max_i, *l),
            (DataType::Utf8, Literal::Str(s)) => {
                op == CmpOp::Eq && (str_lt(s.as_str(), c.min_s.as_str()) || str_lt(
                    c.max_s.as_str(),
                    s.as_str(),
                ))
            },
            _ => false,
        }
    }

    /// Where the run of rows below `end` that starts at `from` stops.
    fn run_end(sel: &[u32], from: usize, end: u32) -> (r: usize)
        requires
            from <= sel@.len(),
        ensures
            from <= r <= sel@.len(),
            forall|i: int| from <= i < r ==> (#[trigger] sel@[i]) < end,
            r < sel@.len() ==> sel@[r as int] >= end,
    {
        let mut si: usize = from;
        while si < sel.len() && sel[si] < end
            invariant
                from <= si <= sel@.len(),
                forall|i: int| from <= i < si ==> (#[trigger] sel@[i]) < end,
            decreases sel@.len() - si,
        {
            si += 1;
        }
        si
    }
}

} // verus!
