//! Types of the columnar file and the layout of its footer.
use crate::text::strs;
use crate::wire::{
    continues, continues_step, get_i64, get_str, get_u32, get_u64, get_u8, i64_read_back, le,
    le_i64, le_len, list_read_back, put_i64, put_str, put_u32, put_u64, rd_i64, rd_list, rd_str,
    rd_u32, rd_u64, rd_u8, str_read_back, u32_read_back, u64_read_back, wr_list, wr_list_push,
    wr_str,
};
use vstd::prelude::*;
use vstd::utf8::encode_utf8;

verus! {

#[derive(Clone, Copy, Debug, PartialEq, Eq, Structural)]
pub enum DataType {
    Int64,
    Utf8,
}

#[derive(Clone, Debug)]
pub enum ColumnData {
    Int64(Vec<i64>),
    Utf8(Vec<String>),
}

/// The values of a column.
pub enum ColumnView {
    Int64(Seq<i64>),
    Utf8(Seq<Seq<char>>),
}

impl View for ColumnData {
    type V = ColumnView;

    open spec fn view(&self) -> ColumnView {
        match self {
            ColumnData::Int64(v) => ColumnView::Int64(v@),
            ColumnData::Utf8(v) => ColumnView::Utf8(strs(v@)),
        }
    }
}

impl ColumnView {
    pub open spec fn len(self) -> nat {
        match self {
            ColumnView::Int64(v) => v.len(),
            ColumnView::Utf8(v) => v.len(),
        }
    }

    pub open spec fn dtype(self) -> DataType {
        match self {
            ColumnView::Int64(_) => DataType::Int64,
            ColumnView::Utf8(_) => DataType::Utf8,
        }
    }
}

impl ColumnData {
    pub fn len(&self) -> (n: usize)
        ensures
            n == self@.len(),
    {
        match self {
            ColumnData::Int64(v) => v.len(),
            ColumnData::Utf8(v) => v.len(),
        }
    }

    pub fn is_empty(&self) -> (r: bool)
        ensures
            r == (self@.len() == 0),
    {
        self.len() == 0
    }

    /// The values of an integer column.
    pub fn as_i64(&self) -> (r: &[i64])
        requires
            self is Int64,
        ensures
            self@ == ColumnView::Int64(r@),
    {
        match self {
            ColumnData::Int64(v) => v.as_slice(),
            ColumnData::Utf8(_) => &[],
        }
    }
}

#[derive(Clone, Copy, Debug, PartialEq, Eq, Structural)]
pub enum CmpOp {
    Gt,
    Lt,
    Ge,
    Le,
    Eq,
}

#[derive(Clone, Debug)]
pub enum Literal {
    Int(i64),
    Str(String),
}

pub enum LitView {
    Int(i64),
    Str(Seq<char>),
}

impl View for Literal {
    type V = LitView;

    open spec fn view(&self) -> LitView {
        match self {
            Literal::Int(n) => LitView::Int(*n),
            Literal::Str(s) => LitView::Str(s@),
        }
    }
}

impl Literal {
    pub fn copy(&self) -> (r: Literal)
        ensures
            r == *self,
    {
        match self {
            Literal::Int(n) => Literal::Int(*n),
            Literal::Str(s) => Literal::Str(s.clone()),
        }
    }
}

/// Whether `v` stands in relation `op` to `l`.
pub open spec fn holds(op: CmpOp, v: i64, l: i64) -> bool {
    match op {
        CmpOp::Gt => v > l,
        CmpOp::Lt => v < l,
        CmpOp::Ge => v >= l,
        CmpOp::Le => v <= l,
        CmpOp::Eq => v == l,
    }
}

/// Whether no value between `min` and `max` stands in relation `op` to `l`.
pub open spec fn range_prunes(op: CmpOp, min: i64, max: i64, l: i64) -> bool {
    match op {
        CmpOp::Gt => max <= l,
        CmpOp::Ge => max < l,
        CmpOp::Lt => min >= l,
        CmpOp::Le => min > l,
        CmpOp::Eq => l < min || l > max,
    }
}

/// A range that prunes holds no match, and one that does not prune could.
pub proof fn range_prunes_exactly(op: CmpOp, min: i64, max: i64, l: i64)
    requires
        min <= max,
    ensures
        range_prunes(op, min, max, l) <==> (forall|v: i64| min <= v <= max ==> !#[trigger] holds(op, v, l)),
{
    if !range_prunes(op, min, max, l) {
        match op {
            CmpOp::Gt => assert(holds(op, max, l)),
            CmpOp::Ge => assert(holds(op, max, l)),
            CmpOp::Lt => assert(holds(op, min, l)),
            CmpOp::Le => assert(holds(op, min, l)),
            CmpOp::Eq => assert(holds(op, l, l)),
        }
    }
}

pub fn value_holds(op: CmpOp, v: i64, l: i64) -> (r: bool)
    ensures
        r == holds(op, v, l),
{
    match op {
        CmpOp::Gt => v > l,
        CmpOp::Lt => v < l,
        CmpOp::Ge => v >= l,
        CmpOp::Le => v <= l,
        CmpOp::Eq => v == l,
    }
}

pub fn range_has_none(op: CmpOp, min: i64, max: i64, l: i64) -> (r: bool)
    ensures
        r == range_prunes(op, min, max, l),
{
    match op {
        CmpOp::Gt => max <= l,
        CmpOp::Ge => max < l,
        CmpOp::Lt => min >= l,
        CmpOp::Le => min > l,
        CmpOp::Eq => l < min || l > max,
    }
}

/// Where a page is, how many rows it holds and, for integers, their range.
#[derive(Clone, Copy, Debug)]
pub struct PageMeta {
    pub offset: u64,
    pub comp_len: u32,
    pub rows: u32,
    pub min: i64,
    pub max: i64,
}

#[derive(Clone, Debug)]
pub struct ChunkMeta {
    pub dtype: DataType,
    pub min_i: i64,
    pub max_i: i64,
    pub min_s: String,
    pub max_s: String,
    pub dict_off: u64,
    pub dict_len: u32,
    pub dict_count: u32,
    pub pages: Vec<PageMeta>,
}

#[verifier::ext_equal]
pub struct ChunkView {
    pub dtype: DataType,
    pub min_i: i64,
    pub max_i: i64,
    pub min_s: Seq<char>,
    pub max_s: Seq<char>,
    pub dict_off: u64,
    pub dict_len: u32,
    pub dict_count: u32,
    pub pages: Seq<PageMeta>,
}

impl View for ChunkMeta {
    type V = ChunkView;

    open spec fn view(&self) -> ChunkView {
        ChunkView {
            dtype: self.dtype,
            min_i: self.min_i,
            max_i: self.max_i,
            min_s: self.min_s@,
            max_s: self.max_s@,
            dict_off: self.dict_off,
            dict_len: self.dict_len,
            dict_count: self.dict_count,
            pages: self.pages@,
        }
    }
}

#[derive(Clone, Debug)]
pub struct RowGroupMeta {
    pub rows: usize,
    pub chunks: Vec<ChunkMeta>,
}

#[verifier::ext_equal]
pub struct RowGroupView {
    pub rows: usize,
    pub chunks: Seq<ChunkView>,
}

pub open spec fn chunk_views(v: Seq<ChunkMeta>) -> Seq<ChunkView> {
    Seq::new(v.len(), |i: int| v[i]@)
}

impl View for RowGroupMeta {
    type V = RowGroupView;

    open spec fn view(&self) -> RowGroupView {
        RowGroupView { rows: self.rows, chunks: chunk_views(self.chunks@) }
    }
}

pub open spec fn rowgroup_views(v: Seq<RowGroupMeta>) -> Seq<RowGroupView> {
    Seq::new(v.len(), |i: int| v[i]@)
}

#[verifier::ext_equal]
pub struct FieldView {
    pub name: Seq<char>,
    pub dtype: DataType,
}

pub open spec fn schema_view(v: Seq<(String, DataType)>) -> Seq<FieldView> {
    Seq::new(v.len(), |i: int| FieldView { name: v[i].0@, dtype: v[i].1 })
}

#[derive(Clone, Debug)]
pub struct FileMeta {
    pub schema: Vec<(String, DataType)>,
    pub rowgroups: Vec<RowGroupMeta>,
    pub file_size: u64,
}

// ---------------------------------------------------------------------------
// Footer layout
// ---------------------------------------------------------------------------

pub open spec fn dtype_byte(t: DataType) -> u8 {
    match t {
        DataType::Int64 => 0,
        DataType::Utf8 => 1,
    }
}

/// Any byte but zero stands for text.
pub open spec fn byte_dtype(b: u8) -> DataType {
    if b == 0 { DataType::Int64 } else { DataType::Utf8 }
}

pub open spec fn wr_field(f: FieldView) -> Seq<u8> {
    wr_str(f.name) + seq![dtype_byte(f.dtype)]
}

pub open spec fn wr_page(p: PageMeta) -> Seq<u8> {
    le(p.offset as nat, 8) + le(p.comp_len as nat, 4) + le(p.rows as nat, 4) + le_i64(p.min)
        + le_i64(p.max)
}

/// A chunk's type and value ranges.
pub open spec fn wr_chunk_stats(c: ChunkView) -> Seq<u8> {
    seq![dtype_byte(c.dtype)] + le_i64(c.min_i) + le_i64(c.max_i) + wr_str(c.min_s) + wr_str(
        c.max_s,
    )
}

/// Where a chunk's dictionary is, and how many pages follow.
pub open spec fn wr_chunk_dict(c: ChunkView) -> Seq<u8> {
    le(c.dict_off as nat, 8) + le(c.dict_len as nat, 4) + le(c.dict_count as nat, 4) + le(
        c.pages.len(),
        4,
    )
}

pub open spec fn wr_chunk(c: ChunkView) -> Seq<u8> {
    wr_chunk_stats(c) + wr_chunk_dict(c) + wr_list(c.pages, |p: PageMeta| wr_page(p))
}

pub open spec fn wr_rowgroup(r: RowGroupView) -> Seq<u8> {
    le(r.rows as nat, 8) + wr_list(r.chunks, |c: ChunkView| wr_chunk(c))
}

/// The footer: the schema, then the row groups with their column chunks.
pub open spec fn footer(schema: Seq<FieldView>, rowgroups: Seq<RowGroupView>) -> Seq<u8> {
    le(schema.len(), 4) + wr_list(schema, |f: FieldView| wr_field(f)) + le(rowgroups.len(), 4)
        + wr_list(rowgroups, |r: RowGroupView| wr_rowgroup(r))
}

pub open spec fn rd_field(s: Seq<u8>) -> Option<(FieldView, Seq<u8>)> {
    match rd_str(s) {
        None => None,
        Some((name, s)) => match rd_u8(s) {
            None => None,
            Some((b, s)) => Some((FieldView { name, dtype: byte_dtype(b) }, s)),
        },
    }
}

pub open spec fn rd_page(s: Seq<u8>) -> Option<(PageMeta, Seq<u8>)> {
    match rd_u64(s) {
        None => None,
        Some((offset, s)) => match rd_u32(s) {
            None => None,
            Some((comp_len, s)) => match rd_u32(s) {
                None => None,
                Some((rows, s)) => match rd_i64(s) {
                    None => None,
                    Some((min, s)) => match rd_i64(s) {
                        None => None,
                        Some((max, s)) => Some(
                            (PageMeta { offset, comp_len, rows, min, max }, s),
                        ),
                    },
                },
            },
        },
    }
}

/// A chunk's type and value ranges, with nothing of the rest filled in.
pub open spec fn rd_chunk_stats(s: Seq<u8>) -> Option<(ChunkView, Seq<u8>)> {
    match rd_u8(s) {
        None => None,
        Some((b, s)) => match rd_i64(s) {
            None => None,
            Some((min_i, s)) => match rd_i64(s) {
                None => None,
                Some((max_i, s)) => match rd_str(s) {
                    None => None,
                    Some((min_s, s)) => match rd_str(s) {
                        None => None,
                        Some((max_s, s)) => Some(
                            (
                                ChunkView {
                                    dtype: byte_dtype(b),
                                    min_i,
                                    max_i,
                                    min_s,
                                    max_s,
                                    dict_off: 0,
                                    dict_len: 0,
                                    dict_count: 0,
                                    pages: Seq::empty(),
                                },
                                s,
                            ),
                        ),
                    },
                },
            },
        },
    }
}

/// `c` with the place of its dictionary, and the number of pages that follow.
pub open spec fn rd_chunk_dict(c: ChunkView, s: Seq<u8>) -> Option<((ChunkView, u32), Seq<u8>)> {
    match rd_u64(s) {
        None => None,
        Some((dict_off, s)) => match rd_u32(s) {
            None => None,
            Some((dict_len, s)) => match rd_u32(s) {
                None => None,
                Some((dict_count, s)) => match rd_u32(s) {
                    None => None,
                    Some((np, s)) => Some(
                        ((ChunkView { dict_off, dict_len, dict_count, ..c }, np), s),
                    ),
                },
            },
        },
    }
}

pub open spec fn rd_chunk(s: Seq<u8>) -> Option<(ChunkView, Seq<u8>)> {
    match rd_chunk_stats(s) {
        None => None,
        Some((c, s)) => match rd_chunk_dict(c, s) {
            None => None,
            Some(((c, np), s)) => match rd_list(s, np as nat, |s: Seq<u8>| rd_page(s)) {
                None => None,
                Some((pages, s)) => Some((ChunkView { pages, ..c }, s)),
            },
        },
    }
}

pub open spec fn rd_rowgroup(s: Seq<u8>, ncols: nat) -> Option<(RowGroupView, Seq<u8>)> {
    match rd_u64(s) {
        None => None,
        Some((rows, s)) => match rd_list(s, ncols, |s: Seq<u8>| rd_chunk(s)) {
            None => None,
            Some((chunks, s)) => Some((RowGroupView { rows: rows as usize, chunks }, s)),
        },
    }
}

/// What a footer says; bytes after the last row group are not looked at.
pub open spec fn rd_footer(s: Seq<u8>) -> Option<(Seq<FieldView>, Seq<RowGroupView>)> {
    match rd_u32(s) {
        None => None,
        Some((ncols, s)) => match rd_list(s, ncols as nat, |s: Seq<u8>| rd_field(s)) {
            None => None,
            Some((schema, s)) => match rd_u32(s) {
                None => None,
                Some((nrg, s)) => match rd_list(
                    s,
                    nrg as nat,
                    |s: Seq<u8>| rd_rowgroup(s, ncols as nat),
                ) {
                    None => None,
                    Some((rowgroups, _)) => Some((schema, rowgroups)),
                },
            },
        },
    }
}

// ---------------------------------------------------------------------------
// Writing and reading the footer
// ---------------------------------------------------------------------------

/// An item is no longer than the list it stands in.
pub proof fn item_within_list<T>(items: Seq<T>, k: int, enc: spec_fn(T) -> Seq<u8>)
    requires
        0 <= k < items.len(),
    ensures
        enc(items[k]).len() <= wr_list(items, enc).len(),
    decreases items.len(),
{
    if k > 0 {
        item_within_list(items.skip(1), k - 1, enc);
    }
}

/// A list of nonempty items is at least as long as their number.
pub proof fn count_within_list<T>(items: Seq<T>, enc: spec_fn(T) -> Seq<u8>)
    requires
        forall|k: int| 0 <= k < items.len() ==> (#[trigger] enc(items[k])).len() >= 1,
    ensures
        items.len() <= wr_list(items, enc).len(),
    decreases items.len(),
{
    if items.len() > 0 {
        let t = items.skip(1);
        assert forall|k: int| 0 <= k < t.len() implies (#[trigger] enc(t[k])).len() >= 1 by {
            assert(t[k] == items[k + 1]);
        }
        assert(enc(items[0]).len() >= 1);
        count_within_list(t, enc);
    }
}

pub proof fn list_snoc<T>(items: Seq<T>, k: int, enc: spec_fn(T) -> Seq<u8>)
    requires
        0 <= k < items.len(),
    ensures
        wr_list(items.take(k + 1), enc) == wr_list(items.take(k), enc) + enc(items[k]),
{
    assert(items.take(k + 1) =~= items.take(k).push(items[k]));
    wr_list_push(items.take(k), items[k], enc);
}

/// What must fit the length fields of a chunk's entry.
pub open spec fn chunk_fits(c: ChunkView) -> bool {
    &&& encode_utf8(c.min_s).len() <= u32::MAX
    &&& encode_utf8(c.max_s).len() <= u32::MAX
    &&& c.pages.len() <= u32::MAX
}

pub open spec fn footer_fits(schema: Seq<FieldView>, rowgroups: Seq<RowGroupView>) -> bool {
    &&& schema.len() <= u32::MAX
    &&& rowgroups.len() <= u32::MAX
    &&& forall|i: int|
        0 <= i < schema.len() ==> encode_utf8((#[trigger] schema[i]).name).len() <= u32::MAX
    &&& forall|i: int|
        #![trigger rowgroups[i]]
        0 <= i < rowgroups.len() ==> forall|j: int|
            0 <= j < rowgroups[i].chunks.len() ==> chunk_fits(#[trigger] rowgroups[i].chunks[j])
}

/// A footer short enough for its own length field fits all the length fields
/// inside it.
pub proof fn short_footer_fits(schema: Seq<FieldView>, rowgroups: Seq<RowGroupView>)
    requires
        footer(schema, rowgroups).len() <= u32::MAX,
    ensures
        footer_fits(schema, rowgroups),
{
    let ef = |f: FieldView| wr_field(f);
    let er = |r: RowGroupView| wr_rowgroup(r);
    let ec = |c: ChunkView| wr_chunk(c);
    let ep = |p: PageMeta| wr_page(p);
    assert forall|k: int| 0 <= k < schema.len() implies (#[trigger] ef(schema[k])).len() >= 1 by {}
    count_within_list(schema, ef);
    assert forall|k: int| 0 <= k < rowgroups.len() implies (#[trigger] er(rowgroups[k])).len()
        >= 1 by {
        le_len(rowgroups[k].rows as nat, 8);
    }
    count_within_list(rowgroups, er);
    assert forall|i: int| 0 <= i < schema.len() implies encode_utf8(
        (#[trigger] schema[i]).name,
    ).len() <= u32::MAX by {
        item_within_list(schema, i, ef);
    }
    assert forall|i: int| #![trigger rowgroups[i]] 0 <= i < rowgroups.len() implies (forall|j: int|
        0 <= j < rowgroups[i].chunks.len() ==> chunk_fits(#[trigger] rowgroups[i].chunks[j])) by {
        item_within_list(rowgroups, i, er);
        let r = rowgroups[i];
        assert forall|j: int| 0 <= j < r.chunks.len() implies chunk_fits(#[trigger] r.chunks[j]) by {
            item_within_list(r.chunks, j, ec);
            let c = r.chunks[j];
            assert forall|k: int| 0 <= k < c.pages.len() implies (#[trigger] ep(c.pages[k])).len()
                >= 1 by {
                le_len(c.pages[k].offset as nat, 8);
            }
            count_within_list(c.pages, ep);
        }
    }
}

pub fn dtype_code(t: DataType) -> (b: u8)
    ensures
        b == dtype_byte(t),
{
    match t {
        DataType::Int64 => 0,
        DataType::Utf8 => 1,
    }
}

pub fn code_dtype(b: u8) -> (t: DataType)
    ensures
        t == byte_dtype(b),
{
    if b == 0 {
        DataType::Int64
    } else {
        DataType::Utf8
    }
}

fn put_chunk(out: &mut Vec<u8>, c: &ChunkMeta)
    requires
        chunk_fits(c@),
    ensures
        final(out)@ == old(out)@ + wr_chunk(c@),
{
    out.push(dtype_code(c.dtype));
    put_i64(out, c.min_i);
    put_i64(out, c.max_i);
    put_str(out, c.min_s.as_str());
    put_str(out, c.max_s.as_str());
    put_u64(out, c.dict_off);
    put_u32(out, c.dict_len);
    put_u32(out, c.dict_count);
    put_u32(out, c.pages.len() as u32);
    let ghost head = out@;
    let ghost ep = |p: PageMeta| wr_page(p);
    let mut k: usize = 0;
    while k < c.pages.len()
        invariant
            k <= c.pages@.len(),
            ep == (|p: PageMeta| wr_page(p)),
            out@ == head + wr_list(c.pages@.take(k as int), ep),
        decreases c.pages@.len() - k,
    {
        let p: PageMeta = c.pages[k];
        let ghost before = out@;
        put_u64(out, p.offset);
        put_u32(out, p.comp_len);
        put_u32(out, p.rows);
        put_i64(out, p.min);
        put_i64(out, p.max);
        proof {
            assert(out@ =~= before + wr_page(p));
            list_snoc(c.pages@, k as int, ep);
            assert(out@ =~= head + wr_list(c.pages@.take(k + 1), ep));
        }
        k += 1;
    }
    proof {
        assert(c.pages@.take(k as int) =~= c.pages@);
        assert(out@ =~= old(out)@ + wr_chunk(c@));
    }
}

pub fn put_footer(out: &mut Vec<u8>, schema: &Vec<(String, DataType)>, rowgroups: &Vec<RowGroupMeta>)
    requires
        footer_fits(schema_view(schema@), rowgroup_views(rowgroups@)),
    ensures
        final(out)@ == old(out)@ + footer(schema_view(schema@), rowgroup_views(rowgroups@)),
{
    let ghost sv = schema_view(schema@);
    let ghost rv = rowgroup_views(rowgroups@);
    let ghost ef = |f: FieldView| wr_field(f);
    let ghost er = |r: RowGroupView| wr_rowgroup(r);
    let ghost ec = |c: ChunkView| wr_chunk(c);
    put_u32(out, schema.len() as u32);
    let ghost head = out@;
    let mut k: usize = 0;
    while k < schema.len()
        invariant
            k <= schema@.len(),
            sv == schema_view(schema@),
            forall|i: int|
                0 <= i < sv.len() ==> encode_utf8((#[trigger] sv[i]).name).len() <= u32::MAX,
            ef == (|f: FieldView| wr_field(f)),
            out@ == head + wr_list(sv.take(k as int), ef),
        decreases schema@.len() - k,
    {
        let ghost before = out@;
        assert(sv[k as int].name == schema@[k as int].0@);
        put_str(out, schema[k].0.as_str());
        out.push(dtype_code(schema[k].1));
        proof {
            assert(out@ =~= before + wr_field(sv[k as int]));
            list_snoc(sv, k as int, ef);
            assert(out@ =~= head + wr_list(sv.take(k + 1), ef));
        }
        k += 1;
    }
    assert(sv.take(k as int) =~= sv);
    put_u32(out, rowgroups.len() as u32);
    let ghost head2 = out@;
    let mut g: usize = 0;
    while g < rowgroups.len()
        invariant
            g <= rowgroups@.len(),
            rv == rowgroup_views(rowgroups@),
            forall|i: int|
                #![trigger rv[i]]
                0 <= i < rv.len() ==> forall|j: int|
                    0 <= j < rv[i].chunks.len() ==> chunk_fits(#[trigger] rv[i].chunks[j]),
            er == (|r: RowGroupView| wr_rowgroup(r)),
            ec == (|c: ChunkView| wr_chunk(c)),
            out@ == head2 + wr_list(rv.take(g as int), er),
        decreases rowgroups@.len() - g,
    {
        let rg: &RowGroupMeta = &rowgroups[g];
        let ghost before = out@;
        assert(rv[g as int] == rg@);
        put_u64(out, rg.rows as u64);
        let ghost inner = out@;
        let mut j: usize = 0;
        while j < rg.chunks.len()
            invariant
                j <= rg.chunks@.len(),
                ec == (|c: ChunkView| wr_chunk(c)),
                forall|j: int|
                    0 <= j < rg@.chunks.len() ==> chunk_fits(#[trigger] rg@.chunks[j]),
                out@ == inner + wr_list(rg@.chunks.take(j as int), ec),
            decreases rg.chunks@.len() - j,
        {
            let ghost prior = out@;
            assert(rg@.chunks[j as int] == rg.chunks@[j as int]@);
            put_chunk(out, &rg.chunks[j]);
            proof {
                list_snoc(rg@.chunks, j as int, ec);
                assert(out@ =~= inner + wr_list(rg@.chunks.take(j + 1), ec));
            }
            j += 1;
        }
        proof {
            assert(rg@.chunks.take(j as int) =~= rg@.chunks);
            assert(out@ =~= before + wr_rowgroup(rv[g as int]));
            list_snoc(rv, g as int, er);
            assert(out@ =~= head2 + wr_list(rv.take(g + 1), er));
        }
        g += 1;
    }
    proof {
        assert(rv.take(g as int) =~= rv);
        assert(out@ =~= old(out)@ + footer(sv, rv));
    }
}

fn get_page(buf: &[u8], pos: &mut usize) -> (r: Option<PageMeta>)
    requires
        *old(pos) <= buf@.len(),
    ensures
        *final(pos) <= buf@.len(),
        match rd_page(buf@.skip(*old(pos) as int)) {
            None => r is None,
            Some((p, rest)) => r == Some(p) && buf@.skip(*final(pos) as int) == rest,
        },
{
    let offset: u64 = get_u64(buf, pos)?;
    let comp_len: u32 = get_u32(buf, pos)?;
    let rows: u32 = get_u32(buf, pos)?;
    let min: i64 = get_i64(buf, pos)?;
    let max: i64 = get_i64(buf, pos)?;
    Some(PageMeta { offset, comp_len, rows, min, max })
}

fn get_chunk(buf: &[u8], pos: &mut usize) -> (r: Option<ChunkMeta>)
    requires
        *old(pos) <= buf@.len(),
    ensures
        *final(pos) <= buf@.len(),
        match rd_chunk(buf@.skip(*old(pos) as int)) {
            None => r is None,
            Some((c, rest)) => r is Some && r->0@ == c && buf@.skip(*final(pos) as int) == rest,
        },
{
    let dtype: DataType = code_dtype(get_u8(buf, pos)?);
    let min_i: i64 = get_i64(buf, pos)?;
    let max_i: i64 = get_i64(buf, pos)?;
    let min_s: String = get_str(buf, pos)?;
    let max_s: String = get_str(buf, pos)?;
    let ghost stats = ChunkView {
        dtype,
        min_i,
        max_i,
        min_s: min_s@,
        max_s: max_s@,
        dict_off: 0,
        dict_len: 0,
        dict_count: 0,
        pages: Seq::empty(),
    };
    let ghost s0 = buf@.skip(*pos as int);
    assert(rd_chunk_stats(buf@.skip(*old(pos) as int)) == Some((stats, s0)));
    let dict_off: u64 = get_u64(buf, pos)?;
    let dict_len: u32 = get_u32(buf, pos)?;
    let dict_count: u32 = get_u32(buf, pos)?;
    let np: u32 = get_u32(buf, pos)?;
    let ghost head = ChunkView { dict_off, dict_len, dict_count, ..stats };
    let ghost s1 = buf@.skip(*pos as int);
    let ghost rd = |s: Seq<u8>| rd_page(s);
    let ghost want = rd_list(s1, np as nat, rd);
    let mut pages: Vec<PageMeta> = Vec::new();
    let mut k: u32 = 0;
    proof {
        if let Some((xs, rest)) = want {
            assert(pages@ + xs =~= xs);
        }
    }
    while k < np
        invariant
            k <= np,
            *pos <= buf@.len(),
            rd == (|s: Seq<u8>| rd_page(s)),
            rd_chunk_stats(buf@.skip(*old(pos) as int)) == Some((stats, s0)),
            rd_chunk_dict(stats, s0) == Some(((head, np), s1)),
            want == rd_list(s1, np as nat, rd),
            continues(want, pages@, rd_list(buf@.skip(*pos as int), (np - k) as nat, rd)),
        decreases np - k,
    {
        proof {
            continues_step(want, pages@, buf@.skip(*pos as int), (np - k) as nat, rd);
        }
        let p: PageMeta = get_page(buf, pos)?;
        pages.push(p);
        k += 1;
    }
    let c: ChunkMeta = ChunkMeta {
        dtype,
        min_i,
        max_i,
        min_s,
        max_s,
        dict_off,
        dict_len,
        dict_count,
        pages,
    };
    proof {
        assert(pages@ + Seq::<PageMeta>::empty() =~= pages@);
        assert(c@ =~= ChunkView { pages: pages@, ..head });
    }
    Some(c)
}

fn get_rowgroup(buf: &[u8], pos: &mut usize, ncols: usize) -> (r: Option<RowGroupMeta>)
    requires
        *old(pos) <= buf@.len(),
    ensures
        *final(pos) <= buf@.len(),
        match rd_rowgroup(buf@.skip(*old(pos) as int), ncols as nat) {
            None => r is None,
            Some((g, rest)) => r is Some && r->0@ == g && buf@.skip(*final(pos) as int) == rest,
        },
{
    let rows: u64 = get_u64(buf, pos)?;
    let ghost s1 = buf@.skip(*pos as int);
    let ghost rd = |s: Seq<u8>| rd_chunk(s);
    let ghost want = rd_list(s1, ncols as nat, rd);
    let mut chunks: Vec<ChunkMeta> = Vec::new();
    let mut k: usize = 0;
    proof {
        if let Some((xs, rest)) = want {
            assert(chunk_views(chunks@) + xs =~= xs);
        }
    }
    while k < ncols
        invariant
            k <= ncols,
            *pos <= buf@.len(),
            rd == (|s: Seq<u8>| rd_chunk(s)),
            rd_u64(buf@.skip(*old(pos) as int)) == Some((rows, s1)),
            want == rd_list(s1, ncols as nat, rd),
            continues(
                want,
                chunk_views(chunks@),
                rd_list(buf@.skip(*pos as int), (ncols - k) as nat, rd),
            ),
        decreases ncols - k,
    {
        let ghost before = chunk_views(chunks@);
        proof {
            continues_step(want, before, buf@.skip(*pos as int), (ncols - k) as nat, rd);
        }
        let c: ChunkMeta = get_chunk(buf, pos)?;
        chunks.push(c);
        assert(chunk_views(chunks@) =~= before.push(c@));
        k += 1;
    }
    let g: RowGroupMeta = RowGroupMeta { rows: #[verifier::truncate] (rows as usize), chunks };
    proof {
        assert(chunk_views(chunks@) + Seq::<ChunkView>::empty() =~= chunk_views(chunks@));
    }
    Some(g)
}

/// The schema and row groups a footer holds, or nothing where it ends inside
/// an entry or a name is not UTF-8.
pub fn get_footer(buf: &[u8]) -> (r: Option<(Vec<(String, DataType)>, Vec<RowGroupMeta>)>)
    ensures
        match rd_footer(buf@) {
            None => r is None,
            Some((schema, rowgroups)) => r matches Some((sch, rgs)) && schema_view(sch@) == schema
                && rowgroup_views(rgs@) == rowgroups,
        },
{
    let mut pos: usize = 0;
    assert(buf@.skip(0) =~= buf@);
    let ncols: usize = get_u32(buf, &mut pos)? as usize;
    let ghost s1 = buf@.skip(pos as int);
    let ghost rdf = |s: Seq<u8>| rd_field(s);
    let ghost want = rd_list(s1, ncols as nat, rdf);
    let mut schema: Vec<(String, DataType)> = Vec::new();
    let mut k: usize = 0;
    proof {
        if let Some((xs, rest)) = want {
            assert(schema_view(schema@) + xs =~= xs);
        }
    }
    while k < ncols
        invariant
            k <= ncols,
            pos <= buf@.len(),
            rdf == (|s: Seq<u8>| rd_field(s)),
            ncols <= u32::MAX,
            rd_u32(buf@) == Some((ncols as u32, s1)),
            want == rd_list(s1, ncols as nat, rdf),
            continues(
                want,
                schema_view(schema@),
                rd_list(buf@.skip(pos as int), (ncols - k) as nat, rdf),
            ),
        decreases ncols - k,
    {
        let ghost before = schema_view(schema@);
        proof {
            continues_step(want, before, buf@.skip(pos as int), (ncols - k) as nat, rdf);
        }
        assert(rd_field(buf@.skip(pos as int)) is None ==> rd_footer(buf@) is None);
        let name: String = get_str(buf, &mut pos)?;
        let t: DataType = code_dtype(get_u8(buf, &mut pos)?);
        let ghost f = FieldView { name: name@, dtype: t };
        schema.push((name, t));
        assert(schema_view(schema@) =~= before.push(f));
        k += 1;
    }
    assert(schema_view(schema@) + Seq::<FieldView>::empty() =~= schema_view(schema@));
    let ghost s2 = buf@.skip(pos as int);
    let nrg: usize = get_u32(buf, &mut pos)? as usize;
    let ghost s3 = buf@.skip(pos as int);
    let ghost rdr = |s: Seq<u8>| rd_rowgroup(s, ncols as nat);
    let ghost want2 = rd_list(s3, nrg as nat, rdr);
    let mut rowgroups: Vec<RowGroupMeta> = Vec::new();
    let mut g: usize = 0;
    proof {
        if let Some((xs, rest)) = want2 {
            assert(rowgroup_views(rowgroups@) + xs =~= xs);
        }
    }
    while g < nrg
        invariant
            g <= nrg,
            pos <= buf@.len(),
            rdr == (|s: Seq<u8>| rd_rowgroup(s, ncols as nat)),
            rd_u32(buf@) == Some((ncols as u32, s1)),
            ncols <= u32::MAX,
            rd_list(s1, ncols as nat, |s: Seq<u8>| rd_field(s)) == Some((schema_view(schema@), s2)),
            rd_u32(s2) == Some((nrg as u32, s3)),
            nrg <= u32::MAX,
            want2 == rd_list(s3, nrg as nat, rdr),
            continues(
                want2,
                rowgroup_views(rowgroups@),
                rd_list(buf@.skip(pos as int), (nrg - g) as nat, rdr),
            ),
        decreases nrg - g,
    {
        let ghost before = rowgroup_views(rowgroups@);
        proof {
            continues_step(want2, before, buf@.skip(pos as int), (nrg - g) as nat, rdr);
        }
        let rg: RowGroupMeta = get_rowgroup(buf, &mut pos, ncols)?;
        rowgroups.push(rg);
        assert(rowgroup_views(rowgroups@) =~= before.push(rg@));
        g += 1;
    }
    assert(rowgroup_views(rowgroups@) + Seq::<RowGroupView>::empty() =~= rowgroup_views(
        rowgroups@,
    ));
    Some((schema, rowgroups))
}

// ---------------------------------------------------------------------------
// A written footer is read back
// ---------------------------------------------------------------------------

proof fn field_read_back(f: FieldView, rest: Seq<u8>)
    requires
        encode_utf8(f.name).len() <= u32::MAX,
    ensures
        rd_field(wr_field(f) + rest) == Some((f, rest)),
{
    let t = seq![dtype_byte(f.dtype)] + rest;
    assert(wr_field(f) + rest =~= wr_str(f.name) + t);
    str_read_back(f.name, t);
    assert(t.skip(1) =~= rest);
}

proof fn page_read_back(p: PageMeta, rest: Seq<u8>)
    ensures
        rd_page(wr_page(p) + rest) == Some((p, rest)),
{
    let s4 = le_i64(p.max) + rest;
    let s3 = le_i64(p.min) + s4;
    let s2 = le(p.rows as nat, 4) + s3;
    let s1 = le(p.comp_len as nat, 4) + s2;
    assert(wr_page(p) + rest =~= le(p.offset as nat, 8) + s1);
    u64_read_back(p.offset, s1);
    u32_read_back(p.comp_len, s2);
    u32_read_back(p.rows, s3);
    i64_read_back(p.min, s4);
    i64_read_back(p.max, rest);
}

proof fn chunk_stats_read_back(c: ChunkView, rest: Seq<u8>)
    requires
        chunk_fits(c),
    ensures
        rd_chunk_stats(wr_chunk_stats(c) + rest) == Some(
            (
                ChunkView {
                    dict_off: 0,
                    dict_len: 0,
                    dict_count: 0,
                    pages: Seq::empty(),
                    ..c
                },
                rest,
            ),
        ),
{
    let s4 = wr_str(c.max_s) + rest;
    let s3 = wr_str(c.min_s) + s4;
    let s2 = le_i64(c.max_i) + s3;
    let s1 = le_i64(c.min_i) + s2;
    let s0 = seq![dtype_byte(c.dtype)] + s1;
    assert(wr_chunk_stats(c) + rest =~= s0);
    assert(s0.skip(1) =~= s1);
    i64_read_back(c.min_i, s2);
    i64_read_back(c.max_i, s3);
    str_read_back(c.min_s, s4);
    str_read_back(c.max_s, rest);
}

proof fn chunk_dict_read_back(c: ChunkView, stats: ChunkView, rest: Seq<u8>)
    requires
        chunk_fits(c),
    ensures
        rd_chunk_dict(stats, wr_chunk_dict(c) + rest) == Some(
            (
                (
                    ChunkView {
                        dict_off: c.dict_off,
                        dict_len: c.dict_len,
                        dict_count: c.dict_count,
                        ..stats
                    },
                    c.pages.len() as u32,
                ),
                rest,
            ),
        ),
{
    let s3 = le(c.pages.len(), 4) + rest;
    let s2 = le(c.dict_count as nat, 4) + s3;
    let s1 = le(c.dict_len as nat, 4) + s2;
    assert(wr_chunk_dict(c) + rest =~= le(c.dict_off as nat, 8) + s1);
    u64_read_back(c.dict_off, s1);
    u32_read_back(c.dict_len, s2);
    u32_read_back(c.dict_count, s3);
    u32_read_back(c.pages.len() as u32, rest);
}

proof fn chunk_read_back(c: ChunkView, rest: Seq<u8>)
    requires
        chunk_fits(c),
    ensures
        rd_chunk(wr_chunk(c) + rest) == Some((c, rest)),
{
    let ep = |p: PageMeta| wr_page(p);
    let rd = |s: Seq<u8>| rd_page(s);
    let s2 = wr_list(c.pages, ep) + rest;
    let s1 = wr_chunk_dict(c) + s2;
    assert(wr_chunk(c) + rest =~= wr_chunk_stats(c) + s1);
    chunk_stats_read_back(c, s1);
    let stats = ChunkView {
        dict_off: 0,
        dict_len: 0,
        dict_count: 0,
        pages: Seq::empty(),
        ..c
    };
    chunk_dict_read_back(c, stats, s2);
    assert forall|k: int, r: Seq<u8>| 0 <= k < c.pages.len() implies #[trigger] rd(
        ep(c.pages[k]) + r,
    ) == Some((c.pages[k], r)) by {
        page_read_back(c.pages[k], r);
    }
    list_read_back(c.pages, ep, rd, rest);
}

proof fn rowgroup_read_back(g: RowGroupView, rest: Seq<u8>)
    requires
        forall|j: int| 0 <= j < g.chunks.len() ==> chunk_fits(#[trigger] g.chunks[j]),
    ensures
        rd_rowgroup(wr_rowgroup(g) + rest, g.chunks.len()) == Some((g, rest)),
{
    let ec = |c: ChunkView| wr_chunk(c);
    let rd = |s: Seq<u8>| rd_chunk(s);
    let s1 = wr_list(g.chunks, ec) + rest;
    assert(wr_rowgroup(g) + rest =~= le(g.rows as nat, 8) + s1);
    u64_read_back(g.rows as u64, s1);
    assert forall|k: int, r: Seq<u8>| 0 <= k < g.chunks.len() implies #[trigger] rd(
        ec(g.chunks[k]) + r,
    ) == Some((g.chunks[k], r)) by {
        chunk_read_back(g.chunks[k], r);
    }
    list_read_back(g.chunks, ec, rd, rest);
}

/// A footer is read back as it was written, if each row group has one chunk
/// per column.
pub proof fn footer_read_back(schema: Seq<FieldView>, rowgroups: Seq<RowGroupView>)
    requires
        footer_fits(schema, rowgroups),
        forall|i: int|
            0 <= i < rowgroups.len() ==> (#[trigger] rowgroups[i]).chunks.len() == schema.len(),
    ensures
        rd_footer(footer(schema, rowgroups)) == Some((schema, rowgroups)),
{
    let ef = |f: FieldView| wr_field(f);
    let er = |r: RowGroupView| wr_rowgroup(r);
    let rdf = |s: Seq<u8>| rd_field(s);
    let rdr = |s: Seq<u8>| rd_rowgroup(s, schema.len());
    let s3 = wr_list(rowgroups, er);
    let s2 = le(rowgroups.len(), 4) + s3;
    let s1 = wr_list(schema, ef) + s2;
    assert(footer(schema, rowgroups) =~= le(schema.len(), 4) + s1);
    u32_read_back(schema.len() as u32, s1);
    assert forall|k: int, r: Seq<u8>| 0 <= k < schema.len() implies #[trigger] rdf(
        ef(schema[k]) + r,
    ) == Some((schema[k], r)) by {
        field_read_back(schema[k], r);
    }
    list_read_back(schema, ef, rdf, s2);
    u32_read_back(rowgroups.len() as u32, s3);
    assert forall|k: int, r: Seq<u8>| 0 <= k < rowgroups.len() implies #[trigger] rdr(
        er(rowgroups[k]) + r,
    ) == Some((rowgroups[k], r)) by {
        rowgroup_read_back(rowgroups[k], r);
    }
    assert(s3 =~= s3 + Seq::<u8>::empty());
    list_read_back(rowgroups, er, rdr, Seq::empty());
}

} // verus!
