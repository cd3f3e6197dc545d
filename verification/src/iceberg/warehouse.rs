//! Making tables: data files with their bounds, and the files of a first or a
//! further snapshot.
use crate::cluster::ZoneMap;
use crate::doc::json_pretty;
use crate::format::meta::{
    footer, holds, rowgroup_views, schema_view, CmpOp, ColumnData, ColumnView, DataType, FieldView,
    LitView,
};
use crate::format::roundtrip::{body, file_grows, file_image, group_metas};
use crate::format::writer::{
    column_fits, column_views, columns_match, file_head, max_of, min_max_bound, min_of, Writer,
};
use crate::iceberg::json::rendered;
use crate::iceberg::manifest::{
    entries, files_small, joinable, list_bytes, list_of, list_small, listed_views, manifest_bytes,
    one_manifest_is_planned, plans, rows_of, write_manifest, write_manifest_list, ListedView,
};
use crate::iceberg::metadata::{metadata_doc, write_metadata, EPOCH_MS};
use crate::iceberg::table::{
    append_snapshot, appended, bound_of, bound_views, field_views, file_views, file_views_push,
    long_of, long_read_back, metadata_path_of, pruned_file_has_no_match, prunes, ser_long,
    snapshot_views, BoundView, DataFile, Field, FieldSpec, FileView, TableMeta, TableView,
};
use crate::text::{dec, dec_int, join2, join_path, path_join, push_dec, push_dec_int, strs};
use crate::wire::{copy_range, le_i64, put_bytes};
use vstd::prelude::*;
use vstd::utf8::encode_utf8;

verus! {

// ---------------------------------------------------------------------------
// Data files
// ---------------------------------------------------------------------------

/// Some rows of a column.
pub open spec fn cut(c: ColumnView, from: int, to: int) -> ColumnView {
    match c {
        ColumnView::Int64(v) => ColumnView::Int64(v.subrange(from, to)),
        ColumnView::Utf8(v) => ColumnView::Utf8(v.subrange(from, to)),
    }
}

pub open spec fn cut_all(cols: Seq<ColumnView>, from: int, to: int) -> Seq<ColumnView> {
    Seq::new(cols.len(), |i: int| cut(cols[i], from, to))
}

/// The row groups of some columns of `n` rows from a row on, each of `step`
/// rows but the last.
pub open spec fn groups_from(cols: Seq<ColumnView>, n: int, start: int, step: int) -> Seq<
    Seq<ColumnView>,
>
    decreases n - start,
{
    if start < 0 || start >= n || step <= 0 {
        Seq::empty()
    } else {
        let end = if n - start <= step {
            n
        } else {
            start + step
        };
        seq![cut_all(cols, start, end)] + groups_from(cols, n, end, step)
    }
}

/// The row groups of a data file.
pub open spec fn groups_of(cols: Seq<ColumnView>, step: int) -> Seq<Seq<ColumnView>> {
    groups_from(cols, cols[0].len() as int, 0, step)
}

/// The least of some values, or zero.
pub open spec fn least(v: Seq<i64>) -> i64 {
    if v.len() == 0 {
        0
    } else {
        min_of(v)
    }
}

/// The greatest of some values, or zero.
pub open spec fn greatest(v: Seq<i64>) -> i64 {
    if v.len() == 0 {
        0
    } else {
        max_of(v)
    }
}

/// The bounds of the first `k` columns, for those of integers.
pub open spec fn column_bounds(cols: Seq<ColumnView>, ids: Seq<i32>, k: int) -> Seq<BoundView>
    decreases k,
{
    if k <= 0 {
        Seq::empty()
    } else {
        match cols[k - 1] {
            ColumnView::Int64(v) => column_bounds(cols, ids, k - 1).push(
                BoundView {
                    id: ids[k - 1],
                    lower: le_i64(least(v)),
                    upper: le_i64(greatest(v)),
                },
            ),
            ColumnView::Utf8(_) => column_bounds(cols, ids, k - 1),
        }
    }
}

/// The bounds of some integers, in binary.
pub fn i64_bounds(vals: &[i64]) -> (r: (Vec<u8>, Vec<u8>))
    ensures
        r.0@ == le_i64(least(vals@)),
        r.1@ == le_i64(greatest(vals@)),
{
    if vals.len() == 0 {
        return (ser_long(0), ser_long(0));
    }
    let z: ZoneMap = ZoneMap::build(vals);
    (ser_long(z.min), ser_long(z.max))
}

fn cut_column(c: &ColumnData, from: usize, to: usize) -> (r: ColumnData)
    requires
        from <= to <= c@.len(),
    ensures
        r@ == cut(c@, from as int, to as int),
{
    match c {
        ColumnData::Int64(v) => {
            let mut out: Vec<i64> = Vec::new();
            let mut i: usize = from;
            while i < to
                invariant
                    from <= i <= to <= v@.len(),
                    out@ == v@.subrange(from as int, i as int),
                decreases to - i,
            {
                out.push(v[i]);
                i += 1;
                assert(out@ =~= v@.subrange(from as int, i as int));
            }
            ColumnData::Int64(out)
        },
        ColumnData::Utf8(v) => {
            let mut out: Vec<String> = Vec::new();
            let mut i: usize = from;
            while i < to
                invariant
                    from <= i <= to <= v@.len(),
                    out@.len() == i - from,
                    forall|k: int| 0 <= k < out@.len() ==> (#[trigger] out@[k])@ == v@[from + k]@,
                decreases to - i,
            {
                out.push(v[i].clone());
                i += 1;
            }
            assert(strs(out@) =~= strs(v@).subrange(from as int, to as int));
            ColumnData::Utf8(out)
        },
    }
}

proof fn body_prefix(groups: Seq<Seq<ColumnView>>, k: int)
    requires
        0 <= k <= groups.len(),
    ensures
        body(groups.take(k)).len() <= body(groups).len(),
    decreases groups.len(),
{
    if k < groups.len() {
        let d = groups.drop_last();
        body_prefix(d, k);
        assert(d.take(k) =~= groups.take(k));
    } else {
        assert(groups.take(k) =~= groups);
    }
}

/// Whether a data file of some columns can be written: they match its schema,
/// none is shorter than the first, and its parts fit the fields that describe them.
pub open spec fn storable(schema: Seq<FieldView>, cols: Seq<ColumnView>, step: int) -> bool {
    let groups = groups_of(cols, step);
    &&& cols.len() > 0
    &&& step > 0
    &&& columns_match(cols, schema)
    &&& forall|i: int| 0 <= i < cols.len() ==> (#[trigger] cols[i]).len() >= cols[0].len()
    &&& forall|g: int, i: int|
        0 <= g < groups.len() && 0 <= i < cols.len() ==> column_fits(#[trigger] groups[g][i])
    &&& footer(schema, group_metas(groups)).len() <= u32::MAX
    &&& file_image(schema, groups).len() <= i64::MAX
    &&& cols[0].len() <= i64::MAX
}

proof fn group_shape(cols: Seq<ColumnView>, schema: Seq<FieldView>, from: int, to: int)
    requires
        columns_match(cols, schema),
    ensures
        columns_match(cut_all(cols, from, to), schema),
{
    let c = cut_all(cols, from, to);
    assert forall|i: int| 0 <= i < c.len() implies (#[trigger] c[i]).dtype() == (
    #[trigger] schema[i]).dtype by {
        assert(cols[i].dtype() == schema[i].dtype);
    }
}

/// Writes a data file in row groups of so many rows; returns its bytes and its
/// entry, which has the bounds of its integer columns.
pub fn write_data_file(
    path: &str,
    schema: Vec<(String, DataType)>,
    field_ids: &Vec<i32>,
    cols: &Vec<ColumnData>,
    rowgroup_rows: usize,
) -> (r: (Vec<u8>, DataFile))
    requires
        storable(schema_view(schema@), column_views(cols@), rowgroup_rows as int),
        field_ids@.len() >= cols@.len(),
    ensures
        r.0@ == file_image(
            schema_view(schema@),
            groups_of(column_views(cols@), rowgroup_rows as int),
        ),
        r.1@ == (FileView {
            path: path@,
            file_size: r.0@.len() as i64,
            record_count: column_views(cols@)[0].len() as i64,
            bounds: column_bounds(column_views(cols@), field_ids@, cols@.len() as int),
        }),
{
    let ghost sv = schema_view(schema@);
    let ghost cv = column_views(cols@);
    let ghost step = rowgroup_rows as int;
    let ghost all = groups_of(cv, step);
    assert(cv[0] == cols@[0]@);
    let n: usize = cols[0].len();
    let (mut w, mut bytes) = Writer::create(schema);
    let ghost mut done: Seq<Seq<ColumnView>> = Seq::empty();
    let mut start: usize = 0;
    proof {
        assert(done + all =~= all);
        assert(bytes@ =~= file_head() + body(done));
        assert(rowgroup_views(w.rowgroups@) =~= group_metas(done));
        crate::wire::le_len(1, 4);
    }
    while start < n
        invariant
            start <= n,
            n == cv[0].len(),
            step == rowgroup_rows > 0,
            cv == column_views(cols@),
            sv == schema_view(w.schema@),
            w.schema == schema,
            storable(sv, cv, step),
            all == groups_of(cv, step),
            done + groups_from(cv, n as int, start as int, step) == all,
            file_head().len() == 8,
            w.pos == 8 + body(done).len(),
            bytes@ == file_head() + body(done),
            rowgroup_views(w.rowgroups@) == group_metas(done),
        decreases n - start,
    {
        let end: usize = if n - start <= rowgroup_rows { n } else { start + rowgroup_rows };
        let mut rg: Vec<ColumnData> = Vec::new();
        let mut i: usize = 0;
        while i < cols.len()
            invariant
                i <= cols@.len(),
                start <= end <= n,
                cv == column_views(cols@),
                forall|k: int| 0 <= k < cv.len() ==> (#[trigger] cv[k]).len() >= n,
                rg@.len() == i,
                forall|k: int|
                    0 <= k < i ==> (#[trigger] rg@[k])@ == cut(cv[k], start as int, end as int),
            decreases cols@.len() - i,
        {
            assert(cv[i as int] == cols@[i as int]@);
            rg.push(cut_column(&cols[i], start, end));
            i += 1;
        }
        let ghost g = cut_all(cv, start as int, end as int);
        let ghost at = done.len() as int;
        let ghost tail = groups_from(cv, n as int, end as int, step);
        proof {
            assert(column_views(rg@) =~= g);
            group_shape(cv, sv, start as int, end as int);
            assert(groups_from(cv, n as int, start as int, step) == seq![g] + tail);
            assert(all[at] == g);
            assert forall|k: int| 0 <= k < rg@.len() implies column_fits((#[trigger] rg@[k])@) by {
                assert(rg@[k]@ == g[k]);
                assert(column_fits(all[at][k]));
            }
            file_grows(done, g);
            body_prefix(all, at + 1);
            assert(all.take(at + 1) =~= done.push(g));
        }
        let part: Vec<u8> = w.write_rowgroup(rg.as_slice());
        put_bytes(&mut bytes, part.as_slice());
        proof {
            assert(file_head() + body(done) + part@ =~= file_head() + body(done.push(g)));
            assert(done.push(g) + tail =~= done + (seq![g] + tail));
            done = done.push(g);
        }
        start = end;
    }
    proof {
        assert(done + Seq::<Seq<ColumnView>>::empty() =~= done);
        assert(done == all);
    }
    let (tail, meta) = w.finish();
    put_bytes(&mut bytes, tail.as_slice());
    let mut bounds: Vec<(i32, Vec<u8>, Vec<u8>)> = Vec::new();
    let mut k: usize = 0;
    assert(bound_views(bounds@) =~= Seq::empty());
    while k < cols.len()
        invariant
            k <= cols@.len(),
            cv == column_views(cols@),
            field_ids@.len() >= cols@.len(),
            bound_views(bounds@) == column_bounds(cv, field_ids@, k as int),
        decreases cols@.len() - k,
    {
        assert(cv[k as int] == cols@[k as int]@);
        if let ColumnData::Int64(v) = &cols[k] {
            let (lo, hi) = i64_bounds(v.as_slice());
            let ghost before = bounds@;
            let b: (i32, Vec<u8>, Vec<u8>) = (field_ids[k], lo, hi);
            bounds.push(b);
            assert(bound_views(bounds@) =~= bound_views(before).push(
                BoundView { id: b.0, lower: lo@, upper: hi@ },
            ));
        }
        k += 1;
    }
    let file: DataFile = DataFile {
        path: path.to_owned(),
        file_size: meta.file_size as i64,
        record_count: n as i64,
        bounds,
    };
    (bytes, file)
}

/// A bound behind others is found where none of them is on its field.
pub proof fn bound_pushed(b: Seq<BoundView>, x: BoundView, id: i32)
    ensures
        bound_of(b.push(x), id) == (match bound_of(b, id) {
            Some(y) => Some(y),
            None => if x.id == id {
                Some(x)
            } else {
                None
            },
        }),
    decreases b.len(),
{
    let c = b.push(x);
    if b.len() > 0 {
        assert(c.skip(1) =~= b.skip(1).push(x));
        bound_pushed(b.skip(1), x, id);
    } else {
        assert(c.skip(1) =~= Seq::empty());
        assert(bound_of(c.skip(1), id) is None);
    }
}

/// A field that no column has is not bounded.
pub proof fn no_bound(cols: Seq<ColumnView>, ids: Seq<i32>, k: int, id: i32)
    requires
        0 <= k <= cols.len(),
        forall|j: int| 0 <= j < k ==> #[trigger] ids[j] != id,
    ensures
        bound_of(column_bounds(cols, ids, k), id) is None,
    decreases k,
{
    if k > 0 {
        no_bound(cols, ids, k - 1, id);
        assert(ids[k - 1] != id);
        if let ColumnView::Int64(v) = cols[k - 1] {
            let x = BoundView {
                id: ids[k - 1],
                lower: le_i64(least(v)),
                upper: le_i64(greatest(v)),
            };
            bound_pushed(column_bounds(cols, ids, k - 1), x, id);
        }
    }
}

/// Every value of an integer column lies between the bounds of its field.
pub proof fn bounds_hold_values(cols: Seq<ColumnView>, ids: Seq<i32>, k: int, i: int, r: int)
    requires
        0 <= i < k <= cols.len(),
        forall|j: int| 0 <= j < k && j != i ==> #[trigger] ids[j] != ids[i],
        cols[i] matches ColumnView::Int64(v) && 0 <= r < v.len(),
    ensures
        bound_of(column_bounds(cols, ids, k), ids[i]) matches Some(b) && long_of(b.lower)
            <= cols[i]->Int64_0[r] <= long_of(b.upper),
    decreases k,
{
    if i == k - 1 {
        no_bound(cols, ids, k - 1, ids[i]);
        let v = cols[i]->Int64_0;
        let x = BoundView { id: ids[i], lower: le_i64(least(v)), upper: le_i64(greatest(v)) };
        bound_pushed(column_bounds(cols, ids, k - 1), x, ids[i]);
        long_read_back(least(v));
        long_read_back(greatest(v));
        min_max_bound(v);
    } else {
        bounds_hold_values(cols, ids, k - 1, i, r);
        if let ColumnView::Int64(v) = cols[k - 1] {
            let x = BoundView {
                id: ids[k - 1],
                lower: le_i64(least(v)),
                upper: le_i64(greatest(v)),
            };
            bound_pushed(column_bounds(cols, ids, k - 1), x, ids[i]);
        }
    }
}

/// A file that its own columns' bounds rule out holds no row that satisfies
/// the predicate.
pub proof fn ruled_out_file_has_no_match(
    f: FileView,
    cols: Seq<ColumnView>,
    ids: Seq<i32>,
    i: int,
    r: int,
    op: CmpOp,
    l: i64,
)
    requires
        f.bounds == column_bounds(cols, ids, cols.len() as int),
        0 <= i < cols.len(),
        forall|j: int| 0 <= j < cols.len() && j != i ==> #[trigger] ids[j] != ids[i],
        cols[i] matches ColumnView::Int64(v) && 0 <= r < v.len(),
        prunes(f, ids[i], DataType::Int64, op, LitView::Int(l)),
    ensures
        !holds(op, cols[i]->Int64_0[r], l),
{
    bounds_hold_values(cols, ids, cols.len() as int, i, r);
    pruned_file_has_no_match(f, ids[i], op, l, cols[i]->Int64_0[r]);
}

// ---------------------------------------------------------------------------
// Tables
// ---------------------------------------------------------------------------

/// The rows of the first `k` files.
pub open spec fn rows_total(files: Seq<FileView>, k: int) -> int
    decreases k,
{
    if k <= 0 {
        0
    } else {
        rows_total(files, k - 1) + files[k - 1].record_count
    }
}

/// Whether the rows of some files can be counted.
pub open spec fn countable(files: Seq<FileView>) -> bool {
    forall|k: int|
        0 <= k <= files.len() ==> i64::MIN <= #[trigger] rows_total(files, k) <= i64::MAX
}

fn count_rows(files: &Vec<DataFile>) -> (n: i64)
    requires
        countable(file_views(files@)),
    ensures
        n == rows_total(file_views(files@), files@.len() as int),
{
    let ghost fv = file_views(files@);
    let mut n: i64 = 0;
    let mut k: usize = 0;
    while k < files.len()
        invariant
            k <= files@.len(),
            fv == file_views(files@),
            countable(fv),
            n == rows_total(fv, k as int),
        decreases files@.len() - k,
    {
        assert(rows_total(fv, k + 1) == rows_total(fv, k as int) + fv[k as int].record_count);
        n = n + files[k].record_count;
        k += 1;
    }
    n
}

/// A file of a table that is to be written.
pub struct Written {
    pub path: String,
    pub bytes: Vec<u8>,
}

#[verifier::ext_equal]
pub struct WrittenView {
    pub path: Seq<char>,
    pub bytes: Seq<u8>,
}

impl View for Written {
    type V = WrittenView;

    open spec fn view(&self) -> WrittenView {
        WrittenView { path: self.path@, bytes: self.bytes@ }
    }
}

pub open spec fn written_views(v: Seq<Written>) -> Seq<WrittenView> {
    Seq::new(v.len(), |i: int| v[i]@)
}

fn push_written(out: &mut Vec<Written>, path: String, bytes: Vec<u8>)
    ensures
        written_views(final(out)@) == written_views(old(out)@).push(
            WrittenView { path: path@, bytes: bytes@ },
        ),
{
    out.push(Written { path, bytes });
    assert(written_views(out@) =~= written_views(old(out)@).push(
        WrittenView { path: path@, bytes: bytes@ },
    ));
}

/// The bytes of a text.
pub(crate) fn text_bytes(s: &str) -> (r: Vec<u8>)
    ensures
        r@ == encode_utf8(s@),
{
    let b: &[u8] = s.as_bytes();
    let r: Vec<u8> = copy_range(b, 0, b.len());
    assert(r@ =~= b@);
    r
}

/// The snapshot of a table's first files.
pub const FIRST_SNAPSHOT: i64 = 1001;

pub open spec fn metadata_file(location: Seq<char>, name: Seq<char>) -> Seq<char> {
    path_join(path_join(location, "metadata"@), name)
}

fn metadata_file_path(location: &str, name: &str) -> (r: String)
    ensures
        r@ == metadata_file(location@, name@),
{
    let dir: String = join_path(location, "metadata");
    join_path(dir.as_str(), name)
}

/// A table of a name without any snapshot.
pub open spec fn empty_table(wh: Seq<char>, name: Seq<char>, fields: Seq<FieldSpec>) -> TableView {
    TableView {
        uuid: "blitz-"@ + name,
        location: path_join(wh, name),
        fields,
        current_snapshot: None,
        snapshots: Seq::empty(),
        last_sequence_number: 0,
    }
}

/// A table with its first snapshot.
pub open spec fn first_table(wh: Seq<char>, name: Seq<char>, fields: Seq<FieldSpec>) -> TableView {
    appended(
        empty_table(wh, name, fields),
        FIRST_SNAPSHOT,
        metadata_file(path_join(wh, name), "snap-1001-manifest-list.avro"@),
    )
}

/// The text of a table's metadata, if it can be printed.
#[verifier::opaque]
pub open spec fn meta_bytes(t: TableView) -> Option<Seq<u8>> {
    match json_pretty(rendered(metadata_doc(t))) {
        Some(text) => Some(encode_utf8(text)),
        None => None,
    }
}

/// The files that make a table: its empty metadata, the manifest of its files,
/// the list of that manifest, and its metadata with the snapshot.
pub open spec fn table_files(
    wh: Seq<char>,
    name: Seq<char>,
    fields: Seq<FieldSpec>,
    files: Seq<FileView>,
) -> Option<Seq<WrittenView>> {
    let loc = path_join(wh, name);
    match (
        meta_bytes(empty_table(wh, name, fields)),
        meta_bytes(first_table(wh, name, fields)),
    ) {
        (Some(v1), Some(v2)) => Some(
            seq![WrittenView { path: metadata_path_of(loc, 1), bytes: v1 }] + snapshot_files(
                metadata_file(loc, "manifest-1.avro"@),
                metadata_file(loc, "snap-1001-manifest-list.avro"@),
                files,
                FIRST_SNAPSHOT,
                1,
            ) + seq![WrittenView { path: metadata_path_of(loc, 2), bytes: v2 }],
        ),
        _ => None,
    }
}

/// The text of a table's metadata, and where that version of it goes.
fn metadata_written(meta: &TableMeta, version: u32) -> (r: (String, Vec<u8>))
    requires
        meta.snapshots@.len() < i64::MAX - EPOCH_MS,
    ensures
        r.0@ == metadata_path_of(meta@.location, version),
        meta_bytes(meta@) == Some(r.1@),
{
    reveal(meta_bytes);
    let (path, text) = write_metadata(meta, version);
    (path, text_bytes(text.as_str()))
}

/// The manifest of some files and the list of that manifest.
pub open spec fn snapshot_files(
    manifest: Seq<char>,
    list: Seq<char>,
    files: Seq<FileView>,
    snapshot_id: i64,
    seq: i64,
) -> Seq<WrittenView> {
    let m = manifest_bytes(files, snapshot_id);
    seq![
        WrittenView { path: manifest, bytes: m },
        WrittenView {
            path: list,
            bytes: list_bytes(
                seq![
                    ListedView {
                        path: manifest,
                        length: m.len() as i64,
                        rows: rows_total(files, files.len() as int) as i64,
                    },
                ],
                snapshot_id,
                seq,
            ),
        },
    ]
}

/// Whether the lengths in a manifest and its list can be said, and the bounds
/// of its files are told apart by their field.
pub open spec fn recorded(
    manifest: Seq<char>,
    files: Seq<FileView>,
    written: Seq<WrittenView>,
) -> bool {
    &&& files_small(files)
    &&& forall|i: int| 0 <= i < files.len() ==> joinable((#[trigger] files[i]).bounds)
    &&& encode_utf8(manifest).len() <= i64::MAX
    &&& forall|i: int| 0 <= i < written.len() ==> (#[trigger] written[i]).bytes.len() <= i64::MAX
}

/// Whether a disk holds some files.
pub open spec fn on_disk(disk: spec_fn(Seq<char>) -> Seq<u8>, written: Seq<WrittenView>) -> bool {
    forall|i: int|
        0 <= i < written.len() ==> disk((#[trigger] written[i]).path) == written[i].bytes
}

/// Whether a table with this snapshot, on a disk with its files, is planned to
/// the files that the snapshot adds.
pub open spec fn findable(
    written: Seq<WrittenView>,
    list: Seq<char>,
    files: Seq<FileView>,
    snapshot_id: i64,
) -> bool {
    forall|t: TableView, disk: spec_fn(Seq<char>) -> Seq<u8>|
        on_disk(disk, written) && t.current_snapshot == Some(snapshot_id) && list_of(
            t.snapshots,
            snapshot_id,
        ) == Some(list) ==> #[trigger] plans(t, disk, files)
}

/// Appends the manifest of some files and the list of that manifest. What was
/// appended is what a plan of the snapshot finds.
fn push_snapshot(
    out: &mut Vec<Written>,
    manifest: String,
    list: String,
    files: &Vec<DataFile>,
    snapshot_id: i64,
    seq: i64,
)
    requires
        countable(file_views(files@)),
    ensures
        written_views(final(out)@) == written_views(old(out)@) + snapshot_files(
            manifest@,
            list@,
            file_views(files@),
            snapshot_id,
            seq,
        ),
        ({
            let w = snapshot_files(manifest@, list@, file_views(files@), snapshot_id, seq);
            recorded(manifest@, file_views(files@), w) ==> findable(
                w,
                list@,
                file_views(files@),
                snapshot_id,
            )
        }),
{
    let ghost before = written_views(out@);
    let bytes: Vec<u8> = write_manifest(snapshot_id, files);
    let rows: i64 = count_rows(files);
    let mut listed: Vec<(String, i64, i64)> = Vec::new();
    let len: i64 = #[verifier::truncate] (bytes.len() as i64);
    listed.push((manifest.clone(), len, rows));
    let ghost lv = seq![ListedView { path: manifest@, length: len, rows }];
    assert(listed_views(listed@) =~= lv);
    let lb: Vec<u8> = write_manifest_list(snapshot_id, seq, &listed);
    proof {
        let fv = file_views(files@);
        let w = snapshot_files(manifest@, list@, fv, snapshot_id, seq);
        assert(fv.len() == files@.len());
        assert(w[0].bytes == bytes@);
        assert(w[1].bytes == lb@);
        if recorded(manifest@, fv, w) {
            assert(list_small(lv));
            assert(w[0].bytes.len() <= i64::MAX && w[1].bytes.len() <= i64::MAX);
            assert forall|t: TableView, disk: spec_fn(Seq<char>) -> Seq<u8>|
                on_disk(disk, w) && t.current_snapshot == Some(snapshot_id) && list_of(
                    t.snapshots,
                    snapshot_id,
                ) == Some(list@) implies #[trigger] plans(t, disk, fv) by {
                assert(disk(w[0].path) == bytes@ && disk(w[1].path) == lb@);
                assert(rows_of(disk(manifest@)) == Some(entries(fv, snapshot_id)));
                one_manifest_is_planned(t, list@, lv[0], snapshot_id, seq, fv, disk);
            }
        }
    }
    push_written(out, manifest, bytes);
    push_written(out, list, lb);
    proof {
        let fv = file_views(files@);
        assert(fv.len() == files@.len());
        assert(written_views(out@) =~= before + snapshot_files(
            manifest@,
            list@,
            fv,
            snapshot_id,
            seq,
        ));
    }
}

/// Makes a table of some data files: the files to write, in order, of which
/// the last is the one the catalog points to. Once they are on a disk, the
/// table is planned to those data files.
pub fn create_table(wh: &str, name: &str, fields: Vec<Field>, files: &Vec<DataFile>) -> (r: (
    Vec<Written>,
    TableMeta,
))
    requires
        countable(file_views(files@)),
    ensures
        table_files(wh@, name@, field_views(fields@), file_views(files@)) == Some(
            written_views(r.0@),
        ),
        r.1@ == first_table(wh@, name@, field_views(fields@)),
        recorded(
            metadata_file(path_join(wh@, name@), "manifest-1.avro"@),
            file_views(files@),
            written_views(r.0@),
        ) ==> forall|disk: spec_fn(Seq<char>) -> Seq<u8>|
            on_disk(disk, written_views(r.0@)) ==> #[trigger] plans(
                r.1@,
                disk,
                file_views(files@),
            ),
{
    let ghost fv = field_views(fields@);
    let loc: String = join_path(wh, name);
    let mut meta: TableMeta = TableMeta {
        uuid: join2("blitz-", name),
        location: loc,
        fields,
        current_snapshot: None,
        snapshots: Vec::new(),
        last_sequence_number: 0,
    };
    assert(snapshot_views(meta.snapshots@) =~= Seq::empty());
    assert(meta@ =~= empty_table(wh@, name@, fv));
    let mut out: Vec<Written> = Vec::new();
    assert(written_views(out@) =~= Seq::empty());
    let (p1, b1) = metadata_written(&meta, 1);
    push_written(&mut out, p1, b1);
    let manifest: String = metadata_file_path(meta.location.as_str(), "manifest-1.avro");
    let list: String = metadata_file_path(
        meta.location.as_str(),
        "snap-1001-manifest-list.avro",
    );
    append_snapshot(&mut meta, FIRST_SNAPSHOT, list.as_str());
    assert(snapshot_views(meta.snapshots@).len() == meta.snapshots@.len());
    push_snapshot(&mut out, manifest, list, files, FIRST_SNAPSHOT, 1);
    let (p2, b2) = metadata_written(&meta, 2);
    push_written(&mut out, p2, b2);
    proof {
        let want = table_files(wh@, name@, fv, file_views(files@));
        assert(want is Some);
        assert(written_views(out@) =~= want->Some_0);
        let all = written_views(out@);
        let loc = path_join(wh@, name@);
        let mp = metadata_file(loc, "manifest-1.avro"@);
        let lp = metadata_file(loc, "snap-1001-manifest-list.avro"@);
        let files = file_views(files@);
        let w = snapshot_files(mp, lp, files, FIRST_SNAPSHOT, 1);
        assert(w[0] == all[1] && w[1] == all[2]);
        if recorded(mp, files, all) {
            assert(recorded(mp, files, w));
            assert(list_of(meta@.snapshots, FIRST_SNAPSHOT) == Some(lp)) by {
                assert(meta@.snapshots[0].id == FIRST_SNAPSHOT);
            }
            assert forall|disk: spec_fn(Seq<char>) -> Seq<u8>| on_disk(
                disk,
                all,
            ) implies #[trigger] plans(meta@, disk, files) by {
                assert(disk(all[1].path) == all[1].bytes && disk(all[2].path) == all[2].bytes);
                assert(on_disk(disk, w));
            }
        }
    }
    (out, meta)
}

// ---------------------------------------------------------------------------
// Epochs into a table
// ---------------------------------------------------------------------------

/// The keys and values that a unit of work gives, with its partition.
#[verifier::ext_equal]
pub struct BatchView {
    pub partition: u32,
    pub keys: Seq<i64>,
    pub values: Seq<i64>,
}

pub open spec fn batch_views(v: Seq<(u32, Vec<i64>, Vec<i64>)>) -> Seq<BatchView> {
    Seq::new(v.len(), |i: int| BatchView { partition: v[i].0, keys: v[i].1@, values: v[i].2@ })
}

pub open spec fn sink_schema() -> Seq<FieldView> {
    seq![
        FieldView { name: "key"@, dtype: DataType::Int64 },
        FieldView { name: "value"@, dtype: DataType::Int64 },
    ]
}

pub open spec fn sink_columns(b: BatchView) -> Seq<ColumnView> {
    seq![ColumnView::Int64(b.keys), ColumnView::Int64(b.values)]
}

pub open spec fn sink_path(wh: Seq<char>, epoch_id: u64, partition: u32) -> Seq<char> {
    path_join(
        path_join(wh, "data"@),
        "epoch"@ + dec(epoch_id as nat) + "_p"@ + dec(partition as nat) + ".blitz"@,
    )
}

pub open spec fn sink_bytes(b: BatchView) -> Seq<u8> {
    file_image(sink_schema(), groups_of(sink_columns(b), b.keys.len() as int))
}

pub open spec fn sink_file(wh: Seq<char>, epoch_id: u64, b: BatchView) -> FileView {
    FileView {
        path: sink_path(wh, epoch_id, b.partition),
        file_size: sink_bytes(b).len() as i64,
        record_count: b.keys.len() as i64,
        bounds: column_bounds(sink_columns(b), seq![1i32, 2i32], 2),
    }
}

/// The data files of the first `k` batches that hold anything.
pub open spec fn sink_files(wh: Seq<char>, epoch_id: u64, b: Seq<BatchView>, k: int) -> Seq<FileView>
    decreases k,
{
    if k <= 0 {
        Seq::empty()
    } else if b[k - 1].keys.len() == 0 {
        sink_files(wh, epoch_id, b, k - 1)
    } else {
        sink_files(wh, epoch_id, b, k - 1).push(sink_file(wh, epoch_id, b[k - 1]))
    }
}

/// The bytes of those files.
pub open spec fn sink_writes(wh: Seq<char>, epoch_id: u64, b: Seq<BatchView>, k: int) -> Seq<
    WrittenView,
>
    decreases k,
{
    if k <= 0 {
        Seq::empty()
    } else if b[k - 1].keys.len() == 0 {
        sink_writes(wh, epoch_id, b, k - 1)
    } else {
        sink_writes(wh, epoch_id, b, k - 1).push(
            WrittenView {
                path: sink_path(wh, epoch_id, b[k - 1].partition),
                bytes: sink_bytes(b[k - 1]),
            },
        )
    }
}

/// The file of a snapshot's metadata.
pub open spec fn snap_path(wh: Seq<char>, snap: int, suffix: Seq<char>) -> Seq<char> {
    metadata_file(wh, "snap-"@ + dec_int(snap) + suffix)
}

/// Whether a batch can be written.
pub open spec fn sinkable(b: BatchView) -> bool {
    b.keys.len() > 0 ==> storable(sink_schema(), sink_columns(b), b.keys.len() as int)
}

fn sink_file_path(wh: &str, epoch_id: u64, partition: u32) -> (r: String)
    ensures
        r@ == sink_path(wh@, epoch_id, partition),
{
    let dir: String = join_path(wh, "data");
    let mut name: String = "epoch".to_owned();
    push_dec(&mut name, epoch_id);
    name.append("_p");
    push_dec(&mut name, partition as u64);
    name.append(".blitz");
    join_path(dir.as_str(), name.as_str())
}

fn snap_file_path(wh: &str, snap: i64, suffix: &str) -> (r: String)
    ensures
        r@ == snap_path(wh@, snap as int, suffix@),
{
    let mut name: String = "snap-".to_owned();
    push_dec_int(&mut name, snap);
    name.append(suffix);
    metadata_file_path(wh, name.as_str())
}

fn copy_longs(v: &Vec<i64>) -> (r: Vec<i64>)
    ensures
        r@ == v@,
{
    let mut r: Vec<i64> = Vec::new();
    let mut k: usize = 0;
    while k < v.len()
        invariant
            k <= v@.len(),
            r@ == v@.take(k as int),
        decreases v@.len() - k,
    {
        r.push(v[k]);
        k += 1;
        assert(r@ =~= v@.take(k as int));
    }
    assert(r@ =~= v@);
    r
}

fn write_batch(wh: &str, epoch_id: u64, b: &(u32, Vec<i64>, Vec<i64>)) -> (r: (Vec<u8>, DataFile))
    requires
        b.1@.len() > 0,
        sinkable(BatchView { partition: b.0, keys: b.1@, values: b.2@ }),
    ensures
        r.0@ == sink_bytes(BatchView { partition: b.0, keys: b.1@, values: b.2@ }),
        r.1@ == sink_file(
            wh@,
            epoch_id,
            BatchView { partition: b.0, keys: b.1@, values: b.2@ },
        ),
{
    let ghost v = BatchView { partition: b.0, keys: b.1@, values: b.2@ };
    let path: String = sink_file_path(wh, epoch_id, b.0);
    let mut schema: Vec<(String, DataType)> = Vec::new();
    schema.push(("key".to_owned(), DataType::Int64));
    schema.push(("value".to_owned(), DataType::Int64));
    assert(schema_view(schema@) =~= sink_schema());
    let mut cols: Vec<ColumnData> = Vec::new();
    cols.push(ColumnData::Int64(copy_longs(&b.1)));
    cols.push(ColumnData::Int64(copy_longs(&b.2)));
    assert(column_views(cols@) =~= sink_columns(v));
    let mut ids: Vec<i32> = Vec::new();
    ids.push(1);
    ids.push(2);
    assert(ids@ =~= seq![1i32, 2i32]);
    write_data_file(path.as_str(), schema, &ids, &cols, b.1.len())
}

/// Writes what an epoch gave into a table: a data file for each batch that
/// holds anything, and a snapshot that adds them. Returns the files to write,
/// in order. Where no batch holds anything, nothing changes.
pub fn append_epoch_sink(
    warehouse: &str,
    meta: &mut TableMeta,
    version: &mut u32,
    epoch_id: u64,
    batches: &Vec<(u32, Vec<i64>, Vec<i64>)>,
) -> (r: Vec<Written>)
    requires
        epoch_id <= i64::MAX - 1000,
        *old(version) < u32::MAX,
        old(meta).last_sequence_number < i64::MAX,
        old(meta).snapshots@.len() < i64::MAX - EPOCH_MS - 1,
        forall|i: int| 0 <= i < batches@.len() ==> sinkable(#[trigger] batch_views(batches@)[i]),
        countable(
            sink_files(warehouse@, epoch_id, batch_views(batches@), batches@.len() as int),
        ),
    ensures
        ({
            let b = batch_views(batches@);
            let files = sink_files(warehouse@, epoch_id, b, b.len() as int);
            let snap = 1000 + epoch_id;
            let list = snap_path(warehouse@, snap, "-ml.avro"@);
            let t = appended(old(meta)@, snap as i64, list);
            if files.len() == 0 {
                r@.len() == 0 && final(meta)@ == old(meta)@ && *final(version)
                    == *old(version)
            } else {
                &&& final(meta)@ == t
                &&& *final(version) == *old(version) + 1
                &&& meta_bytes(t) matches Some(m) && written_views(r@) == sink_writes(
                    warehouse@,
                    epoch_id,
                    b,
                    b.len() as int,
                ) + snapshot_files(
                    snap_path(warehouse@, snap, "-m0.avro"@),
                    list,
                    files,
                    snap as i64,
                    (*old(version) + 1) as i64,
                ) + seq![
                    WrittenView { path: metadata_path_of(t.location, *final(version)), bytes: m },
                ]
                &&& recorded(
                    snap_path(warehouse@, snap, "-m0.avro"@),
                    files,
                    snapshot_files(
                        snap_path(warehouse@, snap, "-m0.avro"@),
                        list,
                        files,
                        snap as i64,
                        (*old(version) + 1) as i64,
                    ),
                ) && list_of(t.snapshots, snap as i64) == Some(list) ==> forall|
                    disk: spec_fn(Seq<char>) -> Seq<u8>,
                |
                    on_disk(disk, written_views(r@)) ==> #[trigger] plans(t, disk, files)
            }
        }),
{
    let ghost b = batch_views(batches@);
    let mut out: Vec<Written> = Vec::new();
    let mut files: Vec<DataFile> = Vec::new();
    let mut k: usize = 0;
    assert(written_views(out@) =~= Seq::empty());
    assert(file_views(files@) =~= Seq::empty());
    while k < batches.len()
        invariant
            k <= batches@.len(),
            b == batch_views(batches@),
            forall|i: int| 0 <= i < b.len() ==> sinkable(#[trigger] b[i]),
            written_views(out@) == sink_writes(warehouse@, epoch_id, b, k as int),
            file_views(files@) == sink_files(warehouse@, epoch_id, b, k as int),
        decreases batches@.len() - k,
    {
        assert(sinkable(b[k as int]));
        if batches[k].1.len() > 0 {
            let (bytes, f) = write_batch(warehouse, epoch_id, &batches[k]);
            let ghost before = files@;
            let path: String = f.path.clone();
            files.push(f);
            proof {
                file_views_push(before, f);
            }
            push_written(&mut out, path, bytes);
        }
        k += 1;
    }
    if files.len() == 0 {
        proof {
            assert(file_views(files@).len() == 0);
            writes_as_files(warehouse@, epoch_id, b, b.len() as int);
        }
        return out;
    }
    assert(file_views(files@).len() > 0);
    let snap: i64 = 1000 + epoch_id as i64;
    let manifest: String = snap_file_path(warehouse, snap, "-m0.avro");
    let list: String = snap_file_path(warehouse, snap, "-ml.avro");
    let seq: i64 = *version as i64 + 1;
    append_snapshot(meta, snap, list.as_str());
    assert(snapshot_views(meta.snapshots@).len() == meta.snapshots@.len());
    *version = *version + 1;
    push_snapshot(&mut out, manifest, list, &files, snap, seq);
    let (p, m) = metadata_written(meta, *version);
    let ghost before = written_views(out@);
    push_written(&mut out, p, m);
    assert(written_views(out@) =~= before + seq![WrittenView { path: p@, bytes: m@ }]);
    proof {
        let all = written_views(out@);
        let fv = file_views(files@);
        let w = snapshot_files(manifest@, list@, fv, snap, seq);
        let n = sink_writes(warehouse@, epoch_id, b, b.len() as int).len() as int;
        assert(w[0] == all[n] && w[1] == all[n + 1]);
        if recorded(manifest@, fv, w) && list_of(meta@.snapshots, snap) == Some(list@) {
            assert forall|disk: spec_fn(Seq<char>) -> Seq<u8>| on_disk(
                disk,
                all,
            ) implies #[trigger] plans(meta@, disk, fv) by {
                assert(disk(all[n].path) == all[n].bytes);
                assert(disk(all[n + 1].path) == all[n + 1].bytes);
                assert(on_disk(disk, w));
            }
        }
    }
    out
}

proof fn writes_as_files(wh: Seq<char>, epoch_id: u64, b: Seq<BatchView>, k: int)
    requires
        0 <= k <= b.len(),
    ensures
        sink_writes(wh, epoch_id, b, k).len() == sink_files(wh, epoch_id, b, k).len(),
    decreases k,
{
    if k > 0 {
        writes_as_files(wh, epoch_id, b, k - 1);
    }
}

} // verus!
