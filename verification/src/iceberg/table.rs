//! Tables, their data files, and pruning of files by the bounds that manifests
//! keep.
use crate::chars::{from_utf8_lossy, lossy_text};
use crate::format::meta::{range_has_none, range_prunes, CmpOp, DataType, LitView, Literal};
use crate::text::{dec, join_path, path_join, push_dec, str_lt, text_lt};
use crate::wire::{from_le, le_i64, le_read_back, put_i64, signed_pattern, u64_at};
use vstd::prelude::*;

verus! {

#[derive(Clone, Debug)]
pub struct Field {
    pub id: i32,
    pub name: String,
    pub dtype: DataType,
}

#[verifier::ext_equal]
pub struct FieldSpec {
    pub id: i32,
    pub name: Seq<char>,
    pub dtype: DataType,
}

impl View for Field {
    type V = FieldSpec;

    open spec fn view(&self) -> FieldSpec {
        FieldSpec { id: self.id, name: self.name@, dtype: self.dtype }
    }
}

pub open spec fn field_views(v: Seq<Field>) -> Seq<FieldSpec> {
    Seq::new(v.len(), |i: int| v[i]@)
}

#[verifier::ext_equal]
pub struct SnapshotRef {
    pub id: i64,
    pub manifest_list: Seq<char>,
}

pub open spec fn snapshot_views(v: Seq<(i64, String)>) -> Seq<SnapshotRef> {
    Seq::new(v.len(), |i: int| SnapshotRef { id: v[i].0, manifest_list: v[i].1@ })
}

#[derive(Clone, Debug)]
pub struct TableMeta {
    pub uuid: String,
    pub location: String,
    pub fields: Vec<Field>,
    pub current_snapshot: Option<i64>,
    /// Snapshot ids and the paths of their manifest lists.
    pub snapshots: Vec<(i64, String)>,
    pub last_sequence_number: i64,
}

#[verifier::ext_equal]
pub struct TableView {
    pub uuid: Seq<char>,
    pub location: Seq<char>,
    pub fields: Seq<FieldSpec>,
    pub current_snapshot: Option<i64>,
    pub snapshots: Seq<SnapshotRef>,
    pub last_sequence_number: i64,
}

impl View for TableMeta {
    type V = TableView;

    open spec fn view(&self) -> TableView {
        TableView {
            uuid: self.uuid@,
            location: self.location@,
            fields: field_views(self.fields@),
            current_snapshot: self.current_snapshot,
            snapshots: snapshot_views(self.snapshots@),
            last_sequence_number: self.last_sequence_number,
        }
    }
}

#[derive(Clone, Debug)]
pub struct DataFile {
    pub path: String,
    pub file_size: i64,
    pub record_count: i64,
    /// Field ids with their lower and upper bounds in binary.
    pub bounds: Vec<(i32, Vec<u8>, Vec<u8>)>,
}

#[verifier::ext_equal]
pub struct BoundView {
    pub id: i32,
    pub lower: Seq<u8>,
    pub upper: Seq<u8>,
}

pub open spec fn bound_views(v: Seq<(i32, Vec<u8>, Vec<u8>)>) -> Seq<BoundView> {
    Seq::new(v.len(), |i: int| BoundView { id: v[i].0, lower: v[i].1@, upper: v[i].2@ })
}

#[verifier::ext_equal]
pub struct FileView {
    pub path: Seq<char>,
    pub file_size: i64,
    pub record_count: i64,
    pub bounds: Seq<BoundView>,
}

impl View for DataFile {
    type V = FileView;

    open spec fn view(&self) -> FileView {
        FileView {
            path: self.path@,
            file_size: self.file_size,
            record_count: self.record_count,
            bounds: bound_views(self.bounds@),
        }
    }
}

pub open spec fn file_views(v: Seq<DataFile>) -> Seq<FileView> {
    Seq::new(v.len(), |i: int| v[i]@)
}

pub proof fn file_views_push(v: Seq<DataFile>, f: DataFile)
    ensures
        file_views(v.push(f)) == file_views(v).push(f@),
{
    assert(file_views(v.push(f)) =~= file_views(v).push(f@));
}

fn copy_bytes(b: &Vec<u8>) -> (r: Vec<u8>)
    ensures
        r@ == b@,
{
    let r: Vec<u8> = crate::wire::copy_range(b.as_slice(), 0, b.len());
    assert(b@.subrange(0, b@.len() as int) =~= b@);
    r
}

impl DataFile {
    pub fn copy(&self) -> (r: DataFile)
        ensures
            r@ == self@,
    {
        let mut bounds: Vec<(i32, Vec<u8>, Vec<u8>)> = Vec::new();
        let mut k: usize = 0;
        while k < self.bounds.len()
            invariant
                k <= self.bounds@.len(),
                bounds@.len() == k,
                bound_views(bounds@) == bound_views(self.bounds@).take(k as int),
            decreases self.bounds@.len() - k,
        {
            let ghost before = bounds@;
            let b: (i32, Vec<u8>, Vec<u8>) = (
                self.bounds[k].0,
                copy_bytes(&self.bounds[k].1),
                copy_bytes(&self.bounds[k].2),
            );
            bounds.push(b);
            k += 1;
            assert(bound_views(bounds@) =~= bound_views(self.bounds@).take(k as int)) by {
                assert forall|i: int| 0 <= i < k implies bound_views(bounds@)[i] == bound_views(
                    self.bounds@,
                )[i] by {
                    if i < k - 1 {
                        assert(bound_views(before)[i] == bound_views(self.bounds@).take(k - 1)[i]);
                    }
                }
            }
        }
        let r: DataFile = DataFile {
            path: self.path.clone(),
            file_size: self.file_size,
            record_count: self.record_count,
            bounds,
        };
        assert(bound_views(self.bounds@).take(k as int) =~= bound_views(self.bounds@));
        r
    }
}

pub fn copy_files(v: &Vec<DataFile>) -> (r: Vec<DataFile>)
    ensures
        file_views(r@) == file_views(v@),
{
    let ghost fv = file_views(v@);
    let mut out: Vec<DataFile> = Vec::new();
    let mut k: usize = 0;
    assert(file_views(out@) =~= fv.take(0));
    while k < v.len()
        invariant
            k <= v@.len(),
            fv == file_views(v@),
            file_views(out@) == fv.take(k as int),
        decreases v@.len() - k,
    {
        let f: DataFile = v[k].copy();
        proof {
            file_views_push(out@, f);
            assert(fv.take(k + 1) =~= fv.take(k as int).push(f@));
        }
        out.push(f);
        k += 1;
    }
    assert(fv.take(k as int) =~= fv);
    out
}

impl TableMeta {
    pub fn copy(&self) -> (r: TableMeta)
        ensures
            r@ == self@,
    {
        let mut fields: Vec<Field> = Vec::new();
        let mut k: usize = 0;
        while k < self.fields.len()
            invariant
                k <= self.fields@.len(),
                fields@ == self.fields@.take(k as int),
            decreases self.fields@.len() - k,
        {
            fields.push(
                Field {
                    id: self.fields[k].id,
                    name: self.fields[k].name.clone(),
                    dtype: self.fields[k].dtype,
                },
            );
            k += 1;
            assert(fields@ =~= self.fields@.take(k as int));
        }
        assert(fields@ =~= self.fields@);
        let mut snapshots: Vec<(i64, String)> = Vec::new();
        let mut j: usize = 0;
        while j < self.snapshots.len()
            invariant
                j <= self.snapshots@.len(),
                snapshots@ == self.snapshots@.take(j as int),
            decreases self.snapshots@.len() - j,
        {
            snapshots.push((self.snapshots[j].0, self.snapshots[j].1.clone()));
            j += 1;
            assert(snapshots@ =~= self.snapshots@.take(j as int));
        }
        assert(snapshots@ =~= self.snapshots@);
        TableMeta {
            uuid: self.uuid.clone(),
            location: self.location.clone(),
            fields,
            current_snapshot: self.current_snapshot,
            snapshots,
            last_sequence_number: self.last_sequence_number,
        }
    }
}

// ---------------------------------------------------------------------------
// Bounds
// ---------------------------------------------------------------------------

/// A long in binary: eight bytes, least significant first.
pub fn ser_long(v: i64) -> (r: Vec<u8>)
    ensures
        r@ == le_i64(v),
{
    let mut r: Vec<u8> = Vec::new();
    put_i64(&mut r, v);
    assert(r@ =~= le_i64(v));
    r
}

/// The long in the first eight bytes.
pub open spec fn long_of(b: Seq<u8>) -> i64 {
    from_le(b.take(8)) as u64 as i64
}

pub fn de_long(b: &[u8]) -> (v: i64)
    requires
        b@.len() >= 8,
    ensures
        v == long_of(b@),
{
    assert(b@.subrange(0, 8) =~= b@.take(8));
    let u: u64 = u64_at(b, 0);
    #[verifier::truncate] (u as i64)
}

/// A long is read back from its binary form.
pub proof fn long_read_back(v: i64)
    ensures
        long_of(le_i64(v)) == v,
{
    le_read_back(v as u64 as nat, 8);
    signed_pattern(v, 0);
    assert(le_i64(v).take(8) =~= le_i64(v));
}

/// The first bound of a field.
pub open spec fn bound_of(bounds: Seq<BoundView>, id: i32) -> Option<BoundView>
    decreases bounds.len(),
{
    if bounds.len() == 0 {
        None
    } else if bounds[0].id == id {
        Some(bounds[0])
    } else {
        bound_of(bounds.skip(1), id)
    }
}

/// Finds the first bound of a field.
pub fn find_bound(f: &DataFile, id: i32) -> (r: Option<usize>)
    ensures
        match r {
            None => bound_of(f@.bounds, id) is None,
            Some(i) => i < f.bounds@.len() && bound_of(f@.bounds, id) == Some(f@.bounds[i as int]),
        },
{
    let ghost b = f@.bounds;
    let mut i: usize = 0;
    assert(b.skip(0) =~= b);
    while i < f.bounds.len()
        invariant
            i <= f.bounds@.len(),
            b == f@.bounds,
            bound_of(b, id) == bound_of(b.skip(i as int), id),
        decreases f.bounds@.len() - i,
    {
        if f.bounds[i].0 == id {
            return Some(i);
        }
        assert(b.skip(i as int).skip(1) =~= b.skip(i + 1));
        i += 1;
    }
    None
}

/// Whether a file's bounds rule a predicate out, given the texts its bounds
/// decode to.
pub open spec fn bound_prunes(
    b: BoundView,
    dtype: DataType,
    op: CmpOp,
    lit: LitView,
    lower_text: Seq<char>,
    upper_text: Seq<char>,
) -> bool {
    match (dtype, lit) {
        (DataType::Int64, LitView::Int(l)) => range_prunes(
            op,
            long_of(b.lower),
            long_of(b.upper),
            l,
        ),
        (DataType::Utf8, LitView::Str(s)) => op == CmpOp::Eq && (text_lt(s, lower_text) || text_lt(
            upper_text,
            s,
        )),
        _ => false,
    }
}

/// Whether a file holds no row that satisfies a predicate, by its bounds. A
/// file without bounds on the field is never ruled out.
pub open spec fn prunes(f: FileView, id: i32, dtype: DataType, op: CmpOp, lit: LitView) -> bool {
    match bound_of(f.bounds, id) {
        None => false,
        Some(b) => bound_prunes(b, dtype, op, lit, lossy_text(b.lower), lossy_text(b.upper)),
    }
}

/// Whether the bounds on a field can be read as longs.
pub open spec fn longs_readable(f: FileView, id: i32) -> bool {
    bound_of(f.bounds, id) matches Some(b) ==> b.lower.len() >= 8 && b.upper.len() >= 8
}

/// Tests a predicate against bounds whose texts are known.
pub fn test_bound(
    lower: &[u8],
    upper: &[u8],
    dtype: DataType,
    op: CmpOp,
    lit: &Literal,
    lower_text: &str,
    upper_text: &str,
) -> (r: bool)
    requires
        dtype == DataType::Int64 && lit is Int ==> lower@.len() >= 8 && upper@.len() >= 8,
    ensures
        forall|id: i32|
            r == #[trigger] bound_prunes(
                BoundView { id, lower: lower@, upper: upper@ },
                dtype,
                op,
                lit@,
                lower_text@,
                upper_text@,
            ),
{
    match (dtype, lit) {
        (DataType::Int64, Literal::Int(l)) => range_has_none(op, de_long(lower), de_long(upper), *l),
        (DataType::Utf8, Literal::Str(s)) => {
            op == CmpOp::Eq && (str_lt(s.as_str(), lower_text) || str_lt(upper_text, s.as_str()))
        },
        _ => false,
    }
}

/// Pruning of files from manifest bounds, before any data is read.
pub fn file_prunes(f: &DataFile, field_id: i32, dtype: DataType, op: CmpOp, lit: &Literal) -> (r:
    bool)
    requires
        dtype == DataType::Int64 && lit is Int ==> longs_readable(f@, field_id),
    ensures
        r == prunes(f@, field_id, dtype, op, lit@),
{
    match find_bound(f, field_id) {
        None => false,
        Some(i) => {
            let lower: &[u8] = f.bounds[i].1.as_slice();
            let upper: &[u8] = f.bounds[i].2.as_slice();
            let lt: String = from_utf8_lossy(lower);
            let ut: String = from_utf8_lossy(upper);
            let ghost b = f@.bounds[i as int];
            assert(b == BoundView { id: f.bounds@[i as int].0, lower: lower@, upper: upper@ });
            test_bound(lower, upper, dtype, op, lit, lt.as_str(), ut.as_str())
        },
    }
}

/// A file whose longs lie between its bounds is ruled out only if none of
/// them satisfies the predicate.
pub proof fn pruned_file_has_no_match(f: FileView, id: i32, op: CmpOp, l: i64, v: i64)
    requires
        prunes(f, id, DataType::Int64, op, LitView::Int(l)),
        bound_of(f.bounds, id) matches Some(b) && long_of(b.lower) <= v <= long_of(b.upper),
    ensures
        !crate::format::meta::holds(op, v, l),
{
}

// ---------------------------------------------------------------------------
// Commits
// ---------------------------------------------------------------------------

/// Where a version of a table's metadata is kept.
pub open spec fn metadata_path_of(location: Seq<char>, version: u32) -> Seq<char> {
    path_join(
        path_join(location, "metadata"@),
        "v"@ + dec(version as nat) + ".metadata.json"@,
    )
}

pub fn metadata_path(location: &str, version: u32) -> (r: String)
    ensures
        r@ == metadata_path_of(location@, version),
{
    let dir: String = join_path(location, "metadata");
    let mut name: String = "v".to_owned();
    push_dec(&mut name, version as u64);
    name.append(".metadata.json");
    join_path(dir.as_str(), name.as_str())
}

/// A table after a snapshot was appended to it.
pub open spec fn appended(t: TableView, snapshot_id: i64, manifest_list: Seq<char>) -> TableView {
    TableView {
        last_sequence_number: (t.last_sequence_number + 1) as i64,
        snapshots: t.snapshots.push(SnapshotRef { id: snapshot_id, manifest_list }),
        current_snapshot: Some(snapshot_id),
        ..t
    }
}

/// Appends a snapshot to a table.
pub fn append_snapshot(meta: &mut TableMeta, snapshot_id: i64, manifest_list: &str)
    requires
        old(meta).last_sequence_number < i64::MAX,
    ensures
        final(meta)@ == appended(old(meta)@, snapshot_id, manifest_list@),
{
    let ghost before = meta.snapshots@;
    meta.last_sequence_number = meta.last_sequence_number + 1;
    meta.snapshots.push((snapshot_id, manifest_list.to_owned()));
    meta.current_snapshot = Some(snapshot_id);
    proof {
        assert(snapshot_views(meta.snapshots@) =~= snapshot_views(before).push(
            SnapshotRef { id: snapshot_id, manifest_list: manifest_list@ },
        ));
        assert(meta@ =~= appended(old(meta)@, snapshot_id, manifest_list@));
    }
}

} // verus!
