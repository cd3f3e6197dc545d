//! Manifests and manifest lists: Avro files that say which data files a
//! snapshot holds, and the walk from a snapshot to its data files.
use crate::avro::{
    array_model, dict_model, enc_items, fields_model, fits, named_model, record_model,
    schemas_model, shaped, union_model, value_at, values_model, Schema, SchemaView, Value, ValueView,
};
use crate::avro_container::{
    deflated, file_is_longer, file_of, rd_container, read_container, recoverable, write_container,
    ReadError, LEVEL,
};
use crate::avro_file::{schema_json, spelled};
use crate::doc::MAX_DEPTH;
use crate::iceberg::json::printed;
use crate::iceberg::table::{
    bound_views, file_views, file_views_push, BoundView, DataFile, FileView, SnapshotRef, TableMeta, TableView,
};
use crate::text::{strs, strs_push};
use vstd::prelude::*;
use vstd::utf8::encode_utf8;

verus! {

// ---------------------------------------------------------------------------
// Schemas
// ---------------------------------------------------------------------------

/// Bounds: a list of field ids, each with a value in binary.
pub open spec fn bounds_type() -> SchemaView {
    SchemaView::Array(
        Box::new(
            SchemaView::Record(
                "k_v"@,
                seq![("key"@, SchemaView::Int), ("value"@, SchemaView::Bytes)],
            ),
        ),
    )
}

pub open spec fn optional_type(s: SchemaView) -> SchemaView {
    SchemaView::Union(seq![SchemaView::Null, s])
}

/// What a manifest says of a data file.
pub open spec fn file_type() -> SchemaView {
    SchemaView::Record(
        "r2"@,
        seq![
            ("content"@, SchemaView::Int),
            ("file_path"@, SchemaView::String),
            ("file_format"@, SchemaView::String),
            ("partition"@, SchemaView::Record("r102"@, Seq::empty())),
            ("record_count"@, SchemaView::Long),
            ("file_size_in_bytes"@, SchemaView::Long),
            ("lower_bounds"@, optional_type(bounds_type())),
            ("upper_bounds"@, optional_type(bounds_type())),
        ],
    )
}

pub open spec fn entry_type() -> SchemaView {
    SchemaView::Record(
        "manifest_entry"@,
        seq![
            ("status"@, SchemaView::Int),
            ("snapshot_id"@, optional_type(SchemaView::Long)),
            ("data_file"@, file_type()),
        ],
    )
}

/// What a manifest list says of a manifest.
pub open spec fn manifest_type() -> SchemaView {
    SchemaView::Record(
        "manifest_file"@,
        seq![
            ("manifest_path"@, SchemaView::String),
            ("manifest_length"@, SchemaView::Long),
            ("partition_spec_id"@, SchemaView::Int),
            ("content"@, SchemaView::Int),
            ("sequence_number"@, SchemaView::Long),
            ("min_sequence_number"@, SchemaView::Long),
            ("added_snapshot_id"@, SchemaView::Long),
            ("added_files_count"@, SchemaView::Int),
            ("existing_files_count"@, SchemaView::Int),
            ("deleted_files_count"@, SchemaView::Int),
            ("added_rows_count"@, SchemaView::Long),
            ("existing_rows_count"@, SchemaView::Long),
            ("deleted_rows_count"@, SchemaView::Long),
        ],
    )
}

fn push_field(out: &mut Vec<(String, Schema)>, name: &str, s: Schema)
    ensures
        fields_model(final(out)@) == fields_model(old(out)@).push((name@, s.model())),
{
    out.push((name.to_owned(), s));
    assert(fields_model(out@) =~= fields_model(old(out)@).push((name@, s.model())));
}

fn new_fields() -> (out: Vec<(String, Schema)>)
    ensures
        fields_model(out@) == Seq::<(Seq<char>, SchemaView)>::empty(),
{
    let out: Vec<(String, Schema)> = Vec::new();
    assert(fields_model(out@) =~= Seq::empty());
    out
}

fn record(name: &str, fields: Vec<(String, Schema)>) -> (s: Schema)
    ensures
        s.model() == SchemaView::Record(name@, fields_model(fields@)),
{
    let n: String = name.to_owned();
    proof {
        record_model(n, fields);
    }
    Schema::Record { name: n, fields }
}

fn optional(s: Schema) -> (r: Schema)
    ensures
        r.model() == optional_type(s.model()),
{
    let mut b: Vec<Schema> = Vec::new();
    b.push(Schema::Null);
    b.push(s);
    proof {
        union_model(b);
        assert(schemas_model(b@) =~= seq![SchemaView::Null, s.model()]);
    }
    Schema::Union(b)
}

fn bounds_schema() -> (s: Schema)
    ensures
        s.model() == bounds_type(),
{
    let mut f: Vec<(String, Schema)> = new_fields();
    push_field(&mut f, "key", Schema::Int);
    push_field(&mut f, "value", Schema::Bytes);
    assert(fields_model(f@) =~= seq![("key"@, SchemaView::Int), ("value"@, SchemaView::Bytes)]);
    let r: Schema = record("k_v", f);
    Schema::Array(Box::new(r))
}

fn file_schema() -> (s: Schema)
    ensures
        s.model() == file_type(),
{
    let mut f: Vec<(String, Schema)> = new_fields();
    push_field(&mut f, "content", Schema::Int);
    push_field(&mut f, "file_path", Schema::String);
    push_field(&mut f, "file_format", Schema::String);
    push_field(&mut f, "partition", record("r102", new_fields()));
    push_field(&mut f, "record_count", Schema::Long);
    push_field(&mut f, "file_size_in_bytes", Schema::Long);
    push_field(&mut f, "lower_bounds", optional(bounds_schema()));
    push_field(&mut f, "upper_bounds", optional(bounds_schema()));
    assert(fields_model(f@) =~= file_type()->Record_1);
    record("r2", f)
}

fn manifest_entry_schema() -> (s: Schema)
    ensures
        s.model() == entry_type(),
{
    let mut f: Vec<(String, Schema)> = new_fields();
    push_field(&mut f, "status", Schema::Int);
    push_field(&mut f, "snapshot_id", optional(Schema::Long));
    push_field(&mut f, "data_file", file_schema());
    assert(fields_model(f@) =~= entry_type()->Record_1);
    record("manifest_entry", f)
}

fn manifest_file_schema() -> (s: Schema)
    ensures
        s.model() == manifest_type(),
{
    let mut f: Vec<(String, Schema)> = new_fields();
    push_field(&mut f, "manifest_path", Schema::String);
    push_field(&mut f, "manifest_length", Schema::Long);
    push_field(&mut f, "partition_spec_id", Schema::Int);
    push_field(&mut f, "content", Schema::Int);
    push_field(&mut f, "sequence_number", Schema::Long);
    push_field(&mut f, "min_sequence_number", Schema::Long);
    push_field(&mut f, "added_snapshot_id", Schema::Long);
    push_field(&mut f, "added_files_count", Schema::Int);
    push_field(&mut f, "existing_files_count", Schema::Int);
    push_field(&mut f, "deleted_files_count", Schema::Int);
    push_field(&mut f, "added_rows_count", Schema::Long);
    push_field(&mut f, "existing_rows_count", Schema::Long);
    push_field(&mut f, "deleted_rows_count", Schema::Long);
    assert(fields_model(f@) =~= manifest_type()->Record_1);
    record("manifest_file", f)
}

proof fn record_spelled(name: Seq<char>, f: Seq<(Seq<char>, SchemaView)>, d: nat)
    requires
        d >= 3,
        forall|i: int|
            #![trigger f[i]]
            0 <= i < f.len() ==> spelled(f[i].1, (d - 3) as nat),
    ensures
        spelled(SchemaView::Record(name, f), d),
{
    let s = SchemaView::Record(name, f);
    assert forall|i: int| #![trigger s->Record_1[i]] 0 <= i < s->Record_1.len() implies spelled(
        s->Record_1[i].1,
        (d - 3) as nat,
    ) by {
        assert(f[i] == s->Record_1[i]);
    }
}

proof fn word_spelled(d: nat)
    ensures
        spelled(SchemaView::Null, d),
        spelled(SchemaView::Int, d),
        spelled(SchemaView::Long, d),
        spelled(SchemaView::Bytes, d),
        spelled(SchemaView::String, d),
{
}

proof fn optional_spelled(s: SchemaView, d: nat)
    requires
        d >= 1,
        spelled(s, (d - 1) as nat),
    ensures
        spelled(optional_type(s), d),
{
    word_spelled((d - 1) as nat);
    let u = optional_type(s);
    assert forall|i: int| #![trigger u->Union_0[i]] 0 <= i < u->Union_0.len() implies spelled(
        u->Union_0[i],
        (d - 1) as nat,
    ) by {
        assert(u->Union_0[i] == SchemaView::Null || u->Union_0[i] == s);
    }
}

proof fn bounds_spelled(d: nat)
    requires
        d >= 5,
    ensures
        spelled(optional_type(bounds_type()), d),
{
    word_spelled((d - 5) as nat);
    let f = seq![("key"@, SchemaView::Int), ("value"@, SchemaView::Bytes)];
    record_spelled("k_v"@, f, (d - 2) as nat);
    assert(spelled(bounds_type(), (d - 1) as nat));
    optional_spelled(bounds_type(), d);
}

proof fn entry_spelled()
    ensures
        spelled(entry_type(), MAX_DEPTH as nat),
{
    word_spelled(96);
    word_spelled(97);
    word_spelled(94);
    record_spelled("r102"@, Seq::empty(), 94);
    bounds_spelled(94);
    record_spelled("r2"@, file_type()->Record_1, 97);
    optional_spelled(SchemaView::Long, 97);
    record_spelled("manifest_entry"@, entry_type()->Record_1, 100);
}

proof fn manifest_spelled()
    ensures
        spelled(manifest_type(), MAX_DEPTH as nat),
{
    word_spelled(97);
    record_spelled("manifest_file"@, manifest_type()->Record_1, 100);
}

// ---------------------------------------------------------------------------
// Writing
// ---------------------------------------------------------------------------

pub open spec fn bound_item(id: i32, b: Seq<u8>) -> ValueView {
    ValueView::Record(seq![("key"@, ValueView::Int(id)), ("value"@, ValueView::Bytes(b))])
}

/// The lower bounds of a file as Avro, or the upper ones.
pub open spec fn bounds_value(b: Seq<BoundView>, upper: bool) -> ValueView {
    ValueView::Union(
        1,
        Box::new(
            ValueView::Array(
                Seq::new(
                    b.len(),
                    |i: int|
                        bound_item(
                            b[i].id,
                            if upper {
                                b[i].upper
                            } else {
                                b[i].lower
                            },
                        ),
                ),
            ),
        ),
    )
}

/// A data file as Avro.
pub open spec fn file_value(f: FileView) -> ValueView {
    ValueView::Record(
        seq![
            ("content"@, ValueView::Int(0)),
            ("file_path"@, ValueView::String(f.path)),
            ("file_format"@, ValueView::String("BLITZCOL"@)),
            ("partition"@, ValueView::Record(Seq::empty())),
            ("record_count"@, ValueView::Long(f.record_count)),
            ("file_size_in_bytes"@, ValueView::Long(f.file_size)),
            ("lower_bounds"@, bounds_value(f.bounds, false)),
            ("upper_bounds"@, bounds_value(f.bounds, true)),
        ],
    )
}

/// The entry of a manifest that adds a file.
pub open spec fn entry(f: FileView, snapshot_id: i64) -> ValueView {
    ValueView::Record(
        seq![
            ("status"@, ValueView::Int(1)),
            ("snapshot_id"@, ValueView::Union(1, Box::new(ValueView::Long(snapshot_id)))),
            ("data_file"@, file_value(f)),
        ],
    )
}

pub open spec fn entries(files: Seq<FileView>, snapshot_id: i64) -> Seq<ValueView> {
    Seq::new(files.len(), |i: int| entry(files[i], snapshot_id))
}

/// A manifest as its list names it: where it is, how long it is and how many
/// rows it adds.
#[verifier::ext_equal]
pub struct ListedView {
    pub path: Seq<char>,
    pub length: i64,
    pub rows: i64,
}

pub open spec fn listed(m: ListedView, snapshot_id: i64, seq: i64) -> ValueView {
    ValueView::Record(
        seq![
            ("manifest_path"@, ValueView::String(m.path)),
            ("manifest_length"@, ValueView::Long(m.length)),
            ("partition_spec_id"@, ValueView::Int(0)),
            ("content"@, ValueView::Int(0)),
            ("sequence_number"@, ValueView::Long(seq)),
            ("min_sequence_number"@, ValueView::Long(seq)),
            ("added_snapshot_id"@, ValueView::Long(snapshot_id)),
            ("added_files_count"@, ValueView::Int(1)),
            ("existing_files_count"@, ValueView::Int(0)),
            ("deleted_files_count"@, ValueView::Int(0)),
            ("added_rows_count"@, ValueView::Long(m.rows)),
            ("existing_rows_count"@, ValueView::Long(0)),
            ("deleted_rows_count"@, ValueView::Long(0)),
        ],
    )
}

pub open spec fn listing(m: Seq<ListedView>, snapshot_id: i64, seq: i64) -> Seq<ValueView> {
    Seq::new(m.len(), |i: int| listed(m[i], snapshot_id, seq))
}

pub open spec fn listed_views(v: Seq<(String, i64, i64)>) -> Seq<ListedView> {
    Seq::new(v.len(), |i: int| ListedView { path: v[i].0@, length: v[i].1, rows: v[i].2 })
}

fn new_values() -> (out: Vec<(String, Value)>)
    ensures
        named_model(out@) == Seq::<(Seq<char>, ValueView)>::empty(),
{
    let out: Vec<(String, Value)> = Vec::new();
    assert(named_model(out@) =~= Seq::empty());
    out
}

fn push_value(out: &mut Vec<(String, Value)>, name: &str, v: Value)
    ensures
        named_model(final(out)@) == named_model(old(out)@).push((name@, v.model())),
{
    out.push((name.to_owned(), v));
    assert(named_model(out@) =~= named_model(old(out)@).push((name@, v.model())));
}

fn record_value(f: Vec<(String, Value)>) -> (v: Value)
    ensures
        v.model() == ValueView::Record(named_model(f@)),
{
    proof {
        dict_model(f);
    }
    Value::Record(f)
}

fn branch(v: Value) -> (r: Value)
    ensures
        r.model() == ValueView::Union(1, Box::new(v.model())),
{
    Value::Union(1, Box::new(v))
}

fn text_value(s: &str) -> (v: Value)
    ensures
        v.model() == ValueView::String(s@),
{
    Value::String(s.to_owned())
}

fn write_bounds(f: &DataFile, upper: bool) -> (v: Value)
    ensures
        v.model() == bounds_value(f@.bounds, upper),
{
    let ghost b = f@.bounds;
    let mut a: Vec<Value> = Vec::new();
    let mut k: usize = 0;
    let ghost want = bounds_value(b, upper)->Union_1->Array_0;
    while k < f.bounds.len()
        invariant
            k <= f.bounds@.len(),
            b == f@.bounds,
            want == bounds_value(b, upper)->Union_1->Array_0,
            a@.len() == k,
            forall|i: int| 0 <= i < k ==> (#[trigger] a@[i]).model() == want[i],
        decreases f.bounds@.len() - k,
    {
        let bytes: &Vec<u8> = if upper { &f.bounds[k].2 } else { &f.bounds[k].1 };
        let copy: Vec<u8> = crate::wire::copy_range(bytes.as_slice(), 0, bytes.len());
        assert(copy@ =~= bytes@);
        let mut r: Vec<(String, Value)> = new_values();
        push_value(&mut r, "key", Value::Int(f.bounds[k].0));
        push_value(&mut r, "value", Value::Bytes(copy));
        let item: Value = record_value(r);
        proof {
            assert(named_model(r@) =~= bound_item(b[k as int].id, copy@)->Record_0);
            assert(item.model() == want[k as int]);
        }
        a.push(item);
        k += 1;
    }
    proof {
        array_model(a);
        assert(values_model(a@) =~= want);
    }
    let list: Value = Value::Array(a);
    branch(list)
}

fn write_file(f: &DataFile) -> (v: Value)
    ensures
        v.model() == file_value(f@),
{
    let mut r: Vec<(String, Value)> = new_values();
    push_value(&mut r, "content", Value::Int(0));
    push_value(&mut r, "file_path", text_value(f.path.as_str()));
    push_value(&mut r, "file_format", text_value("BLITZCOL"));
    push_value(&mut r, "partition", record_value(new_values()));
    push_value(&mut r, "record_count", Value::Long(f.record_count));
    push_value(&mut r, "file_size_in_bytes", Value::Long(f.file_size));
    push_value(&mut r, "lower_bounds", write_bounds(f, false));
    push_value(&mut r, "upper_bounds", write_bounds(f, true));
    assert(named_model(r@) =~= file_value(f@)->Record_0);
    record_value(r)
}

/// The entries of a manifest that adds some files.
pub fn manifest_rows(snapshot_id: i64, files: &Vec<DataFile>) -> (rows: Vec<Value>)
    ensures
        values_model(rows@) == entries(file_views(files@), snapshot_id),
{
    let ghost fv = file_views(files@);
    let mut rows: Vec<Value> = Vec::new();
    let mut k: usize = 0;
    while k < files.len()
        invariant
            k <= files@.len(),
            fv == file_views(files@),
            rows@.len() == k,
            forall|i: int| 0 <= i < k ==> (#[trigger] rows@[i]).model() == entry(fv[i], snapshot_id),
        decreases files@.len() - k,
    {
        let mut r: Vec<(String, Value)> = new_values();
        push_value(&mut r, "status", Value::Int(1));
        push_value(&mut r, "snapshot_id", branch(Value::Long(snapshot_id)));
        push_value(&mut r, "data_file", write_file(&files[k]));
        assert(named_model(r@) =~= entry(fv[k as int], snapshot_id)->Record_0);
        rows.push(record_value(r));
        k += 1;
    }
    assert(values_model(rows@) =~= entries(fv, snapshot_id));
    rows
}

/// The rows of a manifest list.
pub fn manifest_list_rows(snapshot_id: i64, seq: i64, manifests: &Vec<(String, i64, i64)>) -> (rows:
    Vec<Value>)
    ensures
        values_model(rows@) == listing(listed_views(manifests@), snapshot_id, seq),
{
    let ghost mv = listed_views(manifests@);
    let mut rows: Vec<Value> = Vec::new();
    let mut k: usize = 0;
    while k < manifests.len()
        invariant
            k <= manifests@.len(),
            mv == listed_views(manifests@),
            rows@.len() == k,
            forall|i: int|
                0 <= i < k ==> (#[trigger] rows@[i]).model() == listed(mv[i], snapshot_id, seq),
        decreases manifests@.len() - k,
    {
        let mut r: Vec<(String, Value)> = new_values();
        push_value(&mut r, "manifest_path", text_value(manifests[k].0.as_str()));
        push_value(&mut r, "manifest_length", Value::Long(manifests[k].1));
        push_value(&mut r, "partition_spec_id", Value::Int(0));
        push_value(&mut r, "content", Value::Int(0));
        push_value(&mut r, "sequence_number", Value::Long(seq));
        push_value(&mut r, "min_sequence_number", Value::Long(seq));
        push_value(&mut r, "added_snapshot_id", Value::Long(snapshot_id));
        push_value(&mut r, "added_files_count", Value::Int(1));
        push_value(&mut r, "existing_files_count", Value::Int(0));
        push_value(&mut r, "deleted_files_count", Value::Int(0));
        push_value(&mut r, "added_rows_count", Value::Long(manifests[k].2));
        push_value(&mut r, "existing_rows_count", Value::Long(0));
        push_value(&mut r, "deleted_rows_count", Value::Long(0));
        assert(named_model(r@) =~= listed(mv[k as int], snapshot_id, seq)->Record_0);
        rows.push(record_value(r));
        k += 1;
    }
    assert(values_model(rows@) =~= listing(mv, snapshot_id, seq));
    rows
}

proof fn record_fits(fv: Seq<(Seq<char>, ValueView)>, name: Seq<char>, f: Seq<(Seq<char>, SchemaView)>)
    requires
        forall|k: int|
            #![trigger f[k]]
            0 <= k < f.len() && k < fv.len() ==> fits(fv[k].1, f[k].1),
    ensures
        fits(ValueView::Record(fv), SchemaView::Record(name, f)),
{
    let v = ValueView::Record(fv);
    let s = SchemaView::Record(name, f);
    assert forall|k: int|
        #![trigger s->Record_1[k]]
        #![trigger v->Record_0[k]]
        0 <= k < s->Record_1.len() && k < v->Record_0.len() implies fits(
        v->Record_0[k].1,
        s->Record_1[k].1,
    ) by {
        assert(f[k] == s->Record_1[k]);
    }
}

proof fn bounds_fit(b: Seq<BoundView>, upper: bool)
    ensures
        fits(bounds_value(b, upper), optional_type(bounds_type())),
{
    let t = bounds_type();
    let a = *bounds_value(b, upper)->Union_1;
    let f = seq![("key"@, SchemaView::Int), ("value"@, SchemaView::Bytes)];
    assert forall|k: int| #![trigger a->Array_0[k]] 0 <= k < a->Array_0.len() implies fits(
        a->Array_0[k],
        *t->Array_0,
    ) by {
        record_fits(a->Array_0[k]->Record_0, "k_v"@, f);
    }
    assert(fits(a, t));
}

proof fn entry_fits(f: FileView, snapshot_id: i64)
    ensures
        fits(entry(f, snapshot_id), entry_type()),
{
    bounds_fit(f.bounds, false);
    bounds_fit(f.bounds, true);
    let ft = file_type()->Record_1;
    let fv = file_value(f)->Record_0;
    record_fits(Seq::empty(), "r102"@, Seq::empty());
    record_fits(fv, "r2"@, ft);
    let u = ValueView::Union(1, Box::new(ValueView::Long(snapshot_id)));
    assert(fits(ValueView::Long(snapshot_id), SchemaView::Long));
    assert(fits(u, optional_type(SchemaView::Long)));
    record_fits(entry(f, snapshot_id)->Record_0, "manifest_entry"@, entry_type()->Record_1);
}

proof fn listed_fits(m: ListedView, snapshot_id: i64, seq: i64)
    ensures
        fits(listed(m, snapshot_id, seq), manifest_type()),
{
    record_fits(listed(m, snapshot_id, seq)->Record_0, "manifest_file"@, manifest_type()->Record_1);
}

/// The bytes of a manifest.
#[verifier::opaque]
pub open spec fn manifest_bytes(files: Seq<FileView>, snapshot_id: i64) -> Seq<u8> {
    file_of(
        printed(schema_json(entry_type()), true),
        files.len(),
        deflated(enc_items(entries(files, snapshot_id), entry_type(), 0), LEVEL),
    )
}

/// The bytes of a manifest list.
#[verifier::opaque]
pub open spec fn list_bytes(m: Seq<ListedView>, snapshot_id: i64, seq: i64) -> Seq<u8> {
    file_of(
        printed(schema_json(manifest_type()), true),
        m.len(),
        deflated(enc_items(listing(m, snapshot_id, seq), manifest_type(), 0), LEVEL),
    )
}

/// Whether the texts and bounds of a file are no longer than a count can say.
pub open spec fn file_small(f: FileView) -> bool {
    &&& encode_utf8(f.path).len() <= i64::MAX
    &&& f.bounds.len() <= i64::MAX
    &&& forall|i: int|
        0 <= i < f.bounds.len() ==> (#[trigger] f.bounds[i]).lower.len() <= i64::MAX
            && f.bounds[i].upper.len() <= i64::MAX
}

/// Whether the counts of a manifest can be said.
pub open spec fn files_small(files: Seq<FileView>) -> bool {
    files.len() <= i64::MAX && forall|i: int| 0 <= i < files.len() ==> file_small(#[trigger] files[i])
}

/// Whether the counts of a manifest list can be said.
pub open spec fn list_small(m: Seq<ListedView>) -> bool {
    m.len() <= i64::MAX && forall|i: int|
        0 <= i < m.len() ==> encode_utf8((#[trigger] m[i]).path).len() <= i64::MAX
}

proof fn record_shaped(
    fv: Seq<(Seq<char>, ValueView)>,
    name: Seq<char>,
    f: Seq<(Seq<char>, SchemaView)>,
)
    requires
        f.len() == fv.len(),
        forall|k: int|
            #![trigger f[k]]
            0 <= k < f.len() ==> f[k].0 == fv[k].0 && shaped(fv[k].1, f[k].1),
    ensures
        shaped(ValueView::Record(fv), SchemaView::Record(name, f)),
{
    let v = ValueView::Record(fv);
    let s = SchemaView::Record(name, f);
    assert forall|k: int|
        #![trigger s->Record_1[k]]
        #![trigger v->Record_0[k]]
        0 <= k < s->Record_1.len() implies s->Record_1[k].0 == v->Record_0[k].0 && shaped(
        v->Record_0[k].1,
        s->Record_1[k].1,
    ) by {
        assert(f[k] == s->Record_1[k]);
    }
}

proof fn bounds_shaped(b: Seq<BoundView>, upper: bool)
    requires
        b.len() <= i64::MAX,
        forall|i: int|
            0 <= i < b.len() ==> (#[trigger] b[i]).lower.len() <= i64::MAX && b[i].upper.len()
                <= i64::MAX,
    ensures
        shaped(bounds_value(b, upper), optional_type(bounds_type())),
{
    let t = bounds_type();
    let a = *bounds_value(b, upper)->Union_1;
    let f = seq![("key"@, SchemaView::Int), ("value"@, SchemaView::Bytes)];
    assert forall|k: int| #![trigger a->Array_0[k]] 0 <= k < a->Array_0.len() implies shaped(
        a->Array_0[k],
        *t->Array_0,
    ) by {
        assert(b[k].lower.len() <= i64::MAX);
        record_shaped(a->Array_0[k]->Record_0, "k_v"@, f);
    }
    assert(shaped(a, t));
}

proof fn entry_shaped(f: FileView, snapshot_id: i64)
    requires
        file_small(f),
    ensures
        shaped(entry(f, snapshot_id), entry_type()),
{
    bounds_shaped(f.bounds, false);
    bounds_shaped(f.bounds, true);
    let ft = file_type()->Record_1;
    let fv = file_value(f)->Record_0;
    record_shaped(Seq::empty(), "r102"@, Seq::empty());
    assert(encode_utf8("BLITZCOL"@).len() <= i64::MAX) by {
        reveal_strlit("BLITZCOL");
        vstd::utf8::is_ascii_chars_encode_utf8("BLITZCOL"@);
    }
    record_shaped(fv, "r2"@, ft);
    let u = ValueView::Union(1, Box::new(ValueView::Long(snapshot_id)));
    assert(shaped(ValueView::Long(snapshot_id), SchemaView::Long));
    assert(shaped(u, optional_type(SchemaView::Long)));
    record_shaped(entry(f, snapshot_id)->Record_0, "manifest_entry"@, entry_type()->Record_1);
}

proof fn listed_shaped(m: ListedView, snapshot_id: i64, seq: i64)
    requires
        encode_utf8(m.path).len() <= i64::MAX,
    ensures
        shaped(listed(m, snapshot_id, seq), manifest_type()),
{
    record_shaped(listed(m, snapshot_id, seq)->Record_0, "manifest_file"@, manifest_type()->Record_1);
}

/// Writes a manifest that adds some files. What a manifest of lengths that can
/// be said was written from is read back.
pub fn write_manifest(snapshot_id: i64, files: &Vec<DataFile>) -> (r: Vec<u8>)
    ensures
        r@ == manifest_bytes(file_views(files@), snapshot_id),
        files_small(file_views(files@)) && r@.len() <= i64::MAX ==> rd_container(r@) == Ok::<(SchemaView, Seq<ValueView>), ReadError>(
            (entry_type(), entries(file_views(files@), snapshot_id)),
        ),
{
    let schema: Schema = manifest_entry_schema();
    let rows: Vec<Value> = manifest_rows(snapshot_id, files);
    proof {
        assert forall|i: int| 0 <= i < rows@.len() implies fits(
            (#[trigger] rows@[i]).model(),
            schema.model(),
        ) by {
            let all = values_model(rows@);
            assert(all.len() == rows@.len());
            assert(all[i] == entry(file_views(files@)[i], snapshot_id));
            entry_fits(file_views(files@)[i], snapshot_id);
        }
        entry_spelled();
        reveal(manifest_bytes);
    }
    let r: Vec<u8> = write_container(&schema, &rows).unwrap();
    proof {
        let fv = file_views(files@);
        let all = entries(fv, snapshot_id);
        if files_small(fv) && r@.len() <= i64::MAX {
            file_is_longer(
                printed(schema_json(entry_type()), true),
                fv.len(),
                deflated(enc_items(all, entry_type(), 0), LEVEL),
            );
            assert forall|i: int| 0 <= i < all.len() implies shaped(
                #[trigger] all[i],
                entry_type(),
            ) by {
                entry_shaped(fv[i], snapshot_id);
            }
            assert(recoverable(entry_type(), all));
        }
    }
    r
}

/// Writes the list of a snapshot's manifests. What a list of lengths that can
/// be said was written from is read back.
pub fn write_manifest_list(snapshot_id: i64, seq: i64, manifests: &Vec<(String, i64, i64)>) -> (r:
    Vec<u8>)
    ensures
        r@ == list_bytes(listed_views(manifests@), snapshot_id, seq),
        list_small(listed_views(manifests@)) && r@.len() <= i64::MAX ==> rd_container(r@) == Ok::<(SchemaView, Seq<ValueView>), ReadError>(
            (manifest_type(), listing(listed_views(manifests@), snapshot_id, seq)),
        ),
{
    let schema: Schema = manifest_file_schema();
    let rows: Vec<Value> = manifest_list_rows(snapshot_id, seq, manifests);
    proof {
        assert forall|i: int| 0 <= i < rows@.len() implies fits(
            (#[trigger] rows@[i]).model(),
            schema.model(),
        ) by {
            let all = values_model(rows@);
            assert(all.len() == rows@.len());
            assert(all[i] == listed(listed_views(manifests@)[i], snapshot_id, seq));
            listed_fits(listed_views(manifests@)[i], snapshot_id, seq);
        }
        manifest_spelled();
        reveal(list_bytes);
    }
    let r: Vec<u8> = write_container(&schema, &rows).unwrap();
    proof {
        let mv = listed_views(manifests@);
        let all = listing(mv, snapshot_id, seq);
        if list_small(mv) && r@.len() <= i64::MAX {
            file_is_longer(
                printed(schema_json(manifest_type()), true),
                mv.len(),
                deflated(enc_items(all, manifest_type(), 0), LEVEL),
            );
            assert forall|i: int| 0 <= i < all.len() implies shaped(
                #[trigger] all[i],
                manifest_type(),
            ) by {
                listed_shaped(mv[i], snapshot_id, seq);
            }
            assert(recoverable(manifest_type(), all));
        }
    }
    r
}

// ---------------------------------------------------------------------------
// Reading
// ---------------------------------------------------------------------------

/// The status of an entry whose file was deleted.
pub const DELETED: i32 = 2;

/// A number that is an int, or another where it is none.
pub open spec fn int_or(v: ValueView, other: i32) -> i32 {
    match v.inner() {
        ValueView::Int(n) => n,
        _ => other,
    }
}

/// A field id with its bound.
pub open spec fn pair_of(r: ValueView) -> Option<(i32, Seq<u8>)> {
    match (r.at("key"@), r.at("value"@)) {
        (Some(k), Some(v)) => match v.bytes() {
            Some(b) => Some((int_or(k, 0), b)),
            None => None,
        },
        _ => None,
    }
}

/// The first `k` bounds of a list.
pub open spec fn pairs_of(a: Seq<ValueView>, k: int) -> Option<Seq<(i32, Seq<u8>)>>
    decreases k,
{
    if k <= 0 {
        Some(Seq::empty())
    } else {
        match (pairs_of(a, k - 1), pair_of(a[k - 1])) {
            (Some(p), Some(x)) => Some(p.push(x)),
            _ => None,
        }
    }
}

/// The bounds a value lists; none where it lists nothing.
pub open spec fn bounds_in(v: Option<ValueView>) -> Option<Seq<(i32, Seq<u8>)>> {
    match v {
        Some(v) => match v.inner() {
            ValueView::Array(a) => pairs_of(a, a.len() as int),
            _ => Some(Seq::empty()),
        },
        None => Some(Seq::empty()),
    }
}

/// The first bound of a field.
pub open spec fn first_bound(p: Seq<(i32, Seq<u8>)>, id: i32) -> Option<Seq<u8>>
    decreases p.len(),
{
    if p.len() == 0 {
        None
    } else if p[0].0 == id {
        Some(p[0].1)
    } else {
        first_bound(p.skip(1), id)
    }
}

/// The first `k` lower bounds, each with the first upper bound of its field;
/// one without an upper bound is left out.
pub open spec fn joined(lows: Seq<(i32, Seq<u8>)>, highs: Seq<(i32, Seq<u8>)>, k: int) -> Seq<
    BoundView,
>
    decreases k,
{
    if k <= 0 {
        Seq::empty()
    } else {
        let (id, lower) = lows[k - 1];
        match first_bound(highs, id) {
            Some(upper) => joined(lows, highs, k - 1).push(BoundView { id, lower, upper }),
            None => joined(lows, highs, k - 1),
        }
    }
}

pub open spec fn number_or_zero(v: ValueView) -> i64 {
    match v.number() {
        Some(n) => n,
        None => 0,
    }
}

/// The data file an Avro record describes.
pub open spec fn file_in(df: ValueView) -> Option<FileView> {
    match (bounds_in(df.at("lower_bounds"@)), bounds_in(df.at("upper_bounds"@))) {
        (Some(lows), Some(highs)) => match (
            df.at("file_path"@),
            df.at("file_size_in_bytes"@),
            df.at("record_count"@),
        ) {
            (Some(path), Some(size), Some(count)) => match path.text() {
                Some(p) => Some(
                    FileView {
                        path: p,
                        file_size: number_or_zero(size),
                        record_count: number_or_zero(count),
                        bounds: joined(lows, highs, lows.len() as int),
                    },
                ),
                None => None,
            },
            _ => None,
        },
        _ => None,
    }
}

/// What an entry adds: nothing where its file was deleted.
pub open spec fn entry_files(e: ValueView) -> Option<Seq<FileView>> {
    match e.at("status"@) {
        None => None,
        Some(st) => if int_or(st, 1) == DELETED {
            Some(Seq::empty())
        } else {
            match e.at("data_file"@) {
                None => None,
                Some(df) => match file_in(df) {
                    Some(f) => Some(seq![f]),
                    None => None,
                },
            }
        },
    }
}

/// The files of the first `k` entries.
pub open spec fn files_in(rows: Seq<ValueView>, k: int) -> Option<Seq<FileView>>
    decreases k,
{
    if k <= 0 {
        Some(Seq::empty())
    } else {
        match (files_in(rows, k - 1), entry_files(rows[k - 1])) {
            (Some(a), Some(b)) => Some(a + b),
            _ => None,
        }
    }
}

pub open spec fn path_in(row: ValueView) -> Option<Seq<char>> {
    match row.at("manifest_path"@) {
        Some(v) => v.text(),
        None => None,
    }
}

/// Where the first `k` manifests of a list are.
pub open spec fn paths_in(rows: Seq<ValueView>, k: int) -> Option<Seq<Seq<char>>>
    decreases k,
{
    if k <= 0 {
        Some(Seq::empty())
    } else {
        match (paths_in(rows, k - 1), path_in(rows[k - 1])) {
            (Some(a), Some(p)) => Some(a.push(p)),
            _ => None,
        }
    }
}

proof fn pairs_fail(a: Seq<ValueView>, k: int, n: int)
    requires
        k <= n,
        pairs_of(a, k) is None,
    ensures
        pairs_of(a, n) is None,
    decreases n - k,
{
    if k < n {
        pairs_fail(a, k, n - 1);
    }
}

proof fn files_fail(a: Seq<ValueView>, k: int, n: int)
    requires
        k <= n,
        files_in(a, k) is None,
    ensures
        files_in(a, n) is None,
    decreases n - k,
{
    if k < n {
        files_fail(a, k, n - 1);
    }
}

proof fn paths_fail(a: Seq<ValueView>, k: int, n: int)
    requires
        k <= n,
        paths_in(a, k) is None,
    ensures
        paths_in(a, n) is None,
    decreases n - k,
{
    if k < n {
        paths_fail(a, k, n - 1);
    }
}

pub open spec fn pair_views(v: Seq<(i32, Vec<u8>)>) -> Seq<(i32, Seq<u8>)> {
    Seq::new(v.len(), |i: int| (v[i].0, v[i].1@))
}

fn read_int_or(v: &Value, other: i32) -> (n: i32)
    ensures
        n == int_or(v.model(), other),
{
    match v.flat() {
        Value::Int(n) => *n,
        _ => other,
    }
}

fn read_pair(r: &Value) -> (p: Option<(i32, Vec<u8>)>)
    ensures
        match (p, pair_of(r.model())) {
            (Some((k, b)), Some((wk, wb))) => k == wk && b@ == wb,
            (None, None) => true,
            _ => false,
        },
{
    let key: &Value = match r.field("key") {
        Some(k) => k,
        None => return None,
    };
    let value: &Value = match r.field("value") {
        Some(v) => v,
        None => return None,
    };
    match value.as_bytes() {
        Some(b) => {
            let copy: Vec<u8> = crate::wire::copy_range(b, 0, b.len());
            assert(copy@ =~= b@);
            Some((read_int_or(key, 0), copy))
        },
        None => None,
    }
}

fn read_bounds(v: Option<&Value>) -> (r: Option<Vec<(i32, Vec<u8>)>>)
    ensures
        match (
            r,
            bounds_in(
                match v {
                    Some(x) => Some(x.model()),
                    None => None,
                },
            ),
        ) {
            (Some(p), Some(w)) => pair_views(p@) == w,
            (None, None) => true,
            _ => false,
        },
{
    let mut out: Vec<(i32, Vec<u8>)> = Vec::new();
    assert(pair_views(out@) =~= Seq::empty());
    let x: &Value = match v {
        Some(x) => x,
        None => return Some(out),
    };
    match x.flat() {
        Value::Array(a) => {
            let ghost m = values_model(a@);
            proof {
                array_model(*a);
            }
            let mut k: usize = 0;
            while k < a.len()
                invariant
                    k <= a@.len(),
                    m == values_model(a@),
                    v matches Some(y) && y.model().inner() == ValueView::Array(m),
                    pairs_of(m, k as int) == Some(pair_views(out@)),
                decreases a@.len() - k,
            {
                match read_pair(&a[k]) {
                    Some(p) => {
                        let ghost before = out@;
                        out.push(p);
                        assert(pair_views(out@) =~= pair_views(before).push((p.0, p.1@)));
                    },
                    None => {
                        proof {
                            pairs_fail(m, k + 1, m.len() as int);
                        }
                        return None;
                    },
                }
                k += 1;
            }
            Some(out)
        },
        _ => Some(out),
    }
}

fn find_pair(p: &Vec<(i32, Vec<u8>)>, id: i32) -> (r: Option<usize>)
    ensures
        match r {
            Some(i) => i < p@.len() && first_bound(pair_views(p@), id) == Some(p@[i as int].1@),
            None => first_bound(pair_views(p@), id) is None,
        },
{
    let ghost m = pair_views(p@);
    let mut i: usize = 0;
    assert(m.skip(0) =~= m);
    while i < p.len()
        invariant
            i <= p@.len(),
            m == pair_views(p@),
            first_bound(m.skip(i as int), id) == first_bound(m, id),
        decreases p@.len() - i,
    {
        if p[i].0 == id {
            return Some(i);
        }
        assert(m.skip(i as int).skip(1) =~= m.skip(i + 1));
        i += 1;
    }
    None
}

fn join_bounds(lows: &Vec<(i32, Vec<u8>)>, highs: &Vec<(i32, Vec<u8>)>) -> (out: Vec<
    (i32, Vec<u8>, Vec<u8>),
>)
    ensures
        bound_views(out@) == joined(pair_views(lows@), pair_views(highs@), lows@.len() as int),
{
    let ghost lm = pair_views(lows@);
    let ghost hm = pair_views(highs@);
    let mut out: Vec<(i32, Vec<u8>, Vec<u8>)> = Vec::new();
    let mut k: usize = 0;
    assert(bound_views(out@) =~= Seq::empty());
    while k < lows.len()
        invariant
            k <= lows@.len(),
            lm == pair_views(lows@),
            hm == pair_views(highs@),
            bound_views(out@) == joined(lm, hm, k as int),
        decreases lows@.len() - k,
    {
        let id: i32 = lows[k].0;
        if let Some(i) = find_pair(highs, id) {
            let lower: Vec<u8> = crate::wire::copy_range(lows[k].1.as_slice(), 0, lows[k].1.len());
            let upper: Vec<u8> = crate::wire::copy_range(highs[i].1.as_slice(), 0, highs[i].1.len());
            assert(lower@ =~= lm[k as int].1);
            assert(upper@ =~= highs@[i as int].1@);
            let ghost before = out@;
            let b: (i32, Vec<u8>, Vec<u8>) = (id, lower, upper);
            out.push(b);
            assert(bound_views(out@) =~= bound_views(before).push(
                BoundView { id, lower: lower@, upper: upper@ },
            ));
        }
        k += 1;
    }
    out
}

fn long_or_zero(v: &Value) -> (n: i64)
    ensures
        n == number_or_zero(v.model()),
{
    match v.as_long() {
        Some(n) => n,
        None => 0,
    }
}

fn read_file(df: &Value) -> (r: Option<DataFile>)
    ensures
        match (r, file_in(df.model())) {
            (Some(f), Some(w)) => f@ == w,
            (None, None) => true,
            _ => false,
        },
{
    let lows: Vec<(i32, Vec<u8>)> = match read_bounds(df.field("lower_bounds")) {
        Some(p) => p,
        None => return None,
    };
    let highs: Vec<(i32, Vec<u8>)> = match read_bounds(df.field("upper_bounds")) {
        Some(p) => p,
        None => return None,
    };
    match (df.field("file_path"), df.field("file_size_in_bytes"), df.field("record_count")) {
        (Some(path), Some(size), Some(count)) => match path.as_str() {
            Some(p) => Some(
                DataFile {
                    path: p.to_owned(),
                    file_size: long_or_zero(size),
                    record_count: long_or_zero(count),
                    bounds: join_bounds(&lows, &highs),
                },
            ),
            None => None,
        },
        _ => None,
    }
}

/// Appends the files that the entries of a manifest add.
pub fn read_entries(rows: &Vec<Value>, out: &mut Vec<DataFile>) -> (r: bool)
    ensures
        match files_in(values_model(rows@), rows@.len() as int) {
            Some(f) => r && file_views(final(out)@) == file_views(old(out)@) + f,
            None => !r,
        },
{
    let ghost m = values_model(rows@);
    let ghost start = file_views(out@);
    let mut k: usize = 0;
    assert(start + Seq::<FileView>::empty() =~= start);
    while k < rows.len()
        invariant
            k <= rows@.len(),
            m == values_model(rows@),
            files_in(m, k as int) matches Some(f) && file_views(out@) == start + f,
            start == file_views(old(out)@),
        decreases rows@.len() - k,
    {
        let ghost f0 = files_in(m, k as int)->Some_0;
        let ghost before = out@;
        let e: &Value = &rows[k];
        let status: i32 = match e.field("status") {
            Some(s) => read_int_or(s, 1),
            None => {
                proof {
                    files_fail(m, k + 1, m.len() as int);
                }
                return false;
            },
        };
        if status != DELETED {
            let f: Option<DataFile> = match e.field("data_file") {
                Some(df) => read_file(df),
                None => None,
            };
            match f {
                Some(f) => {
                    out.push(f);
                    proof {
                        file_views_push(before, f);
                        assert((start + f0).push(f@) =~= start + (f0 + seq![f@]));
                    }
                },
                None => {
                    proof {
                        files_fail(m, k + 1, m.len() as int);
                    }
                    return false;
                },
            }
        } else {
            assert(f0 + Seq::<FileView>::empty() =~= f0);
        }
        k += 1;
    }
    true
}

/// Where the manifests of a list are.
pub fn read_list(rows: &Vec<Value>) -> (r: Option<Vec<String>>)
    ensures
        match (r, paths_in(values_model(rows@), rows@.len() as int)) {
            (Some(p), Some(w)) => strs(p@) == w,
            (None, None) => true,
            _ => false,
        },
{
    let ghost m = values_model(rows@);
    let mut out: Vec<String> = Vec::new();
    let mut k: usize = 0;
    assert(strs(out@) =~= Seq::empty());
    while k < rows.len()
        invariant
            k <= rows@.len(),
            m == values_model(rows@),
            paths_in(m, k as int) == Some(strs(out@)),
        decreases rows@.len() - k,
    {
        let p: Option<&str> = match rows[k].field("manifest_path") {
            Some(v) => v.as_str(),
            None => None,
        };
        match p {
            Some(t) => {
                let s: String = t.to_owned();
                proof {
                    strs_push(out@, s);
                }
                out.push(s);
            },
            None => {
                proof {
                    paths_fail(m, k + 1, m.len() as int);
                }
                return None;
            },
        }
        k += 1;
    }
    Some(out)
}

// ---------------------------------------------------------------------------
// The walk from a snapshot to its files
// ---------------------------------------------------------------------------

/// A walk under way: what is still to be read, whether the manifest list has
/// been, and the files found so far.
#[verifier::ext_equal]
pub struct WalkView {
    pub pending: Seq<Seq<char>>,
    pub listed: bool,
    pub files: Seq<FileView>,
}

/// The manifest list of a snapshot.
pub open spec fn list_of(snaps: Seq<SnapshotRef>, id: i64) -> Option<Seq<char>>
    decreases snaps.len(),
{
    if snaps.len() == 0 {
        None
    } else if snaps[0].id == id {
        Some(snaps[0].manifest_list)
    } else {
        list_of(snaps.skip(1), id)
    }
}

/// The walk of a table's current snapshot. There is none where the table does
/// not list that snapshot.
pub open spec fn walk_of(t: TableView) -> Option<WalkView> {
    match t.current_snapshot {
        None => Some(WalkView { pending: Seq::empty(), listed: true, files: Seq::empty() }),
        Some(id) => match list_of(t.snapshots, id) {
            None => None,
            Some(p) => Some(WalkView { pending: seq![p], listed: false, files: Seq::empty() }),
        },
    }
}

/// A walk after the bytes of what it wanted were read.
pub open spec fn fed(w: WalkView, b: Seq<u8>) -> Result<WalkView, ReadError> {
    match rd_container(b) {
        Err(e) => Err(e),
        Ok((_, rows)) => if !w.listed {
            match paths_in(rows, rows.len() as int) {
                None => Err(ReadError::Malformed),
                Some(p) => Ok(WalkView { pending: p, listed: true, files: w.files }),
            }
        } else {
            match files_in(rows, rows.len() as int) {
                None => Err(ReadError::Malformed),
                Some(f) => Ok(
                    WalkView { pending: w.pending.skip(1), listed: true, files: w.files + f },
                ),
            }
        },
    }
}

pub struct Walk {
    pub pending: Vec<String>,
    pub at: usize,
    pub listed: bool,
    pub files: Vec<DataFile>,
}

impl View for Walk {
    type V = WalkView;

    open spec fn view(&self) -> WalkView {
        WalkView {
            pending: strs(self.pending@).skip(self.at as int),
            listed: self.listed,
            files: file_views(self.files@),
        }
    }
}

impl Walk {
    pub open spec fn wf(self) -> bool {
        self.at <= self.pending@.len()
    }

    /// What is to be read next, if anything.
    pub fn wanted(&self) -> (r: Option<&str>)
        requires
            self.wf(),
        ensures
            match r {
                Some(p) => self@.pending.len() > 0 && p@ == self@.pending[0],
                None => self@.pending.len() == 0,
            },
    {
        if self.at < self.pending.len() {
            Some(self.pending[self.at].as_str())
        } else {
            None
        }
    }

    /// Takes the bytes of what was wanted.
    pub fn feed(&mut self, b: &[u8]) -> (r: Result<(), ReadError>)
        requires
            old(self).wf(),
            old(self)@.pending.len() > 0,
        ensures
            final(self).wf(),
            match (r, fed(old(self)@, b@)) {
                (Ok(_), Ok(w)) => final(self)@ == w,
                (Err(x), Err(y)) => x == y,
                _ => false,
            },
    {
        let n: usize = self.pending.len();
        assert(self.at < n);
        match read_container(b) {
            Err(e) => Err(e),
            Ok((_, rows)) => {
                if !self.listed {
                    match read_list(&rows) {
                        Some(p) => {
                            proof {
                                assert(strs(p@).skip(0) =~= strs(p@));
                            }
                            self.pending = p;
                            self.at = 0;
                            self.listed = true;
                            Ok(())
                        },
                        None => Err(ReadError::Malformed),
                    }
                } else if read_entries(&rows, &mut self.files) {
                    proof {
                        let all = strs(self.pending@);
                        assert(all.skip(self.at as int).skip(1) =~= all.skip(self.at + 1));
                    }
                    self.at = self.at + 1;
                    Ok(())
                } else {
                    Err(ReadError::Malformed)
                }
            },
        }
    }
}

/// Starts the walk from a table's current snapshot through its manifest list
/// and its manifests to its data files.
pub fn plan_files(meta: &TableMeta) -> (r: Option<Walk>)
    ensures
        match (r, walk_of(meta@)) {
            (Some(w), Some(v)) => w.wf() && w@ == v,
            (None, None) => true,
            _ => false,
        },
{
    let mut pending: Vec<String> = Vec::new();
    let files: Vec<DataFile> = Vec::new();
    assert(file_views(files@) =~= Seq::empty());
    let cur: i64 = match meta.current_snapshot {
        None => {
            assert(strs(pending@).skip(0) =~= Seq::empty());
            return Some(Walk { pending, at: 0, listed: true, files });
        },
        Some(c) => c,
    };
    let ghost snaps = meta@.snapshots;
    let mut i: usize = 0;
    assert(snaps.skip(0) =~= snaps);
    while i < meta.snapshots.len()
        invariant
            i <= meta.snapshots@.len(),
            snaps == meta@.snapshots,
            meta.current_snapshot == Some(cur),
            pending@.len() == 0,
            file_views(files@) == Seq::<FileView>::empty(),
            list_of(snaps.skip(i as int), cur) == list_of(snaps, cur),
        decreases meta.snapshots@.len() - i,
    {
        if meta.snapshots[i].0 == cur {
            let p: String = meta.snapshots[i].1.clone();
            assert(snaps.skip(i as int)[0] == snaps[i as int]);
            pending.push(p);
            assert(strs(pending@).skip(0) =~= seq![p@]);
            return Some(Walk { pending, at: 0, listed: false, files });
        }
        assert(snaps.skip(i as int).skip(1) =~= snaps.skip(i + 1));
        i += 1;
    }
    None
}

/// The files a walk comes to on a disk.
pub open spec fn walked(w: WalkView, disk: spec_fn(Seq<char>) -> Seq<u8>) -> Result<
    Seq<FileView>,
    ReadError,
>
    decreases
            if w.listed {
                0int
            } else {
                1int
            },
            w.pending.len(),
{
    if w.pending.len() == 0 {
        Ok(w.files)
    } else {
        match fed(w, disk(w.pending[0])) {
            Err(e) => Err(e),
            Ok(n) => walked(n, disk),
        }
    }
}

// ---------------------------------------------------------------------------
// The files written are the files planned
// ---------------------------------------------------------------------------

/// Whether bounds are told apart by their field: no field has two different
/// upper bounds.
pub open spec fn joinable(b: Seq<BoundView>) -> bool {
    forall|i: int, k: int|
        0 <= i < b.len() && 0 <= k < b.len() && (#[trigger] b[i]).id == (#[trigger] b[k]).id
            ==> b[i].upper == b[k].upper
}

proof fn field_at(f: Seq<(Seq<char>, ValueView)>, k: int)
    requires
        0 <= k < f.len(),
        forall|i: int| 0 <= i < k ==> (#[trigger] f[i]).0 != f[k].0,
    ensures
        value_at(f, f[k].0) == Some(f[k].1),
    decreases k,
{
    if k > 0 {
        assert(f[0].0 != f[k].0);
        let g = f.skip(1);
        assert forall|i: int| 0 <= i < k - 1 implies (#[trigger] g[i]).0 != g[k - 1].0 by {
            assert(g[i] == f[i + 1]);
        }
        field_at(g, k - 1);
    }
}

proof fn item_read(id: i32, b: Seq<u8>)
    ensures
        pair_of(bound_item(id, b)) == Some((id, b)),
{
    reveal_strlit("key");
    reveal_strlit("value");
    let f = bound_item(id, b)->Record_0;
    assert("key"@.len() != "value"@.len());
    field_at(f, 0);
    field_at(f, 1);
    assert(ValueView::Bytes(b).inner() == ValueView::Bytes(b));
    assert(ValueView::Int(id).inner() == ValueView::Int(id));
}

pub open spec fn halves(b: Seq<BoundView>, upper: bool) -> Seq<(i32, Seq<u8>)> {
    Seq::new(
        b.len(),
        |i: int|
            (
                b[i].id,
                if upper {
                    b[i].upper
                } else {
                    b[i].lower
                },
            ),
    )
}

proof fn pairs_read(b: Seq<BoundView>, upper: bool, k: int)
    requires
        0 <= k <= b.len(),
    ensures
        pairs_of(bounds_value(b, upper)->Union_1->Array_0, k) == Some(halves(b, upper).take(k)),
    decreases k,
{
    if k > 0 {
        pairs_read(b, upper, k - 1);
        let h = halves(b, upper);
        item_read(h[k - 1].0, h[k - 1].1);
        assert(h.take(k) =~= h.take(k - 1).push(h[k - 1]));
    } else {
        assert(halves(b, upper).take(0) =~= Seq::empty());
    }
}

proof fn bounds_read(b: Seq<BoundView>, upper: bool)
    ensures
        bounds_in(Some(bounds_value(b, upper))) == Some(halves(b, upper)),
{
    pairs_read(b, upper, b.len() as int);
    let v = bounds_value(b, upper);
    let a = *v->Union_1;
    assert(a.inner() == a);
    assert(v.inner() == a);
    assert(halves(b, upper).take(b.len() as int) =~= halves(b, upper));
}

proof fn first_is(p: Seq<(i32, Seq<u8>)>, k: int)
    requires
        0 <= k < p.len(),
        forall|i: int| 0 <= i < p.len() && (#[trigger] p[i]).0 == p[k].0 ==> p[i].1 == p[k].1,
    ensures
        first_bound(p, p[k].0) == Some(p[k].1),
    decreases k,
{
    if p[0].0 != p[k].0 {
        let q = p.skip(1);
        assert forall|i: int| 0 <= i < q.len() && (#[trigger] q[i]).0 == q[k - 1].0 implies q[i].1
            == q[k - 1].1 by {
            assert(q[i] == p[i + 1]);
        }
        first_is(q, k - 1);
    }
}

proof fn join_read(b: Seq<BoundView>, k: int)
    requires
        0 <= k <= b.len(),
        joinable(b),
    ensures
        joined(halves(b, false), halves(b, true), k) == b.take(k),
    decreases k,
{
    if k > 0 {
        join_read(b, k - 1);
        let h = halves(b, true);
        assert forall|i: int| 0 <= i < h.len() && (#[trigger] h[i]).0 == h[k - 1].0 implies h[i].1
            == h[k - 1].1 by {
            assert(b[i].id == b[k - 1].id);
        }
        first_is(h, k - 1);
        assert(b.take(k) =~= b.take(k - 1).push(b[k - 1]));
    } else {
        assert(b.take(0) =~= Seq::empty());
    }
}

proof fn file_names()
    ensures
        "content"@.len() == 7,
        "file_path"@.len() == 9,
        "file_format"@.len() == 11,
        "partition"@.len() == 9 && "partition"@[0] == 'p' && "file_path"@[0] == 'f',
        "record_count"@.len() == 12 && "record_count"@[0] == 'r',
        "file_size_in_bytes"@.len() == 18,
        "lower_bounds"@.len() == 12 && "lower_bounds"@[0] == 'l',
        "upper_bounds"@.len() == 12 && "upper_bounds"@[0] == 'u',
        "status"@.len() == 6,
        "snapshot_id"@.len() == 11,
        "data_file"@.len() == 9,
{
    reveal_strlit("content");
    reveal_strlit("file_path");
    reveal_strlit("file_format");
    reveal_strlit("partition");
    reveal_strlit("record_count");
    reveal_strlit("file_size_in_bytes");
    reveal_strlit("lower_bounds");
    reveal_strlit("upper_bounds");
    reveal_strlit("status");
    reveal_strlit("snapshot_id");
    reveal_strlit("data_file");
}

/// A data file is read back from the entry that adds it.
pub proof fn entry_read_back(f: FileView, snapshot_id: i64)
    requires
        joinable(f.bounds),
    ensures
        entry_files(entry(f, snapshot_id)) == Some(seq![f]),
{
    file_names();
    let fv = file_value(f)->Record_0;
    field_at(fv, 1);
    field_at(fv, 4);
    field_at(fv, 5);
    field_at(fv, 6);
    field_at(fv, 7);
    bounds_read(f.bounds, false);
    bounds_read(f.bounds, true);
    join_read(f.bounds, f.bounds.len() as int);
    assert(f.bounds.take(f.bounds.len() as int) =~= f.bounds);
    let ev = entry(f, snapshot_id)->Record_0;
    field_at(ev, 0);
    field_at(ev, 2);
    assert(ValueView::String(f.path).inner() == ValueView::String(f.path));
    assert(ValueView::Long(f.file_size).inner() == ValueView::Long(f.file_size));
    assert(ValueView::Long(f.record_count).inner() == ValueView::Long(f.record_count));
    assert(ValueView::Int(1).inner() == ValueView::Int(1));
    assert(file_in(file_value(f)) == Some(f));
}

proof fn files_read(files: Seq<FileView>, snapshot_id: i64, k: int)
    requires
        0 <= k <= files.len(),
        forall|i: int| 0 <= i < files.len() ==> joinable((#[trigger] files[i]).bounds),
    ensures
        files_in(entries(files, snapshot_id), k) == Some(files.take(k)),
    decreases k,
{
    if k > 0 {
        files_read(files, snapshot_id, k - 1);
        entry_read_back(files[k - 1], snapshot_id);
        assert(entries(files, snapshot_id)[k - 1] == entry(files[k - 1], snapshot_id));
        assert(files.take(k) =~= files.take(k - 1) + seq![files[k - 1]]);
    } else {
        assert(files.take(0) =~= Seq::empty());
    }
}

pub open spec fn listed_paths(m: Seq<ListedView>) -> Seq<Seq<char>> {
    Seq::new(m.len(), |i: int| m[i].path)
}

proof fn paths_read(m: Seq<ListedView>, snapshot_id: i64, seq: i64, k: int)
    requires
        0 <= k <= m.len(),
    ensures
        paths_in(listing(m, snapshot_id, seq), k) == Some(listed_paths(m).take(k)),
    decreases k,
{
    if k > 0 {
        paths_read(m, snapshot_id, seq, k - 1);
        let row = listed(m[k - 1], snapshot_id, seq);
        field_at(row->Record_0, 0);
        assert(ValueView::String(m[k - 1].path).inner() == ValueView::String(m[k - 1].path));
        assert(listing(m, snapshot_id, seq)[k - 1] == row);
        assert(listed_paths(m).take(k) =~= listed_paths(m).take(k - 1).push(m[k - 1].path));
    } else {
        assert(listed_paths(m).take(0) =~= Seq::empty());
    }
}

/// The values of a file, if it can be read.
pub open spec fn rows_of(b: Seq<u8>) -> Option<Seq<ValueView>> {
    match rd_container(b) {
        Ok((_, rows)) => Some(rows),
        Err(_) => None,
    }
}

/// Whether a disk holds a manifest that adds some files.
pub open spec fn holds_manifest(
    disk: spec_fn(Seq<char>) -> Seq<u8>,
    path: Seq<char>,
    files: Seq<FileView>,
) -> bool {
    &&& exists|id: i64| rows_of(disk(path)) == Some(#[trigger] entries(files, id))
    &&& forall|i: int| 0 <= i < files.len() ==> joinable((#[trigger] files[i]).bounds)
}

/// The files of the manifests from `k` on.
pub open spec fn files_from(groups: Seq<Seq<FileView>>, k: int) -> Seq<FileView>
    decreases groups.len() - k,
{
    if k < 0 || k >= groups.len() {
        Seq::empty()
    } else {
        groups[k] + files_from(groups, k + 1)
    }
}

proof fn manifest_fed(w: WalkView, g: Seq<FileView>, id: i64, b: Seq<u8>)
    requires
        w.listed,
        rows_of(b) == Some(entries(g, id)),
        forall|i: int| 0 <= i < g.len() ==> joinable((#[trigger] g[i]).bounds),
    ensures
        fed(w, b) == Ok::<WalkView, ReadError>(
            WalkView { pending: w.pending.skip(1), listed: true, files: w.files + g },
        ),
{
    files_read(g, id, g.len() as int);
    assert(g.take(g.len() as int) =~= g);
    assert(entries(g, id).len() == g.len());
}

proof fn manifests_walked(
    paths: Seq<Seq<char>>,
    groups: Seq<Seq<FileView>>,
    k: int,
    found: Seq<FileView>,
    disk: spec_fn(Seq<char>) -> Seq<u8>,
)
    requires
        0 <= k <= paths.len(),
        paths.len() == groups.len(),
        forall|i: int| 0 <= i < paths.len() ==> holds_manifest(disk, #[trigger] paths[i], groups[i]),
    ensures
        walked(WalkView { pending: paths.skip(k), listed: true, files: found }, disk) == Ok::<
            Seq<FileView>,
            ReadError,
        >(found + files_from(groups, k)),
    decreases paths.len() - k,
{
    let w = WalkView { pending: paths.skip(k), listed: true, files: found };
    if k == paths.len() {
        assert(found + files_from(groups, k) =~= found);
    } else {
        let path = paths[k];
        let g = groups[k];
        assert(holds_manifest(disk, path, g));
        let id = choose|id: i64| rows_of(disk(path)) == Some(#[trigger] entries(g, id));
        manifest_fed(w, g, id, disk(path));
        assert(w.pending[0] == path);
        assert(paths.skip(k).skip(1) =~= paths.skip(k + 1));
        let n = WalkView { pending: paths.skip(k + 1), listed: true, files: found + g };
        assert(fed(w, disk(path)) == Ok::<WalkView, ReadError>(n));
        manifests_walked(paths, groups, k + 1, found + g, disk);
        assert(found + g + files_from(groups, k + 1) =~= found + files_from(groups, k));
    }
}

/// A snapshot whose manifests and manifest list are on a disk is planned to
/// exactly the files that its manifests add, in their order.
pub proof fn written_files_are_planned(
    t: TableView,
    list: Seq<char>,
    m: Seq<ListedView>,
    snapshot_id: i64,
    seq: i64,
    groups: Seq<Seq<FileView>>,
    disk: spec_fn(Seq<char>) -> Seq<u8>,
)
    requires
        t.current_snapshot matches Some(id) && list_of(t.snapshots, id) == Some(list),
        rows_of(disk(list)) == Some(listing(m, snapshot_id, seq)),
        m.len() == groups.len(),
        forall|i: int| 0 <= i < m.len() ==> holds_manifest(disk, (#[trigger] m[i]).path, groups[i]),
    ensures
        walk_of(t) matches Some(w) && walked(w, disk) == Ok::<Seq<FileView>, ReadError>(
            files_from(groups, 0),
        ),
{
    let w = walk_of(t)->Some_0;
    assert(w.pending[0] == list);
    let paths = listed_paths(m);
    paths_read(m, snapshot_id, seq, m.len() as int);
    assert(paths.take(m.len() as int) =~= paths);
    assert(paths.skip(0) =~= paths);
    assert(listing(m, snapshot_id, seq).len() == m.len());
    let n = WalkView { pending: paths, listed: true, files: Seq::empty() };
    assert(fed(w, disk(list)) == Ok::<WalkView, ReadError>(n));
    assert forall|i: int| 0 <= i < paths.len() implies holds_manifest(
        disk,
        #[trigger] paths[i],
        groups[i],
    ) by {
        assert(paths[i] == m[i].path);
    }
    manifests_walked(paths, groups, 0, Seq::empty(), disk);
    assert(Seq::<FileView>::empty() + files_from(groups, 0) =~= files_from(groups, 0));
}

/// Whether the walk from a table's current snapshot over a disk finds some
/// files.
pub open spec fn plans(
    t: TableView,
    disk: spec_fn(Seq<char>) -> Seq<u8>,
    files: Seq<FileView>,
) -> bool {
    walk_of(t) matches Some(w) && walked(w, disk) == Ok::<Seq<FileView>, ReadError>(files)
}

/// A table without a snapshot is planned to no files.
pub proof fn no_snapshot_no_files(t: TableView, disk: spec_fn(Seq<char>) -> Seq<u8>)
    requires
        t.current_snapshot is None,
    ensures
        plans(t, disk, Seq::empty()),
{
}

/// One manifest and its list are planned to the files of that manifest.
pub proof fn one_manifest_is_planned(
    t: TableView,
    list: Seq<char>,
    m: ListedView,
    snapshot_id: i64,
    seq: i64,
    files: Seq<FileView>,
    disk: spec_fn(Seq<char>) -> Seq<u8>,
)
    requires
        t.current_snapshot matches Some(id) && list_of(t.snapshots, id) == Some(list),
        rows_of(disk(list)) == Some(listing(seq![m], snapshot_id, seq)),
        holds_manifest(disk, m.path, files),
    ensures
        plans(t, disk, files),
{
    written_files_are_planned(t, list, seq![m], snapshot_id, seq, seq![files], disk);
    let g = seq![files];
    assert(files_from(g, 1) =~= Seq::empty());
    assert(files_from(g, 0) =~= files);
}

} // verus!
