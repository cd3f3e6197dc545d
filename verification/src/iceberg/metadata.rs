//! The metadata document of a table.
use crate::doc::{compact_json, json_compact, json_pretty, plain, pretty_json, MAX_DEPTH};
use crate::format::meta::DataType;
use crate::iceberg::number::integers_stay;
use crate::iceberg::json::{
    arr_model, items_model, json_read_back, member, members_model, numbers_spelled, obj, obj_model,
    parse, parsed, rendered, Json, JsonView,
};
use crate::iceberg::table::{
    append_snapshot, appended, field_views, metadata_path, metadata_path_of, snapshot_views, Field, FieldSpec, SnapshotRef,
    TableMeta, TableView,
};
use crate::store::{open, warehouse_of, Warehouse};
use crate::text::{
    bytes_lt, dec, dec_int, dec_read_back, i64_text, parse_i64, parsed_i64, push_dec, str_eq,
    text_lt, text_lt_total,
};
use vstd::prelude::*;
use vstd::utf8::encode_utf8;

verus! {

// ---------------------------------------------------------------------------
// Writing
// ---------------------------------------------------------------------------

/// When the first snapshot of a table is dated, in milliseconds.
pub const EPOCH_MS: i64 = 1750000000000;

/// How a column type is named.
pub open spec fn type_word(d: DataType) -> Seq<char> {
    match d {
        DataType::Int64 => "long"@,
        DataType::Utf8 => "string"@,
    }
}

pub open spec fn num(n: int) -> JsonView {
    JsonView::Num(dec_int(n))
}

pub open spec fn snapshot_doc(s: SnapshotRef, i: int) -> JsonView {
    JsonView::Obj(
        seq![
            ("manifest-list"@, JsonView::Str(s.manifest_list)),
            ("schema-id"@, num(0)),
            ("sequence-number"@, num(i + 1)),
            ("snapshot-id"@, num(s.id as int)),
            ("summary"@, JsonView::Obj(seq![("operation"@, JsonView::Str("append"@))])),
            ("timestamp-ms"@, num(EPOCH_MS + i)),
        ],
    )
}

pub open spec fn field_doc(f: FieldSpec) -> JsonView {
    JsonView::Obj(
        seq![
            ("id"@, num(f.id as int)),
            ("name"@, JsonView::Str(f.name)),
            ("required"@, JsonView::Bool(true)),
            ("type"@, JsonView::Str(type_word(f.dtype))),
        ],
    )
}

pub open spec fn fields_doc(f: Seq<FieldSpec>) -> Seq<JsonView> {
    Seq::new(f.len(), |i: int| field_doc(f[i]))
}

pub open spec fn snapshots_doc(s: Seq<SnapshotRef>) -> Seq<JsonView> {
    Seq::new(s.len(), |i: int| snapshot_doc(s[i], i))
}

pub open spec fn schema_doc(f: Seq<FieldSpec>) -> JsonView {
    JsonView::Obj(
        seq![
            ("fields"@, JsonView::Arr(fields_doc(f))),
            ("schema-id"@, num(0)),
            ("type"@, JsonView::Str("struct"@)),
        ],
    )
}

/// A spec or an order of no fields.
pub open spec fn empty_doc(id_name: Seq<char>) -> JsonView {
    JsonView::Obj(seq![("fields"@, JsonView::Arr(Seq::empty())), (id_name, num(0))])
}

/// The greatest id of the first `k` fields.
pub open spec fn greatest(f: Seq<FieldSpec>, k: int) -> int
    decreases k,
{
    if k <= 0 {
        0
    } else if k == 1 || f[k - 1].id > greatest(f, k - 1) {
        f[k - 1].id as int
    } else {
        greatest(f, k - 1)
    }
}

pub open spec fn current_doc(s: Option<i64>) -> JsonView {
    match s {
        Some(id) => num(id as int),
        None => JsonView::Null,
    }
}

/// The document of a table.
pub open spec fn metadata_doc(t: TableView) -> JsonView {
    JsonView::Obj(
        seq![
            ("current-schema-id"@, num(0)),
            ("current-snapshot-id"@, current_doc(t.current_snapshot)),
            ("default-sort-order-id"@, num(0)),
            ("default-spec-id"@, num(0)),
            ("format-version"@, num(2)),
            ("last-column-id"@, num(greatest(t.fields, t.fields.len() as int))),
            ("last-partition-id"@, num(999)),
            ("last-sequence-number"@, num(t.last_sequence_number as int)),
            ("last-updated-ms"@, num(EPOCH_MS as int)),
            ("location"@, JsonView::Str(t.location)),
            ("partition-specs"@, JsonView::Arr(seq![empty_doc("spec-id"@)])),
            ("refs"@, JsonView::Obj(Seq::empty())),
            ("schemas"@, JsonView::Arr(seq![schema_doc(t.fields)])),
            ("snapshots"@, JsonView::Arr(snapshots_doc(t.snapshots))),
            ("sort-orders"@, JsonView::Arr(seq![empty_doc("order-id"@)])),
            ("table-uuid"@, JsonView::Str(t.uuid)),
        ],
    )
}

fn new_members() -> (o: Vec<(String, Json)>)
    ensures
        members_model(o@) == Seq::<(Seq<char>, JsonView)>::empty(),
{
    let o: Vec<(String, Json)> = Vec::new();
    assert(members_model(o@) =~= Seq::empty());
    o
}

fn push_member(o: &mut Vec<(String, Json)>, name: &str, j: Json)
    ensures
        members_model(final(o)@) == members_model(old(o)@).push((name@, j.model())),
{
    o.push((name.to_owned(), j));
    assert(members_model(o@) =~= members_model(old(o)@).push((name@, j.model())));
}

fn number(n: i64) -> (j: Json)
    ensures
        j.model() == num(n as int),
{
    Json::Num(i64_text(n))
}

fn words(s: &str) -> (j: Json)
    ensures
        j.model() == JsonView::Str(s@),
{
    Json::Str(s.to_owned())
}

fn type_str(d: DataType) -> (s: &'static str)
    ensures
        s@ == type_word(d),
{
    match d {
        DataType::Int64 => "long",
        DataType::Utf8 => "string",
    }
}

fn single(j: Json) -> (r: Json)
    ensures
        r.model() == JsonView::Arr(seq![j.model()]),
{
    let mut a: Vec<Json> = Vec::new();
    a.push(j);
    proof {
        arr_model(a);
        assert(items_model(a@) =~= seq![j.model()]);
    }
    Json::Arr(a)
}

fn empty_list() -> (r: Json)
    ensures
        r.model() == JsonView::Arr(Seq::empty()),
{
    let a: Vec<Json> = Vec::new();
    proof {
        arr_model(a);
        assert(items_model(a@) =~= Seq::empty());
    }
    Json::Arr(a)
}

fn empty_json(id_name: &str) -> (r: Json)
    ensures
        r.model() == empty_doc(id_name@),
{
    let mut o: Vec<(String, Json)> = new_members();
    push_member(&mut o, "fields", empty_list());
    push_member(&mut o, id_name, number(0));
    assert(members_model(o@) =~= empty_doc(id_name@)->Obj_0);
    obj(o)
}

fn field_json(f: &Field) -> (r: Json)
    ensures
        r.model() == field_doc(f@),
{
    let mut o: Vec<(String, Json)> = new_members();
    push_member(&mut o, "id", number(f.id as i64));
    push_member(&mut o, "name", words(f.name.as_str()));
    push_member(&mut o, "required", Json::Bool(true));
    push_member(&mut o, "type", words(type_str(f.dtype)));
    assert(members_model(o@) =~= field_doc(f@)->Obj_0);
    obj(o)
}

fn snapshot_json(id: i64, list: &str, i: i64) -> (r: Json)
    requires
        0 <= i < i64::MAX - EPOCH_MS,
    ensures
        r.model() == snapshot_doc(SnapshotRef { id, manifest_list: list@ }, i as int),
{
    let mut s: Vec<(String, Json)> = new_members();
    push_member(&mut s, "operation", words("append"));
    assert(members_model(s@) =~= seq![("operation"@, JsonView::Str("append"@))]);
    let mut o: Vec<(String, Json)> = new_members();
    push_member(&mut o, "manifest-list", words(list));
    push_member(&mut o, "schema-id", number(0));
    push_member(&mut o, "sequence-number", number(i + 1));
    push_member(&mut o, "snapshot-id", number(id));
    push_member(&mut o, "summary", obj(s));
    push_member(&mut o, "timestamp-ms", number(EPOCH_MS + i));
    assert(members_model(o@) =~= snapshot_doc(
        SnapshotRef { id, manifest_list: list@ },
        i as int,
    )->Obj_0);
    obj(o)
}

fn fields_json(fields: &Vec<Field>) -> (r: Json)
    ensures
        r.model() == JsonView::Arr(fields_doc(field_views(fields@))),
{
    let ghost want = fields_doc(field_views(fields@));
    let mut a: Vec<Json> = Vec::new();
    let mut k: usize = 0;
    while k < fields.len()
        invariant
            k <= fields@.len(),
            want == fields_doc(field_views(fields@)),
            a@.len() == k,
            forall|i: int| 0 <= i < k ==> (#[trigger] a@[i]).model() == want[i],
        decreases fields@.len() - k,
    {
        a.push(field_json(&fields[k]));
        k += 1;
    }
    proof {
        arr_model(a);
        assert(items_model(a@) =~= want);
    }
    Json::Arr(a)
}

fn snapshots_json(snaps: &Vec<(i64, String)>) -> (r: Json)
    requires
        snaps@.len() < i64::MAX - EPOCH_MS,
    ensures
        r.model() == JsonView::Arr(snapshots_doc(snapshot_views(snaps@))),
{
    let ghost want = snapshots_doc(snapshot_views(snaps@));
    let mut a: Vec<Json> = Vec::new();
    let mut k: usize = 0;
    while k < snaps.len()
        invariant
            k <= snaps@.len() < i64::MAX - EPOCH_MS,
            want == snapshots_doc(snapshot_views(snaps@)),
            a@.len() == k,
            forall|i: int| 0 <= i < k ==> (#[trigger] a@[i]).model() == want[i],
        decreases snaps@.len() - k,
    {
        let j: Json = snapshot_json(snaps[k].0, snaps[k].1.as_str(), k as i64);
        assert(j.model() == want[k as int]);
        a.push(j);
        k += 1;
    }
    proof {
        arr_model(a);
        assert(items_model(a@) =~= want);
    }
    Json::Arr(a)
}

fn greatest_id(fields: &Vec<Field>) -> (r: i64)
    ensures
        r == greatest(field_views(fields@), fields@.len() as int),
{
    let ghost f = field_views(fields@);
    let mut r: i64 = 0;
    let mut k: usize = 0;
    while k < fields.len()
        invariant
            k <= fields@.len(),
            f == field_views(fields@),
            r == greatest(f, k as int),
        decreases fields@.len() - k,
    {
        let id: i64 = fields[k].id as i64;
        if k == 0 || id > r {
            r = id;
        }
        k += 1;
    }
    r
}

fn schema_json(fields: &Vec<Field>) -> (r: Json)
    ensures
        r.model() == schema_doc(field_views(fields@)),
{
    let mut o: Vec<(String, Json)> = new_members();
    push_member(&mut o, "fields", fields_json(fields));
    push_member(&mut o, "schema-id", number(0));
    push_member(&mut o, "type", words("struct"));
    assert(members_model(o@) =~= schema_doc(field_views(fields@))->Obj_0);
    obj(o)
}

/// The document of a table.
pub fn metadata_json(meta: &TableMeta) -> (r: Json)
    requires
        meta.snapshots@.len() < i64::MAX - EPOCH_MS,
    ensures
        r.model() == metadata_doc(meta@),
{
    let mut o: Vec<(String, Json)> = new_members();
    let current: Json = match meta.current_snapshot {
        Some(id) => number(id),
        None => Json::Null,
    };
    push_member(&mut o, "current-schema-id", number(0));
    push_member(&mut o, "current-snapshot-id", current);
    push_member(&mut o, "default-sort-order-id", number(0));
    push_member(&mut o, "default-spec-id", number(0));
    push_member(&mut o, "format-version", number(2));
    push_member(&mut o, "last-column-id", number(greatest_id(&meta.fields)));
    push_member(&mut o, "last-partition-id", number(999));
    push_member(&mut o, "last-sequence-number", number(meta.last_sequence_number));
    push_member(&mut o, "last-updated-ms", number(EPOCH_MS));
    push_member(&mut o, "location", words(meta.location.as_str()));
    push_member(&mut o, "partition-specs", single(empty_json("spec-id")));
    push_member(&mut o, "refs", obj(new_members()));
    push_member(&mut o, "schemas", single(schema_json(&meta.fields)));
    push_member(&mut o, "snapshots", snapshots_json(&meta.snapshots));
    push_member(&mut o, "sort-orders", single(empty_json("order-id")));
    push_member(&mut o, "table-uuid", words(meta.uuid.as_str()));
    assert(members_model(o@) =~= metadata_doc(meta@)->Obj_0);
    obj(o)
}

// ---------------------------------------------------------------------------
// Reading
// ---------------------------------------------------------------------------

/// A member, or null where there is none.
pub open spec fn at(j: JsonView, k: Seq<char>) -> JsonView {
    match j.at(k) {
        Some(v) => v,
        None => JsonView::Null,
    }
}

pub open spec fn integer(j: JsonView) -> Option<i64> {
    match j {
        JsonView::Num(s) => parsed_i64(s),
        _ => None,
    }
}

/// Whether a compact text spells the floating-point number zero.
pub open spec fn float_zero(s: Seq<char>) -> bool {
    s == "0.0"@ || s == "-0.0"@
}

/// Whether two values are equal. Zero equals zero whatever its sign.
pub open spec fn same(a: JsonView, b: JsonView) -> bool
    decreases a,
{
    match (a, b) {
        (JsonView::Null, JsonView::Null) => true,
        (JsonView::Bool(x), JsonView::Bool(y)) => x == y,
        (JsonView::Num(x), JsonView::Num(y)) => x == y || float_zero(x) && float_zero(y),
        (JsonView::Str(x), JsonView::Str(y)) => x == y,
        (JsonView::Arr(x), JsonView::Arr(y)) => x.len() == y.len() && forall|i: int|
            #![trigger x[i]]
            0 <= i < x.len() ==> same(x[i], y[i]),
        (JsonView::Obj(x), JsonView::Obj(y)) => x.len() == y.len() && forall|i: int|
            #![trigger x[i]]
            0 <= i < x.len() ==> x[i].0 == y[i].0 && same(x[i].1, y[i].1),
        _ => false,
    }
}

/// The column type of a name.
pub open spec fn type_of_name(s: Seq<char>) -> Option<DataType> {
    if s == "long"@ {
        Some(DataType::Int64)
    } else if s == "string"@ {
        Some(DataType::Utf8)
    } else {
        None
    }
}

pub open spec fn field_in(j: JsonView) -> Option<FieldSpec> {
    match (integer(at(j, "id"@)), at(j, "name"@), at(j, "type"@)) {
        (Some(id), JsonView::Str(name), JsonView::Str(ty)) => match type_of_name(ty) {
            Some(dtype) => Some(FieldSpec { id: id as i32, name, dtype }),
            None => None,
        },
        _ => None,
    }
}

/// The first `k` fields.
pub open spec fn fields_in(a: Seq<JsonView>, k: int) -> Option<Seq<FieldSpec>>
    decreases k,
{
    if k <= 0 {
        Some(Seq::empty())
    } else {
        match (fields_in(a, k - 1), field_in(a[k - 1])) {
            (Some(f), Some(x)) => Some(f.push(x)),
            _ => None,
        }
    }
}

pub open spec fn snapshot_in(j: JsonView) -> Option<SnapshotRef> {
    match (integer(at(j, "snapshot-id"@)), at(j, "manifest-list"@)) {
        (Some(id), JsonView::Str(manifest_list)) => Some(SnapshotRef { id, manifest_list }),
        _ => None,
    }
}

/// The first `k` snapshots.
pub open spec fn snapshots_in(a: Seq<JsonView>, k: int) -> Option<Seq<SnapshotRef>>
    decreases k,
{
    if k <= 0 {
        Some(Seq::empty())
    } else {
        match (snapshots_in(a, k - 1), snapshot_in(a[k - 1])) {
            (Some(f), Some(x)) => Some(f.push(x)),
            _ => None,
        }
    }
}

pub open spec fn all_snapshots(j: JsonView) -> Option<Seq<SnapshotRef>> {
    match j {
        JsonView::Arr(a) => snapshots_in(a, a.len() as int),
        _ => Some(Seq::empty()),
    }
}

/// The first schema of an id.
pub open spec fn schema_in(a: Seq<JsonView>, id: JsonView) -> Option<JsonView>
    decreases a.len(),
{
    if a.len() == 0 {
        None
    } else if same(at(a[0], "schema-id"@), id) {
        Some(a[0])
    } else {
        schema_in(a.skip(1), id)
    }
}

/// The fields of a document's current schema.
pub open spec fn current_fields(doc: JsonView) -> Option<Seq<FieldSpec>> {
    match at(doc, "schemas"@) {
        JsonView::Arr(a) => match schema_in(a, at(doc, "current-schema-id"@)) {
            Some(s) => match at(s, "fields"@) {
                JsonView::Arr(f) => fields_in(f, f.len() as int),
                _ => None,
            },
            None => None,
        },
        _ => None,
    }
}

pub open spec fn text_or_empty(j: JsonView) -> Seq<char> {
    match j {
        JsonView::Str(s) => s,
        _ => Seq::empty(),
    }
}

/// The table a document describes. Only the second version of the format is
/// read.
pub open spec fn table_in(doc: JsonView) -> Option<TableView> {
    if integer(at(doc, "format-version"@)) != Some(2i64) {
        None
    } else {
        match (current_fields(doc), all_snapshots(at(doc, "snapshots"@)), at(doc, "location"@)) {
            (Some(fields), Some(snapshots), JsonView::Str(location)) => Some(
                TableView {
                    uuid: text_or_empty(at(doc, "table-uuid"@)),
                    location,
                    fields,
                    current_snapshot: integer(at(doc, "current-snapshot-id"@)),
                    snapshots,
                    last_sequence_number: match integer(at(doc, "last-sequence-number"@)) {
                        Some(n) => n,
                        None => 0,
                    },
                },
            ),
            _ => None,
        }
    }
}

/// Why a document gives no table.
#[derive(Clone, Copy, Debug, PartialEq, Eq, Structural)]
pub enum MetaError {
    /// It is not JSON.
    Json,
    /// It describes no table of the version supported.
    Unsupported,
}

/// The table a compact text describes.
pub open spec fn compact_table(t: Seq<char>) -> Result<TableView, MetaError> {
    match parsed(t) {
        Err(_) => Err(MetaError::Json),
        Ok(j) => match table_in(j) {
            Some(v) => Ok(v),
            None => Err(MetaError::Unsupported),
        },
    }
}

/// The table a text describes.
pub open spec fn text_table(text: Seq<char>) -> Result<TableView, MetaError> {
    match json_compact(text) {
        None => Err(MetaError::Json),
        Some(t) => compact_table(t),
    }
}

pub open spec fn gives(r: Result<TableMeta, MetaError>, want: Result<TableView, MetaError>) -> bool {
    match (r, want) {
        (Ok(m), Ok(v)) => m@ == v,
        (Err(a), Err(b)) => a == b,
        _ => false,
    }
}

proof fn fields_fail(a: Seq<JsonView>, k: int, n: int)
    requires
        k <= n,
        fields_in(a, k) is None,
    ensures
        fields_in(a, n) is None,
    decreases n - k,
{
    if k < n {
        fields_fail(a, k, n - 1);
    }
}

proof fn snapshots_fail(a: Seq<JsonView>, k: int, n: int)
    requires
        k <= n,
        snapshots_in(a, k) is None,
    ensures
        snapshots_in(a, n) is None,
    decreases n - k,
{
    if k < n {
        snapshots_fail(a, k, n - 1);
    }
}

fn int_of(j: &Json) -> (r: Option<i64>)
    ensures
        r == integer(j.model()),
{
    match j.num() {
        Some(s) => parse_i64(s),
        None => None,
    }
}

fn int_at(j: &Json, k: &str) -> (r: Option<i64>)
    ensures
        r == integer(at(j.model(), k@)),
{
    match j.get(k) {
        Some(v) => int_of(v),
        None => None,
    }
}

fn text_at<'a>(j: &'a Json, k: &str) -> (r: Option<&'a str>)
    ensures
        match r {
            Some(t) => at(j.model(), k@) == JsonView::Str(t@),
            None => !(at(j.model(), k@) is Str),
        },
{
    match j.get(k) {
        Some(v) => v.s(),
        None => None,
    }
}

fn is_float_zero(s: &str) -> (r: bool)
    ensures
        r == float_zero(s@),
{
    str_eq(s, "0.0") || str_eq(s, "-0.0")
}

fn is_same(a: &Json, b: &Json) -> (r: bool)
    ensures
        r == same(a.model(), b.model()),
    decreases a.model(),
{
    match (a, b) {
        (Json::Null, Json::Null) => true,
        (Json::Bool(x), Json::Bool(y)) => *x == *y,
        (Json::Num(x), Json::Num(y)) => str_eq(x.as_str(), y.as_str()) || is_float_zero(x.as_str())
            && is_float_zero(y.as_str()),
        (Json::Str(x), Json::Str(y)) => str_eq(x.as_str(), y.as_str()),
        (Json::Arr(x), Json::Arr(y)) => {
            let ghost am = a.model();
            let ghost bm = b.model();
            proof {
                arr_model(*x);
                arr_model(*y);
            }
            if x.len() != y.len() {
                return false;
            }
            let mut k: usize = 0;
            while k < x.len()
                invariant
                    k <= x@.len() == y@.len(),
                    am == a.model(),
                    am == JsonView::Arr(items_model(x@)),
                    bm == b.model(),                    bm == JsonView::Arr(items_model(y@)),
                    forall|i: int|
                        #![trigger am->Arr_0[i]]
                        0 <= i < k ==> same(am->Arr_0[i], bm->Arr_0[i]),
                decreases x@.len() - k,
            {
                assert(decreases_to!(a.model() => a.model()->Arr_0[k as int]));
                assert(am->Arr_0[k as int] == x@[k as int].model());
                if !is_same(&x[k], &y[k]) {
                    return false;
                }
                k += 1;
            }
            true
        },
        (Json::Obj(x), Json::Obj(y)) => {
            let ghost am = a.model();
            let ghost bm = b.model();
            proof {
                obj_model(*x);
                obj_model(*y);
            }
            if x.len() != y.len() {
                return false;
            }
            let mut k: usize = 0;
            while k < x.len()
                invariant
                    k <= x@.len() == y@.len(),
                    am == a.model(),
                    am == JsonView::Obj(members_model(x@)),
                    bm == b.model(),                    bm == JsonView::Obj(members_model(y@)),
                    forall|i: int|
                        #![trigger am->Obj_0[i]]
                        0 <= i < k ==> am->Obj_0[i].0 == bm->Obj_0[i].0 && same(
                            am->Obj_0[i].1,
                            bm->Obj_0[i].1,
                        ),
                decreases x@.len() - k,
            {
                assert(decreases_to!(a.model() => a.model()->Obj_0[k as int].1));
                assert(am->Obj_0[k as int] == (x@[k as int].0@, x@[k as int].1.model()));
                if !str_eq(x[k].0.as_str(), y[k].0.as_str()) || !is_same(&x[k].1, &y[k].1) {
                    return false;
                }
                k += 1;
            }
            true
        },
        _ => false,
    }
}

fn type_of(s: &str) -> (r: Option<DataType>)
    ensures
        r == type_of_name(s@),
{
    if str_eq(s, "long") {
        Some(DataType::Int64)
    } else if str_eq(s, "string") {
        Some(DataType::Utf8)
    } else {
        None
    }
}

fn read_field(j: &Json) -> (r: Option<Field>)
    ensures
        match (r, field_in(j.model())) {
            (Some(f), Some(w)) => f@ == w,
            (None, None) => true,
            _ => false,
        },
{
    match (int_at(j, "id"), text_at(j, "name"), text_at(j, "type")) {
        (Some(id), Some(name), Some(ty)) => match type_of(ty) {
            Some(dtype) => {
                let id32: i32 = #[verifier::truncate] (id as i32);
                Some(Field { id: id32, name: name.to_owned(), dtype })
            },
            None => None,
        },
        _ => None,
    }
}

fn read_fields(a: &Vec<Json>) -> (r: Option<Vec<Field>>)
    ensures
        match (r, fields_in(items_model(a@), a@.len() as int)) {
            (Some(f), Some(w)) => field_views(f@) == w,
            (None, None) => true,
            _ => false,
        },
{
    let ghost m = items_model(a@);
    let mut out: Vec<Field> = Vec::new();
    let mut k: usize = 0;
    assert(field_views(out@) =~= Seq::empty());
    while k < a.len()
        invariant
            k <= a@.len(),
            m == items_model(a@),
            fields_in(m, k as int) == Some(field_views(out@)),
        decreases a@.len() - k,
    {
        match read_field(&a[k]) {
            Some(f) => {
                let ghost before = out@;
                out.push(f);
                assert(field_views(out@) =~= field_views(before).push(f@));
            },
            None => {
                proof {
                    fields_fail(m, k + 1, m.len() as int);
                }
                return None;
            },
        }
        k += 1;
    }
    Some(out)
}

fn read_snapshots(j: Option<&Json>) -> (r: Option<Vec<(i64, String)>>)
    ensures
        match (
            r,
            all_snapshots(
                match j {
                    Some(v) => v.model(),
                    None => JsonView::Null,
                },
            ),
        ) {
            (Some(s), Some(w)) => snapshot_views(s@) == w,
            (None, None) => true,
            _ => false,
        },
{
    let mut out: Vec<(i64, String)> = Vec::new();
    assert(snapshot_views(out@) =~= Seq::empty());
    let v: &Json = match j {
        Some(v) => v,
        None => return Some(out),
    };
    let a: &Vec<Json> = match v.arr() {
        Some(a) => a,
        None => return Some(out),
    };
    let ghost m = items_model(a@);
    let mut k: usize = 0;
    while k < a.len()
        invariant
            k <= a@.len(),
            m == items_model(a@),
            j matches Some(w) && w.model() == JsonView::Arr(m),
            snapshots_in(m, k as int) == Some(snapshot_views(out@)),
        decreases a@.len() - k,
    {
        match (int_at(&a[k], "snapshot-id"), text_at(&a[k], "manifest-list")) {
            (Some(id), Some(list)) => {
                let ghost before = out@;
                let s: (i64, String) = (id, list.to_owned());
                out.push(s);
                assert(snapshot_views(out@) =~= snapshot_views(before).push(
                    SnapshotRef { id, manifest_list: list@ },
                ));
            },
            _ => {
                proof {
                    snapshots_fail(m, k + 1, m.len() as int);
                }
                return None;
            },
        }
        k += 1;
    }
    Some(out)
}

fn find_schema<'a>(a: &'a Vec<Json>, id: &Json) -> (r: Option<&'a Json>)
    ensures
        match (r, schema_in(items_model(a@), id.model())) {
            (Some(s), Some(w)) => s.model() == w,
            (None, None) => true,
            _ => false,
        },
{
    let ghost m = items_model(a@);
    let null: Json = Json::Null;
    let mut k: usize = 0;
    assert(m.skip(0) =~= m);
    while k < a.len()
        invariant
            k <= a@.len(),
            m == items_model(a@),
            null.model() == JsonView::Null,
            schema_in(m.skip(k as int), id.model()) == schema_in(m, id.model()),
        decreases a@.len() - k,
    {
        let own: &Json = match a[k].get("schema-id") {
            Some(v) => v,
            None => &null,
        };
        assert(m.skip(k as int)[0] == a@[k as int].model());
        assert(m.skip(k as int).skip(1) =~= m.skip(k + 1));
        if is_same(own, id) {
            return Some(&a[k]);
        }
        k += 1;
    }
    None
}

fn read_current_fields(doc: &Json) -> (r: Option<Vec<Field>>)
    ensures
        match (r, current_fields(doc.model())) {
            (Some(f), Some(w)) => field_views(f@) == w,
            (None, None) => true,
            _ => false,
        },
{
    let null: Json = Json::Null;
    let id: &Json = match doc.get("current-schema-id") {
        Some(v) => v,
        None => &null,
    };
    let a: &Vec<Json> = match doc.get("schemas") {
        Some(v) => match v.arr() {
            Some(a) => a,
            None => return None,
        },
        None => return None,
    };
    match find_schema(a, id) {
        Some(s) => match s.get("fields") {
            Some(f) => match f.arr() {
                Some(l) => read_fields(l),
                None => None,
            },
            None => None,
        },
        None => None,
    }
}

/// Reads the table a document describes.
pub fn read_table(doc: &Json) -> (r: Option<TableMeta>)
    ensures
        match (r, table_in(doc.model())) {
            (Some(m), Some(w)) => m@ == w,
            (None, None) => true,
            _ => false,
        },
{
    match int_at(doc, "format-version") {
        Some(v) => if v != 2 {
            return None;
        },
        None => return None,
    }
    let fields: Vec<Field> = match read_current_fields(doc) {
        Some(f) => f,
        None => return None,
    };
    let snapshots: Vec<(i64, String)> = match read_snapshots(doc.get("snapshots")) {
        Some(s) => s,
        None => return None,
    };
    let location: String = match text_at(doc, "location") {
        Some(l) => l.to_owned(),
        None => return None,
    };
    let uuid: String = match text_at(doc, "table-uuid") {
        Some(t) => t.to_owned(),
        None => String::new(),
    };
    let last: i64 = match int_at(doc, "last-sequence-number") {
        Some(n) => n,
        None => 0,
    };
    let r: TableMeta = TableMeta {
        uuid,
        location,
        fields,
        current_snapshot: int_at(doc, "current-snapshot-id"),
        snapshots,
        last_sequence_number: last,
    };
    assert(uuid@ =~= text_or_empty(at(doc.model(), "table-uuid"@)));
    Some(r)
}

/// Reads a table from compact JSON text.
pub fn read_compact(text: &str) -> (r: Result<TableMeta, MetaError>)
    ensures
        gives(r, compact_table(text@)),
{
    match parse(text) {
        Err(_) => Err(MetaError::Json),
        Ok(j) => match read_table(&j) {
            Some(m) => Ok(m),
            None => Err(MetaError::Unsupported),
        },
    }
}

/// Reads a table from the text of its metadata.
pub fn read_metadata(text: &str) -> (r: Result<TableMeta, MetaError>)
    ensures
        gives(r, text_table(text@)),
{
    match compact_json(text) {
        None => Err(MetaError::Json),
        Some(t) => read_compact(t.as_str()),
    }
}

// ---------------------------------------------------------------------------
// What was written is read back
// ---------------------------------------------------------------------------

proof fn int_plain(n: i64, d: nat)
    ensures
        plain(num(n as int), d),
        numbers_spelled(num(n as int)),
        integer(num(n as int)) == Some(n),
{
    integers_stay(n as int);
    dec_read_back(n);
}

proof fn bytes_before(x: Seq<u8>, y: Seq<u8>, p: int)
    requires
        0 <= p < x.len(),
        p < y.len(),
        forall|i: int| 0 <= i < p ==> x[i] == y[i],
        x[p] < y[p],
    ensures
        bytes_lt(x, y),
    decreases p,
{
    if p > 0 {
        assert(x[0] == y[0]);
        bytes_before(x.skip(1), y.skip(1), p - 1);
    }
}

/// Of two texts the one with the smaller character at the first difference
/// comes first.
proof fn text_before(a: Seq<char>, b: Seq<char>, p: int)
    requires
        vstd::utf8::is_ascii_chars(a),
        vstd::utf8::is_ascii_chars(b),
        0 <= p < a.len(),
        p < b.len(),
        forall|i: int| 0 <= i < p ==> a[i] == b[i],
        a[p] < b[p],
    ensures
        text_lt(a, b),
{
    vstd::utf8::is_ascii_chars_encode_utf8(a);
    vstd::utf8::is_ascii_chars_encode_utf8(b);
    let x = encode_utf8(a);
    let y = encode_utf8(b);
    assert(a[p] as u8 == x[p] && b[p] as u8 == y[p]);
    assert forall|i: int| 0 <= i < p implies x[i] == y[i] by {
        assert(a[i] as u8 == x[i] && b[i] as u8 == y[i]);
    }
    bytes_before(x, y, p);
}

/// Whether each member comes before the next.
pub open spec fn ascending(o: Seq<(Seq<char>, JsonView)>) -> bool {
    forall|i: int| 0 < i < o.len() ==> text_lt(o[i - 1].0, (#[trigger] o[i]).0)
}

proof fn ascending_pair(o: Seq<(Seq<char>, JsonView)>, i: int, k: int)
    requires
        ascending(o),
        0 <= i < k < o.len(),
    ensures
        text_lt(o[i].0, o[k].0),
        o[i].0 != o[k].0,
    decreases k - i,
{
    assert(text_lt(o[k - 1].0, o[k].0));
    if i < k - 1 {
        ascending_pair(o, i, k - 1);
        crate::text::bytes_lt_transitive(
            encode_utf8(o[i].0),
            encode_utf8(o[k - 1].0),
            encode_utf8(o[k].0),
        );
    }
    text_lt_total(o[i].0, o[k].0);
}

proof fn obj_plain(o: Seq<(Seq<char>, JsonView)>, d: nat)
    requires
        d > 0,
        ascending(o),
        forall|i: int|
            #![trigger o[i]]
            0 <= i < o.len() ==> plain(o[i].1, (d - 1) as nat) && numbers_spelled(o[i].1),
    ensures
        plain(JsonView::Obj(o), d),
        numbers_spelled(JsonView::Obj(o)),
{
    let j = JsonView::Obj(o);
    let w = j->Obj_0;
    assert forall|i: int, k: int| 0 <= i < k < w.len() implies text_lt(
        (#[trigger] w[i]).0,
        (#[trigger] w[k]).0,
    ) by {
        ascending_pair(o, i, k);
    }
}

proof fn arr_plain(a: Seq<JsonView>, d: nat)
    requires
        d > 0,
        forall|i: int|
            #![trigger a[i]]
            0 <= i < a.len() ==> plain(a[i], (d - 1) as nat) && numbers_spelled(a[i]),
    ensures
        plain(JsonView::Arr(a), d),
        numbers_spelled(JsonView::Arr(a)),
{
    let j = JsonView::Arr(a);
    let w = j->Arr_0;
    assert forall|i: int| #![trigger w[i]] 0 <= i < w.len() implies plain(w[i], (d - 1) as nat)
        && numbers_spelled(w[i]) by {
        assert(w[i] == a[i]);
    }
}

proof fn str_plain(s: Seq<char>, d: nat)
    ensures
        plain(JsonView::Str(s), d),
        numbers_spelled(JsonView::Str(s)),
{
}

proof fn member_is(o: Seq<(Seq<char>, JsonView)>, k: int)
    requires
        ascending(o),
        0 <= k < o.len(),
    ensures
        member(o, o[k].0) == Some(o[k].1),
    decreases k,
{
    if k > 0 {
        ascending_pair(o, 0, k);
        let t = o.skip(1);
        assert forall|i: int| 0 < i < t.len() implies text_lt(t[i - 1].0, (#[trigger] t[i]).0) by {
            assert(o[i + 1] == t[i]);
        }
        member_is(t, k - 1);
    }
}

proof fn field_names()
    ensures
        text_lt("id"@, "name"@) && text_lt("name"@, "required"@) && text_lt("required"@, "type"@),
        "long"@ != "string"@,
{
    reveal_strlit("id");
    reveal_strlit("name");
    reveal_strlit("required");
    reveal_strlit("type");
    reveal_strlit("long");
    reveal_strlit("string");
    assert("long"@.len() != "string"@.len());
    text_before("id"@, "name"@, 0);
    text_before("name"@, "required"@, 0);
    text_before("required"@, "type"@, 0);
}

proof fn field_read(f: FieldSpec, d: nat)
    requires
        d > 0,
    ensures
        plain(field_doc(f), d),
        numbers_spelled(field_doc(f)),
        field_in(field_doc(f)) == Some(f),
{
    field_names();
    let o = field_doc(f)->Obj_0;
    let e = (d - 1) as nat;
    int_plain(f.id as i64, e);
    str_plain(f.name, e);
    str_plain(type_word(f.dtype), e);
    assert(plain(JsonView::Bool(true), e) && numbers_spelled(JsonView::Bool(true)));
    assert(ascending(o));
    obj_plain(o, d);
    member_is(o, 0);
    member_is(o, 1);
    member_is(o, 3);
    assert((f.id as i64) as i32 == f.id);
}

proof fn snapshot_names()
    ensures
        text_lt("manifest-list"@, "schema-id"@) && text_lt("schema-id"@, "sequence-number"@),
        text_lt("sequence-number"@, "snapshot-id"@) && text_lt("snapshot-id"@, "summary"@),
        text_lt("summary"@, "timestamp-ms"@),
{
    reveal_strlit("manifest-list");
    reveal_strlit("schema-id");
    reveal_strlit("sequence-number");
    reveal_strlit("snapshot-id");
    reveal_strlit("summary");
    reveal_strlit("timestamp-ms");
    reveal_strlit("operation");
    reveal_strlit("append");
    text_before("manifest-list"@, "schema-id"@, 0);
    text_before("schema-id"@, "sequence-number"@, 1);
    text_before("sequence-number"@, "snapshot-id"@, 1);
    text_before("snapshot-id"@, "summary"@, 1);
    text_before("summary"@, "timestamp-ms"@, 0);
}

proof fn snapshot_read(s: SnapshotRef, i: int, d: nat)
    requires
        d > 1,
        0 <= i < i64::MAX - EPOCH_MS,
    ensures
        plain(snapshot_doc(s, i), d),
        numbers_spelled(snapshot_doc(s, i)),
        snapshot_in(snapshot_doc(s, i)) == Some(s),
{
    snapshot_names();
    let o = snapshot_doc(s, i)->Obj_0;
    let e = (d - 1) as nat;
    str_plain(s.manifest_list, e);
    int_plain(0, e);
    int_plain((i + 1) as i64, e);
    int_plain(s.id, e);
    int_plain((EPOCH_MS + i) as i64, e);
    let op = seq![("operation"@, JsonView::Str("append"@))];
    str_plain("append"@, (e - 1) as nat);
    assert(op[0] == ("operation"@, JsonView::Str("append"@)));
    obj_plain(op, e);
    assert(ascending(o));
    obj_plain(o, d);
    member_is(o, 0);
    member_is(o, 3);
}

proof fn fields_read(f: Seq<FieldSpec>, k: int)
    requires
        0 <= k <= f.len(),
    ensures
        fields_in(fields_doc(f), k) == Some(f.take(k)),
    decreases k,
{
    if k > 0 {
        fields_read(f, k - 1);
        field_read(f[k - 1], 1);
        assert(f.take(k) =~= f.take(k - 1).push(f[k - 1]));
    } else {
        assert(f.take(0) =~= Seq::empty());
    }
}

proof fn snapshots_read(s: Seq<SnapshotRef>, k: int)
    requires
        0 <= k <= s.len() < i64::MAX - EPOCH_MS,
    ensures
        snapshots_in(snapshots_doc(s), k) == Some(s.take(k)),
    decreases k,
{
    if k > 0 {
        snapshots_read(s, k - 1);
        snapshot_read(s[k - 1], k - 1, 2);
        assert(s.take(k) =~= s.take(k - 1).push(s[k - 1]));
    } else {
        assert(s.take(0) =~= Seq::empty());
    }
}

proof fn schema_names()
    ensures
        text_lt("fields"@, "schema-id"@) && text_lt("schema-id"@, "type"@),
        text_lt("fields"@, "spec-id"@) && text_lt("fields"@, "order-id"@),
{
    reveal_strlit("fields");
    reveal_strlit("schema-id");
    reveal_strlit("type");
    reveal_strlit("struct");
    reveal_strlit("spec-id");
    reveal_strlit("order-id");
    text_before("fields"@, "schema-id"@, 0);
    text_before("schema-id"@, "type"@, 0);
    text_before("fields"@, "spec-id"@, 0);
    text_before("fields"@, "order-id"@, 0);
}

proof fn empty_plain(name: Seq<char>, d: nat)
    requires
        d > 1,
        text_lt("fields"@, name),
    ensures
        plain(empty_doc(name), d),
        numbers_spelled(empty_doc(name)),
{
    schema_names();
    let e = (d - 1) as nat;
    arr_plain(Seq::empty(), e);
    int_plain(0, e);
    let o = empty_doc(name)->Obj_0;
    assert(ascending(o));
    obj_plain(o, d);
}

proof fn schema_read(f: Seq<FieldSpec>, d: nat)
    requires
        d > 2,
    ensures
        plain(schema_doc(f), d),
        numbers_spelled(schema_doc(f)),
        at(schema_doc(f), "fields"@) == JsonView::Arr(fields_doc(f)),
        at(schema_doc(f), "schema-id"@) == num(0),
{
    schema_names();
    let e = (d - 1) as nat;
    let a = fields_doc(f);
    assert forall|i: int| #![trigger a[i]] 0 <= i < a.len() implies plain(a[i], (e - 1) as nat)
        && numbers_spelled(a[i]) by {
        field_read(f[i], (e - 1) as nat);
    }
    arr_plain(a, e);
    int_plain(0, e);
    str_plain("struct"@, e);
    let o = schema_doc(f)->Obj_0;
    assert(ascending(o));
    obj_plain(o, d);
    member_is(o, 0);
    member_is(o, 1);
}

proof fn top_names()
    ensures
        text_lt("current-schema-id"@, "current-snapshot-id"@),
        text_lt("current-snapshot-id"@, "default-sort-order-id"@),
        text_lt("default-sort-order-id"@, "default-spec-id"@),
        text_lt("default-spec-id"@, "format-version"@),
        text_lt("format-version"@, "last-column-id"@),
        text_lt("last-column-id"@, "last-partition-id"@),
        text_lt("last-partition-id"@, "last-sequence-number"@),
        text_lt("last-sequence-number"@, "last-updated-ms"@),
        text_lt("last-updated-ms"@, "location"@),
{
    reveal_strlit("current-schema-id");
    reveal_strlit("current-snapshot-id");
    reveal_strlit("default-sort-order-id");
    reveal_strlit("default-spec-id");
    reveal_strlit("format-version");
    reveal_strlit("last-column-id");
    reveal_strlit("last-partition-id");
    reveal_strlit("last-sequence-number");
    reveal_strlit("last-updated-ms");
    reveal_strlit("location");
    text_before("current-schema-id"@, "current-snapshot-id"@, 9);
    text_before("current-snapshot-id"@, "default-sort-order-id"@, 0);
    text_before("default-sort-order-id"@, "default-spec-id"@, 9);
    text_before("default-spec-id"@, "format-version"@, 0);
    text_before("format-version"@, "last-column-id"@, 0);
    text_before("last-column-id"@, "last-partition-id"@, 5);
    text_before("last-partition-id"@, "last-sequence-number"@, 5);
    text_before("last-sequence-number"@, "last-updated-ms"@, 5);
    text_before("last-updated-ms"@, "location"@, 1);
}

proof fn tail_names()
    ensures
        text_lt("location"@, "partition-specs"@),
        text_lt("partition-specs"@, "refs"@),
        text_lt("refs"@, "schemas"@),
        text_lt("schemas"@, "snapshots"@),
        text_lt("snapshots"@, "sort-orders"@),
        text_lt("sort-orders"@, "table-uuid"@),
{
    reveal_strlit("location");
    reveal_strlit("partition-specs");
    reveal_strlit("refs");
    reveal_strlit("schemas");
    reveal_strlit("snapshots");
    reveal_strlit("sort-orders");
    reveal_strlit("table-uuid");
    text_before("location"@, "partition-specs"@, 0);
    text_before("partition-specs"@, "refs"@, 0);
    text_before("refs"@, "schemas"@, 0);
    text_before("schemas"@, "snapshots"@, 1);
    text_before("snapshots"@, "sort-orders"@, 1);
    text_before("sort-orders"@, "table-uuid"@, 0);
}

proof fn greatest_bound(f: Seq<FieldSpec>, k: int)
    requires
        0 <= k <= f.len(),
    ensures
        i64::MIN <= greatest(f, k) <= i64::MAX,
    decreases k,
{
    if k > 0 {
        greatest_bound(f, k - 1);
    }
}

proof fn lists_plain(t: TableView, d: nat)
    requires
        d > 5,
        t.snapshots.len() < i64::MAX - EPOCH_MS,
    ensures
        plain(JsonView::Arr(seq![empty_doc("spec-id"@)]), d),
        numbers_spelled(JsonView::Arr(seq![empty_doc("spec-id"@)])),
        plain(JsonView::Arr(seq![empty_doc("order-id"@)]), d),
        numbers_spelled(JsonView::Arr(seq![empty_doc("order-id"@)])),
        plain(JsonView::Arr(seq![schema_doc(t.fields)]), d),
        numbers_spelled(JsonView::Arr(seq![schema_doc(t.fields)])),
        plain(JsonView::Arr(snapshots_doc(t.snapshots)), d),
        numbers_spelled(JsonView::Arr(snapshots_doc(t.snapshots))),
{
    schema_names();
    let e = (d - 1) as nat;
    empty_plain("spec-id"@, e);
    empty_plain("order-id"@, e);
    schema_read(t.fields, e);
    arr_plain(seq![empty_doc("spec-id"@)], d);
    arr_plain(seq![empty_doc("order-id"@)], d);
    arr_plain(seq![schema_doc(t.fields)], d);
    let a = snapshots_doc(t.snapshots);
    assert forall|i: int| #![trigger a[i]] 0 <= i < a.len() implies plain(a[i], e)
        && numbers_spelled(a[i]) by {
        snapshot_read(t.snapshots[i], i, e);
    }
    arr_plain(a, d);
}

proof fn doc_ascending(t: TableView)
    ensures
        ascending(metadata_doc(t)->Obj_0),
{
    top_names();
    tail_names();
}

#[verifier::rlimit(60)]
proof fn doc_plain(t: TableView)
    requires
        t.snapshots.len() < i64::MAX - EPOCH_MS,
    ensures
        plain(metadata_doc(t), MAX_DEPTH as nat),
        numbers_spelled(metadata_doc(t)),
        ascending(metadata_doc(t)->Obj_0),
{
    doc_ascending(t);
    let o = metadata_doc(t)->Obj_0;
    let e: nat = 99;
    int_plain(0, e);
    int_plain(2, e);
    int_plain(999, e);
    int_plain(EPOCH_MS, e);
    int_plain(t.last_sequence_number, e);
    greatest_bound(t.fields, t.fields.len() as int);
    int_plain(greatest(t.fields, t.fields.len() as int) as i64, e);
    match t.current_snapshot {
        Some(id) => int_plain(id, e),
        None => {
            assert(plain(JsonView::Null, e) && numbers_spelled(JsonView::Null));
        },
    }
    str_plain(t.location, e);
    str_plain(t.uuid, e);
    obj_plain(Seq::empty(), e);
    lists_plain(t, e);
    assert forall|i: int| #![trigger o[i]] 0 <= i < o.len() implies plain(o[i].1, e)
        && numbers_spelled(o[i].1) by {
        assert(o.len() == 16);
    }
    obj_plain(o, MAX_DEPTH as nat);
}

/// A table is read back from its document.
pub proof fn document_read_back(t: TableView)
    requires
        t.snapshots.len() < i64::MAX - EPOCH_MS,
    ensures
        table_in(metadata_doc(t)) == Some(t),
{
    doc_plain(t);
    let doc = metadata_doc(t);
    let o = doc->Obj_0;
    member_is(o, 0);
    member_is(o, 1);
    member_is(o, 4);
    member_is(o, 7);
    member_is(o, 9);
    member_is(o, 12);
    member_is(o, 13);
    member_is(o, 15);
    int_plain(2, 0);
    int_plain(0, 0);
    int_plain(t.last_sequence_number, 0);
    if let Some(id) = t.current_snapshot {
        int_plain(id, 0);
    }
    schema_read(t.fields, 3);
    let a = seq![schema_doc(t.fields)];
    assert(a[0] == schema_doc(t.fields));
    assert(same(num(0), num(0)));
    assert(schema_in(a, num(0)) == Some(schema_doc(t.fields)));
    fields_read(t.fields, t.fields.len() as int);
    assert(t.fields.take(t.fields.len() as int) =~= t.fields);
    snapshots_read(t.snapshots, t.snapshots.len() as int);
    assert(t.snapshots.take(t.snapshots.len() as int) =~= t.snapshots);
    assert(current_fields(doc) == Some(t.fields));
}

/// The text of a table's metadata and where that version of it is kept. It is
/// read back.
pub fn write_metadata(meta: &TableMeta, version: u32) -> (r: (String, String))
    requires
        meta.snapshots@.len() < i64::MAX - EPOCH_MS,
    ensures
        r.0@ == metadata_path_of(meta@.location, version),
        json_pretty(rendered(metadata_doc(meta@))) == Some(r.1@),
        text_table(r.1@) == Ok::<TableView, MetaError>(meta@),
{
    let plain_text: String = metadata_json(meta).render();
    proof {
        assert(snapshot_views(meta.snapshots@).len() == meta.snapshots@.len());
        doc_plain(meta@);
        document_read_back(meta@);
        json_read_back(metadata_doc(meta@), true);
        assert(plain_text@ == rendered(metadata_doc(meta@)));
    }
    let text: String = pretty_json(plain_text.as_str()).unwrap();
    (metadata_path(meta.location.as_str(), version), text)
}

/// Appends a snapshot whose manifest list is written, and gives the next
/// metadata of the table and where it goes: the pointer that the catalog swaps.
pub fn commit_append(
    meta: &mut TableMeta,
    snapshot_id: i64,
    manifest_list: &str,
    version: u32,
) -> (r: (String, String))
    requires
        old(meta).last_sequence_number < i64::MAX,
        old(meta).snapshots@.len() < i64::MAX - EPOCH_MS - 1,
    ensures
        final(meta)@ == appended(old(meta)@, snapshot_id, manifest_list@),
        r.0@ == metadata_path_of(old(meta)@.location, version),
        json_pretty(rendered(metadata_doc(final(meta)@))) == Some(r.1@),
        text_table(r.1@) == Ok::<TableView, MetaError>(final(meta)@),
{
    append_snapshot(meta, snapshot_id, manifest_list);
    assert(snapshot_views(meta.snapshots@).len() == old(meta).snapshots@.len() + 1);
    write_metadata(meta, version)
}

/// Under which key an object store keeps a version of the metadata.
pub fn metadata_key(version: u32) -> (key: String)
    ensures
        key@ == "metadata/v"@ + dec(version as nat) + ".metadata.json"@,
{
    let mut key: String = "metadata/v".to_owned();
    push_dec(&mut key, version as u64);
    key.append(".metadata.json");
    key
}

/// Opens the warehouse of an address.
pub fn open_warehouse(uri: &str) -> (w: Warehouse)
    ensures
        w@ == warehouse_of(uri@),
{
    open(uri)
}

} // verus!
