//! Schemas from their JSON, and container files that carry the schema their
//! values were written under.
use crate::iceberg::avro::{
    dec_items, enc_items, encode, fields_model, get_count, get_run, items_fail, items_join, items_read,
    items_tail, len_read_back, long_read_back, long_shorter, put_run, rd_count, rd_long, rd_run, read_value, record_model, rlong,
    run_read_back, schemas_model, shaped, union_model, value_read_back, values_model, wlen, wlong, wr_len, wr_long,
    wr_run, Fail, Schema, SchemaView, Value, ValueView,
};
use crate::iceberg::integer::integer_part;
use crate::iceberg::json::{arr_model, items_model, member, member_inside, obj_model, parse, parsed, Json, JsonView};
use crate::text::{join2, str_eq};
use crate::wire::{copy_range, put_bytes, regroup, string_from_utf8};
use vstd::prelude::*;
use vstd::utf8::{decode_utf8, encode_utf8, valid_utf8};

verus! {

impl Schema {
    /// A copy of the schema and of all that is nested in it.
    pub fn copy(&self) -> (r: Schema)
        ensures
            r.model() == self.model(),
        decreases self,
    {
        match self {
            Schema::Null => Schema::Null,
            Schema::Boolean => Schema::Boolean,
            Schema::Int => Schema::Int,
            Schema::Long => Schema::Long,
            Schema::Float => Schema::Float,
            Schema::Double => Schema::Double,
            Schema::Bytes => Schema::Bytes,
            Schema::String => Schema::String,
            Schema::Fixed(n) => Schema::Fixed(*n),
            Schema::Array(i) => Schema::Array(Box::new(i.copy())),
            Schema::Dict(i) => Schema::Dict(Box::new(i.copy())),
            Schema::Union(b) => {
                let mut out: Vec<Schema> = Vec::new();
                let mut k: usize = 0;
                while k < b.len()
                    invariant
                        k <= b@.len(),
                        *self == Schema::Union(*b),
                        out@.len() == k,
                        forall|j: int| 0 <= j < k ==> (#[trigger] out@[j]).model() == b@[j].model(),
                    decreases b@.len() - k,
                {
                    assert(decreases_to!(self => self->Union_0@[k as int]));
                    out.push(b[k].copy());
                    k += 1;
                }
                proof {
                    union_model(*b);
                    union_model(out);
                    assert(schemas_model(out@) =~= schemas_model(b@));
                }
                Schema::Union(out)
            },
            Schema::Record { name, fields } => {
                let mut out: Vec<(String, Schema)> = Vec::new();
                let mut k: usize = 0;
                while k < fields.len()
                    invariant
                        k <= fields@.len(),
                        *self == (Schema::Record { name: *name, fields: *fields }),
                        out@.len() == k,
                        forall|j: int|
                            #![trigger out@[j]]
                            0 <= j < k ==> out@[j].0@ == fields@[j].0@ && out@[j].1.model()
                                == fields@[j].1.model(),
                    decreases fields@.len() - k,
                {
                    assert(decreases_to!(self => self->fields@[k as int].1));
                    let s: Schema = fields[k].1.copy();
                    out.push((fields[k].0.clone(), s));
                    k += 1;
                }
                let n: String = name.clone();
                proof {
                    record_model(*name, *fields);
                    record_model(n, out);
                    assert(fields_model(out@) =~= fields_model(fields@));
                }
                Schema::Record { name: n, fields: out }
            },
        }
    }
}

// ---------------------------------------------------------------------------
// Schemas from JSON
// ---------------------------------------------------------------------------

/// The schema a word stands for alone.
pub open spec fn primitive(s: Seq<char>) -> Option<SchemaView> {
    if s == "null"@ {
        Some(SchemaView::Null)
    } else if s == "boolean"@ {
        Some(SchemaView::Boolean)
    } else if s == "int"@ {
        Some(SchemaView::Int)
    } else if s == "long"@ {
        Some(SchemaView::Long)
    } else if s == "float"@ {
        Some(SchemaView::Float)
    } else if s == "double"@ {
        Some(SchemaView::Double)
    } else if s == "bytes"@ {
        Some(SchemaView::Bytes)
    } else if s == "string"@ {
        Some(SchemaView::String)
    } else {
        None
    }
}

/// The latest schema of a name.
pub open spec fn named(reg: Seq<(Seq<char>, SchemaView)>, name: Seq<char>) -> Option<SchemaView>
    decreases reg.len(),
{
    if reg.len() == 0 {
        None
    } else if reg.last().0 == name {
        Some(reg.last().1)
    } else {
        named(reg.drop_last(), name)
    }
}

/// Why JSON describes no schema, and the schemas named by then.
pub type Lack = (Seq<char>, Seq<(Seq<char>, SchemaView)>);

/// The schema of a word: a primitive one, or one that was named before.
pub open spec fn word_schema(s: Seq<char>, reg: Seq<(Seq<char>, SchemaView)>) -> Result<
    (SchemaView, Seq<(Seq<char>, SchemaView)>),
    Lack,
> {
    match primitive(s) {
        Some(p) => Ok((p, reg)),
        None => match named(reg, s) {
            Some(p) => Ok((p, reg)),
            None => Err(("unknown named type "@ + s, reg)),
        },
    }
}

/// The text of a member, if it is one.
pub open spec fn text_at(j: JsonView, k: Seq<char>) -> Option<Seq<char>> {
    match j.at(k) {
        Some(JsonView::Str(s)) => Some(s),
        _ => None,
    }
}

/// The integer part of a member, if it is a number.
pub open spec fn size_at(j: JsonView, k: Seq<char>) -> Option<i64> {
    match j.at(k) {
        Some(JsonView::Num(t)) => integer_part(t),
        _ => None,
    }
}

pub open spec fn or_anon(s: Option<Seq<char>>) -> Seq<char> {
    match s {
        Some(s) => s,
        None => "anon"@,
    }
}

/// The schema some JSON describes, and the schemas named by then.
pub open spec fn schema_of(j: JsonView, reg: Seq<(Seq<char>, SchemaView)>) -> Result<
    (SchemaView, Seq<(Seq<char>, SchemaView)>),
    Lack,
>
    decreases j, 0int,
{
    match j {
        JsonView::Str(s) => word_schema(s, reg),
        JsonView::Arr(a) => match union_of(a, reg, a.len() as int) {
            Err(e) => Err(e),
            Ok((b, reg)) => Ok((SchemaView::Union(b), reg)),
        },
        JsonView::Obj(o) => {
            proof {
                member_inside(o, "fields"@);
                member_inside(o, "items"@);
                member_inside(o, "values"@);
            }
            match text_at(j, "type"@) {
                None => Err(("missing type"@, reg)),
                Some(ty) => if ty == "record"@ {
                    match member(o, "fields"@) {
                        Some(JsonView::Arr(a)) => match fields_of(a, reg, a.len() as int) {
                            Err(e) => Err(e),
                            Ok((f, reg)) => {
                                let name = or_anon(text_at(j, "name"@));
                                let rec = SchemaView::Record(name, f);
                                Ok((rec, reg.push((name, rec))))
                            },
                        },
                        _ => Err(("record w/o fields"@, reg)),
                    }
                } else if ty == "array"@ {
                    match member(o, "items"@) {
                        Some(i) => match schema_of(i, reg) {
                            Err(e) => Err(e),
                            Ok((s, reg)) => Ok((SchemaView::Array(Box::new(s)), reg)),
                        },
                        None => Err(("array w/o items"@, reg)),
                    }
                } else if ty == "map"@ {
                    match member(o, "values"@) {
                        Some(i) => match schema_of(i, reg) {
                            Err(e) => Err(e),
                            Ok((s, reg)) => Ok((SchemaView::Dict(Box::new(s)), reg)),
                        },
                        None => Err(("map w/o values"@, reg)),
                    }
                } else if ty == "fixed"@ {
                    match size_at(j, "size"@) {
                        Some(n) => Ok((SchemaView::Fixed(n as usize), reg)),
                        None => Err(("fixed w/o size"@, reg)),
                    }
                } else {
                    word_schema(ty, reg)
                },
            }
        },
        _ => Err(("bad schema json"@, reg)),
    }
}

/// The first `k` branches of a union.
pub open spec fn union_of(a: Seq<JsonView>, reg: Seq<(Seq<char>, SchemaView)>, k: int) -> Result<
    (Seq<SchemaView>, Seq<(Seq<char>, SchemaView)>),
    Lack,
>
    decreases a, k,
{
    if k <= 0 || k > a.len() {
        Ok((Seq::empty(), reg))
    } else {
        match union_of(a, reg, k - 1) {
            Err(e) => Err(e),
            Ok((b, reg)) => match schema_of(a[k - 1], reg) {
                Err(e) => Err(e),
                Ok((s, reg)) => Ok((b.push(s), reg)),
            },
        }
    }
}

/// The first `k` fields of a record.
pub open spec fn fields_of(a: Seq<JsonView>, reg: Seq<(Seq<char>, SchemaView)>, k: int) -> Result<
    (Seq<(Seq<char>, SchemaView)>, Seq<(Seq<char>, SchemaView)>),
    Lack,
>
    decreases a, k,
{
    if k <= 0 || k > a.len() {
        Ok((Seq::empty(), reg))
    } else {
        match fields_of(a, reg, k - 1) {
            Err(e) => Err(e),
            Ok((f, reg)) => match text_at(a[k - 1], "name"@) {
                None => Err(("field w/o name"@, reg)),
                Some(n) => match a[k - 1] {
                    JsonView::Obj(o) => {
                        proof {
                            member_inside(o, "type"@);
                        }
                        match member(o, "type"@) {
                            None => Err(("field w/o type"@, reg)),
                            Some(t) => match schema_of(t, reg) {
                                Err(e) => Err(e),
                                Ok((s, reg)) => Ok((f.push((n, s)), reg)),
                            },
                        }
                    },
                    _ => Err(("field w/o type"@, reg)),
                },
            },
        }
    }
}

/// Whether a reading of JSON did what it describes.
pub open spec fn gives(
    r: Result<Schema, String>,
    reg: Seq<(String, Schema)>,
    want: Result<(SchemaView, Seq<(Seq<char>, SchemaView)>), Lack>,
) -> bool {
    match (r, want) {
        (Ok(s), Ok((v, reg2))) => s.model() == v && fields_model(reg) == reg2,
        (Err(e), Err((m, reg2))) => e@ == m && fields_model(reg) == reg2,
        _ => false,
    }
}

fn primitive_schema(s: &str) -> (r: Option<Schema>)
    ensures
        match r {
            Some(p) => primitive(s@) == Some(p.model()),
            None => primitive(s@) is None,
        },
{
    if str_eq(s, "null") {
        Some(Schema::Null)
    } else if str_eq(s, "boolean") {
        Some(Schema::Boolean)
    } else if str_eq(s, "int") {
        Some(Schema::Int)
    } else if str_eq(s, "long") {
        Some(Schema::Long)
    } else if str_eq(s, "float") {
        Some(Schema::Float)
    } else if str_eq(s, "double") {
        Some(Schema::Double)
    } else if str_eq(s, "bytes") {
        Some(Schema::Bytes)
    } else if str_eq(s, "string") {
        Some(Schema::String)
    } else {
        None
    }
}

fn schema_of_word(s: &str, reg: &Vec<(String, Schema)>) -> (r: Result<Schema, String>)
    ensures
        gives(r, reg@, word_schema(s@, fields_model(reg@))),
{
    if let Some(p) = primitive_schema(s) {
        return Ok(p);
    }
    let ghost m = fields_model(reg@);
    let mut k: usize = reg.len();
    assert(m.take(k as int) =~= m);
    while k > 0
        invariant
            k <= reg@.len(),
            m == fields_model(reg@),
            primitive(s@) is None,
            named(m.take(k as int), s@) == named(m, s@),
        decreases k,
    {
        assert(m.take(k as int).drop_last() =~= m.take(k - 1));
        assert(m.take(k as int).last() == m[k - 1]);
        k -= 1;
        if str_eq(reg[k].0.as_str(), s) {
            return Ok(reg[k].1.copy());
        }
    }
    Err(join2("unknown named type ", s))
}

fn text_of<'a>(j: &'a Json, k: &str) -> (r: Option<&'a str>)
    ensures
        match r {
            Some(t) => text_at(j.model(), k@) == Some(t@),
            None => text_at(j.model(), k@) is None,
        },
{
    match j.get(k) {
        Some(v) => v.s(),
        None => None,
    }
}

fn size_of(j: &Json, k: &str) -> (r: Option<i64>)
    ensures
        r == size_at(j.model(), k@),
{
    match j.get(k) {
        Some(v) => v.i(),
        None => None,
    }
}

proof fn get_inside(j: Json, k: Seq<char>, v: Json)
    requires
        j.model().at(k) == Some(v.model()),
    ensures
        decreases_to!(j.model() => v.model()),
{
    if let JsonView::Obj(o) = j.model() {
        member_inside(o, k);
    }
}

/// Reads a schema from JSON. `reg` holds the schemas that have been named, also
/// those that were before a failure.
pub fn schema_from_json(j: &Json, reg: &mut Vec<(String, Schema)>) -> (r: Result<Schema, String>)
    ensures
        gives(r, final(reg)@, schema_of(j.model(), fields_model(old(reg)@))),
    decreases j.model(), 0int,
{
    match j {
        Json::Str(s) => schema_of_word(s.as_str(), reg),
        Json::Arr(a) => {
            proof {
                arr_model(*a);
            }
            union_from_json(a, reg)
        },
        Json::Obj(o) => {
            proof {
                obj_model(*o);
            }
            let ty: &str = match text_of(j, "type") {
                Some(t) => t,
                None => return Err("missing type".to_owned()),
            };
            if str_eq(ty, "record") {
                match j.get("fields") {
                    Some(f) => {
                        proof {
                            get_inside(*j, "fields"@, *f);
                        }
                        match f.arr() {
                            Some(a) => {
                                let name: String = match text_of(j, "name") {
                                    Some(n) => n.to_owned(),
                                    None => "anon".to_owned(),
                                };
                                let fields: Vec<(String, Schema)> = match fields_from_json(a, reg) {
                                    Ok(f) => f,
                                    Err(e) => return Err(e),
                                };
                                let rec: Schema = Schema::Record { name: name.clone(), fields };
                                let ghost before = reg@;
                                proof {
                                    record_model(name, fields);
                                }
                                reg.push((name, rec.copy()));
                                assert(fields_model(reg@) =~= fields_model(before).push(
                                    (name@, rec.model()),
                                ));
                                Ok(rec)
                            },
                            None => Err("record w/o fields".to_owned()),
                        }
                    },
                    None => Err("record w/o fields".to_owned()),
                }
            } else if str_eq(ty, "array") {
                match j.get("items") {
                    Some(i) => {
                        proof {
                            get_inside(*j, "items"@, *i);
                        }
                        match schema_from_json(i, reg) {
                            Ok(s) => Ok(Schema::Array(Box::new(s))),
                            Err(e) => Err(e),
                        }
                    },
                    None => Err("array w/o items".to_owned()),
                }
            } else if str_eq(ty, "map") {
                match j.get("values") {
                    Some(i) => {
                        proof {
                            get_inside(*j, "values"@, *i);
                        }
                        match schema_from_json(i, reg) {
                            Ok(s) => Ok(Schema::Dict(Box::new(s))),
                            Err(e) => Err(e),
                        }
                    },
                    None => Err("map w/o values".to_owned()),
                }
            } else if str_eq(ty, "fixed") {
                match size_of(j, "size") {
                    Some(n) => Ok(Schema::Fixed(#[verifier::truncate] (n as usize))),
                    None => Err("fixed w/o size".to_owned()),
                }
            } else {
                schema_of_word(ty, reg)
            }
        },
        _ => Err("bad schema json".to_owned()),
    }
}

fn union_from_json(a: &Vec<Json>, reg: &mut Vec<(String, Schema)>) -> (r: Result<Schema, String>)
    ensures
        gives(
            r,
            final(reg)@,
            match union_of(items_model(a@), fields_model(old(reg)@), a@.len() as int) {
                Err(e) => Err(e),
                Ok((b, reg)) => Ok((SchemaView::Union(b), reg)),
            },
        ),
    decreases items_model(a@), 0int,
{
    let ghost m = items_model(a@);
    let ghost reg0 = fields_model(reg@);
    let mut out: Vec<Schema> = Vec::new();
    let mut k: usize = 0;
    assert(schemas_model(out@) =~= Seq::empty());
    while k < a.len()
        invariant
            k <= a@.len(),
            m == items_model(a@),
            reg0 == fields_model(old(reg)@),
            union_of(m, reg0, k as int) == Ok::<
                (Seq<SchemaView>, Seq<(Seq<char>, SchemaView)>),
                Lack,
            >((schemas_model(out@), fields_model(reg@))),
        decreases a@.len() - k,
    {
        assert(decreases_to!(m => m[k as int]));
        match schema_from_json(&a[k], reg) {
            Ok(s) => {
                let ghost before = out@;
                out.push(s);
                assert(schemas_model(out@) =~= schemas_model(before).push(s.model()));
            },
            Err(e) => {
                proof {
                    union_fails(m, reg0, k + 1);
                }
                return Err(e);
            },
        }
        k += 1;
    }
    proof {
        union_model(out);
    }
    Ok(Schema::Union(out))
}

proof fn union_fails(a: Seq<JsonView>, reg: Seq<(Seq<char>, SchemaView)>, k: int)
    requires
        0 <= k <= a.len(),
        union_of(a, reg, k) is Err,
    ensures
        union_of(a, reg, a.len() as int) == union_of(a, reg, k),
    decreases a.len() - k,
{
    if k < a.len() {
        union_fails(a, reg, k + 1);
    }
}

fn fields_from_json(a: &Vec<Json>, reg: &mut Vec<(String, Schema)>) -> (r: Result<
    Vec<(String, Schema)>,
    String,
>)
    ensures
        match (r, fields_of(items_model(a@), fields_model(old(reg)@), a@.len() as int)) {
            (Ok(f), Ok((v, reg2))) => fields_model(f@) == v && fields_model(final(reg)@) == reg2,
            (Err(e), Err((m, reg2))) => e@ == m && fields_model(final(reg)@) == reg2,
            _ => false,
        },
    decreases items_model(a@), 0int,
{
    let ghost m = items_model(a@);
    let ghost reg0 = fields_model(reg@);
    let mut out: Vec<(String, Schema)> = Vec::new();
    let mut k: usize = 0;
    assert(fields_model(out@) =~= Seq::empty());
    while k < a.len()
        invariant
            k <= a@.len(),
            m == items_model(a@),
            reg0 == fields_model(old(reg)@),
            fields_of(m, reg0, k as int) == Ok::<
                (Seq<(Seq<char>, SchemaView)>, Seq<(Seq<char>, SchemaView)>),
                Lack,
            >((fields_model(out@), fields_model(reg@))),
        decreases a@.len() - k,
    {
        let f: &Json = &a[k];
        assert(decreases_to!(m => m[k as int]));
        let name: String = match text_of(f, "name") {
            Some(n) => n.to_owned(),
            None => {
                proof {
                    fields_fails(m, reg0, k + 1);
                }
                return Err("field w/o name".to_owned());
            },
        };
        match f.get("type") {
            Some(t) => {
                proof {
                    get_inside(*f, "type"@, *t);
                }
                match schema_from_json(t, reg) {
                    Ok(s) => {
                        let ghost before = out@;
                        out.push((name, s));
                        assert(fields_model(out@) =~= fields_model(before).push((name@, s.model())));
                    },
                    Err(e) => {
                        proof {
                            fields_fails(m, reg0, k + 1);
                        }
                        return Err(e);
                    },
                }
            },
            None => {
                proof {
                    fields_fails(m, reg0, k + 1);
                }
                return Err("field w/o type".to_owned());
            },
        }
        k += 1;
    }
    Ok(out)
}

proof fn fields_fails(a: Seq<JsonView>, reg: Seq<(Seq<char>, SchemaView)>, k: int)
    requires
        0 <= k <= a.len(),
        fields_of(a, reg, k) is Err,
    ensures
        fields_of(a, reg, a.len() as int) == fields_of(a, reg, k),
    decreases a.len() - k,
{
    if k < a.len() {
        fields_fails(a, reg, k + 1);
    }
}

// ---------------------------------------------------------------------------
// Container files
// ---------------------------------------------------------------------------

pub open spec fn magic() -> Seq<u8> {
    seq![79u8, 98, 106, 1]
}

/// What parts the blocks of a file.
#[verifier::opaque]
pub open spec fn sync_bytes() -> Seq<u8> {
    seq![66u8, 76, 73, 84, 90, 83, 89, 78, 67, 48, 49, 50, 51, 52, 53, 54]
}

fn put_magic(out: &mut Vec<u8>)
    ensures
        final(out)@ == old(out)@ + magic(),
{
    out.push(79);
    out.push(98);
    out.push(106);
    out.push(1);
    assert(out@ =~= old(out)@ + magic());
}

fn put_sync(out: &mut Vec<u8>)
    ensures
        final(out)@ == old(out)@ + sync_bytes(),
{
    out.push(66);
    out.push(76);
    out.push(73);
    out.push(84);
    out.push(90);
    out.push(83);
    out.push(89);
    out.push(78);
    out.push(67);
    out.push(48);
    out.push(49);
    out.push(50);
    out.push(51);
    out.push(52);
    out.push(53);
    out.push(54);
    reveal(sync_bytes);
    assert(out@ =~= old(out)@ + sync_bytes());
}

/// The two entries of a header: the schema, and that nothing is compressed.
pub open spec fn wr_meta(schema_json: Seq<char>) -> Seq<u8> {
    wr_run(encode_utf8("avro.schema"@)) + (wr_run(encode_utf8(schema_json)) + (wr_run(
        encode_utf8("avro.codec"@),
    ) + wr_run(encode_utf8("null"@))))
}

pub open spec fn wr_header(schema_json: Seq<char>) -> Seq<u8> {
    magic() + (wr_long(2) + (wr_meta(schema_json) + (wr_long(0) + sync_bytes())))
}

/// A block of values.
pub open spec fn wr_block(n: nat, payload: Seq<u8>) -> Seq<u8> {
    wr_len(n) + (wr_len(payload.len()) + (payload + sync_bytes()))
}

/// The schema of a JSON text.
pub open spec fn text_schema(schema_json: Seq<char>) -> Result<SchemaView, Seq<char>> {
    match parsed(schema_json) {
        Err(e) => Err(e),
        Ok(j) => match schema_of(j, Seq::empty()) {
            Err((e, _)) => Err(e),
            Ok((s, _)) => Ok(s),
        },
    }
}

/// A file of some values under the schema of a JSON text.
pub open spec fn container(schema_json: Seq<char>, values: Seq<ValueView>) -> Result<
    Seq<u8>,
    Seq<char>,
> {
    match text_schema(schema_json) {
        Err(e) => Err(e),
        Ok(s) => match enc_items(s, values, values.len() as int) {
            Err((e, _)) => Err(e),
            Ok(payload) => Ok(wr_header(schema_json) + wr_block(values.len(), payload)),
        },
    }
}

fn schema_of_text(schema_json: &str) -> (r: Result<Schema, String>)
    ensures
        match (r, text_schema(schema_json@)) {
            (Ok(s), Ok(v)) => s.model() == v,
            (Err(e), Err(m)) => e@ == m,
            _ => false,
        },
{
    let j: Json = match parse(schema_json) {
        Ok(j) => j,
        Err(e) => return Err(e),
    };
    let mut reg: Vec<(String, Schema)> = Vec::new();
    assert(fields_model(reg@) =~= Seq::empty());
    schema_from_json(&j, &mut reg)
}

/// Writes values under the schema of a JSON text.
pub fn write_container(schema_json: &str, values: &Vec<Value>) -> (r: Result<Vec<u8>, String>)
    ensures
        match (r, container(schema_json@, values_model(values@))) {
            (Ok(b), Ok(v)) => b@ == v,
            (Err(e), Err(m)) => e@ == m,
            _ => false,
        },
{
    let ghost m = values_model(values@);
    let schema: Schema = match schema_of_text(schema_json) {
        Ok(s) => s,
        Err(e) => return Err(e),
    };
    let mut out: Vec<u8> = Vec::new();
    put_magic(&mut out);
    wlong(&mut out, 2);
    let ghost o1 = out@;
    put_run(&mut out, "avro.schema".as_bytes());
    put_run(&mut out, schema_json.as_bytes());
    put_run(&mut out, "avro.codec".as_bytes());
    put_run(&mut out, "null".as_bytes());
    assert(out@ =~= o1 + wr_meta(schema_json@));
    wlong(&mut out, 0);
    put_sync(&mut out);
    assert(out@ =~= wr_header(schema_json@));
    let mut payload: Vec<u8> = Vec::new();
    let mut k: usize = 0;
    while k < values.len()
        invariant
            k <= values@.len(),
            m == values_model(values@),
            text_schema(schema_json@) == Ok::<SchemaView, Seq<char>>(schema.model()),
            enc_items(schema.model(), m, k as int) == Ok::<Seq<u8>, Fail>(payload@),
        decreases values@.len() - k,
    {
        match encode(&schema, &values[k], &mut payload) {
            Ok(_) => {},
            Err(e) => {
                proof {
                    items_fail(schema.model(), m, k + 1);
                }
                return Err(e);
            },
        }
        k += 1;
    }
    wlen(&mut out, values.len());
    wlen(&mut out, payload.len());
    put_bytes(&mut out, payload.as_slice());
    put_sync(&mut out);
    assert(out@ =~= wr_header(schema_json@) + wr_block(m.len(), payload@));
    Ok(out)
}

/// What a header says: the schema's text, if it is there, and the codec.
#[verifier::ext_equal]
pub struct MetaView {
    pub schema: Option<Seq<char>>,
    pub codec: Seq<char>,
}

/// `n` entries more of a header.
pub open spec fn rd_meta(n: nat, b: Seq<u8>, m: MetaView) -> Result<(MetaView, Seq<u8>), Seq<char>>
    decreases n,
{
    if n == 0 {
        Ok((m, b))
    } else {
        match rd_run(b) {
            Err((e, _)) => Err(e),
            Ok((k, r)) => if !valid_utf8(k) {
                Err("k"@)
            } else {
                match rd_run(r) {
                    Err((e, _)) => Err(e),
                    Ok((v, r2)) => {
                        let n1 = (n - 1) as nat;
                        if decode_utf8(k) == "avro.schema"@ {
                            if valid_utf8(v) {
                                rd_meta(n1, r2, MetaView { schema: Some(decode_utf8(v)), ..m })
                            } else {
                                Err("s"@)
                            }
                        } else if decode_utf8(k) == "avro.codec"@ {
                            if valid_utf8(v) {
                                rd_meta(n1, r2, MetaView { codec: decode_utf8(v), ..m })
                            } else {
                                Err("c"@)
                            }
                        } else {
                            rd_meta(n1, r2, m)
                        }
                    },
                }
            },
        }
    }
}

/// The blocks of a header, to its end. What follows a block is shorter.
pub open spec fn rd_metas(b: Seq<u8>, m: MetaView) -> Result<(MetaView, Seq<u8>), Seq<char>>
    decreases b.len(),
{
    match rd_count(b) {
        Err((e, _)) => Err(e),
        Ok((n, r)) => if n == 0 {
            Ok((m, r))
        } else {
            match rd_meta(n, r, m) {
                Err(e) => Err(e),
                Ok((m2, r2)) => if r2.len() < b.len() {
                    rd_metas(r2, m2)
                } else {
                    Err("eof"@)
                },
            }
        },
    }
}

pub open spec fn magnitude(n: int) -> nat {
    if n < 0 {
        (-n) as nat
    } else {
        n as nat
    }
}

/// The blocks of a file, to its end.
pub open spec fn rd_blocks(s: SchemaView, b: Seq<u8>, sync: Seq<u8>, acc: Seq<ValueView>) -> Result<
    Seq<ValueView>,
    Seq<char>,
>
    decreases b.len(),
{
    if b.len() == 0 {
        Ok(acc)
    } else {
        match rd_long(b) {
            Err((e, _)) => Err(e),
            Ok((count, r)) => match rd_long(r) {
                Err((e, _)) => Err(e),
                Ok((size, r2)) => match dec_items(s, magnitude(count as int), r2, acc) {
                    Err((e, _)) => Err(e),
                    Ok((all, _)) => if size < 0 || size + 16 > r2.len() {
                        Err("eof"@)
                    } else if r2.subrange(size as int, size + 16) != sync {
                        Err("sync marker mismatch"@)
                    } else if r2.len() >= b.len() {
                        Err("eof"@)
                    } else {
                        rd_blocks(s, r2.skip(size + 16), sync, all)
                    },
                },
            },
        }
    }
}

/// What a file says: its schema and its values.
pub open spec fn rd_container(b: Seq<u8>) -> Result<(SchemaView, Seq<ValueView>), Seq<char>> {
    if b.len() < 4 || b.take(4) != magic() {
        Err("not an avro container"@)
    } else {
        match rd_metas(b.skip(4), MetaView { schema: None, codec: "null"@ }) {
            Err(e) => Err(e),
            Ok((m, r)) => if m.codec != "null"@ {
                Err("codec "@ + m.codec + " not supported (use null)"@)
            } else {
                match m.schema {
                    None => Err("no schema in header"@),
                    Some(t) => match text_schema(t) {
                        Err(e) => Err(e),
                        Ok(s) => if r.len() < 16 {
                            Err("eof"@)
                        } else {
                            match rd_blocks(s, r.skip(16), r.take(16), Seq::empty()) {
                                Err(e) => Err(e),
                                Ok(v) => Ok((s, v)),
                            }
                        },
                    },
                }
            },
        }
    }
}

struct Meta {
    schema: Option<String>,
    codec: String,
}

impl Meta {
    spec fn view(self) -> MetaView {
        MetaView {
            schema: match self.schema {
                Some(s) => Some(s@),
                None => None,
            },
            codec: self.codec@,
        }
    }
}

fn get_meta(b: &[u8], p: &mut usize) -> (r: Result<Meta, String>)
    requires
        *old(p) <= b@.len(),
    ensures
        match (
            r,
            rd_metas(b@.skip(*old(p) as int), MetaView { schema: None, codec: "null"@ }),
        ) {
            (Ok(m), Ok((v, rest))) => m.view() == v && *old(p) <= *final(p) <= b@.len() && b@.skip(
                *final(p) as int,
            ) == rest,
            (Err(e), Err(m)) => e@ == m,
            _ => false,
        },
{
    let ghost none = MetaView { schema: None, codec: "null"@ };
    let ghost whole = rd_metas(b@.skip(*p as int), none);
    let mut m: Meta = Meta { schema: None, codec: "null".to_owned() };
    loop
        invariant
            *old(p) <= *p <= b@.len(),
            none == (MetaView { schema: None, codec: "null"@ }),
            whole == rd_metas(b@.skip(*old(p) as int), none),
            rd_metas(b@.skip(*p as int), m.view()) == whole,
        decreases b@.len() - *p,
    {
        let ghost start = *p;
        let ghost m0 = m.view();
        let n: u64 = match get_count(b, p) {
            Ok(n) => n,
            Err(e) => return Err(e),
        };
        if n == 0 {
            return Ok(m);
        }
        let ghost body = rd_meta(n as nat, b@.skip(*p as int), m0);
        let mut k: u64 = 0;
        while k < n
            invariant
                k <= n,
                *old(p) <= start < *p <= b@.len(),
                none == (MetaView { schema: None, codec: "null"@ }),
                whole == rd_metas(b@.skip(*old(p) as int), none),
                body is Err ==> whole is Err && whole->Err_0 == body->Err_0,
                rd_meta((n - k) as nat, b@.skip(*p as int), m.view()) == body,
            decreases n - k,
        {
            let run: Vec<u8> = match get_run(b, p) {
                Ok(x) => x,
                Err(e) => return Err(e),
            };
            let key: String = match string_from_utf8(run) {
                Some(t) => t,
                None => return Err("k".to_owned()),
            };
            let v: Vec<u8> = match get_run(b, p) {
                Ok(x) => x,
                Err(e) => return Err(e),
            };
            if str_eq(key.as_str(), "avro.schema") {
                match string_from_utf8(v) {
                    Some(t) => m.schema = Some(t),
                    None => return Err("s".to_owned()),
                }
            } else if str_eq(key.as_str(), "avro.codec") {
                match string_from_utf8(v) {
                    Some(t) => m.codec = t,
                    None => return Err("c".to_owned()),
                }
            }
            k += 1;
        }
    }
}

fn same_bytes(a: &[u8], at: usize, b: &[u8]) -> (r: bool)
    requires
        at + b@.len() <= a@.len(),
    ensures
        r == (a@.subrange(at as int, at + b@.len()) == b@),
{
    let n: usize = a.len();
    let mut i: usize = 0;
    while i < b.len()
        invariant
            i <= b@.len(),
            n == a@.len(),
            at + b@.len() <= n,
            forall|k: int| 0 <= k < i ==> a@[at + k] == #[trigger] b@[k],
        decreases b@.len() - i,
    {
        if a[at + i] != b[i] {
            assert(a@.subrange(at as int, at + b@.len())[i as int] != b@[i as int]);
            return false;
        }
        i += 1;
    }
    assert(a@.subrange(at as int, at + b@.len()) =~= b@);
    true
}

fn get_blocks(s: &Schema, b: &[u8], p: usize, sync: &Vec<u8>) -> (r: Result<Vec<Value>, String>)
    requires
        p <= b@.len(),
        sync@.len() == 16,
    ensures
        match (r, rd_blocks(s.model(), b@.skip(p as int), sync@, Seq::empty())) {
            (Ok(v), Ok(m)) => values_model(v@) == m,
            (Err(e), Err(m)) => e@ == m,
            _ => false,
        },
{
    let n: usize = b.len();
    let ghost whole = rd_blocks(s.model(), b@.skip(p as int), sync@, Seq::empty());
    let mut out: Vec<Value> = Vec::new();
    let mut q: usize = p;
    assert(values_model(out@) =~= Seq::empty());
    while q < n
        invariant
            n == b@.len(),
            q <= n,
            sync@.len() == 16,
            whole == rd_blocks(s.model(), b@.skip(p as int), sync@, Seq::empty()),
            rd_blocks(s.model(), b@.skip(q as int), sync@, values_model(out@)) == whole,
        decreases n - q,
    {
        let ghost here = b@.skip(q as int);
        let ghost acc = values_model(out@);
        let ghost q0 = q;
        proof {
            long_shorter(here);
        }
        let count: i64 = match rlong(b, &mut q) {
            Ok(v) => v,
            Err(e) => return Err(e),
        };
        let size: i64 = match rlong(b, &mut q) {
            Ok(v) => v,
            Err(e) => return Err(e),
        };
        let ghost r2 = b@.skip(q as int);
        let left: usize = n - q;
        let many: u64 = if count >= 0 { count as u64 } else { (-(count + 1)) as u64 + 1 };
        let ghost body = dec_items(s.model(), many as nat, r2, acc);
        let mut p2: usize = q;
        let mut k: u64 = 0;
        while k < many
            invariant
                k <= many,
                n == b@.len(),
                p2 <= n,
                whole == rd_blocks(s.model(), b@.skip(p as int), sync@, Seq::empty()),
                body is Err ==> whole is Err && whole->Err_0 == body->Err_0.0,
                dec_items(s.model(), (many - k) as nat, b@.skip(p2 as int), values_model(out@))
                    == body,
            decreases many - k,
        {
            let v: Value = match read_value(s, b, &mut p2) {
                Ok(v) => v,
                Err(e) => return Err(e),
            };
            let ghost before = out@;
            out.push(v);
            assert(values_model(out@) =~= values_model(before).push(v.model()));
            k += 1;
        }
        if size < 0 || left < 16 || size as u64 > (left - 16) as u64 {
            return Err("eof".to_owned());
        }
        let end: usize = q + size as usize;
        assert(r2.subrange(size as int, size + 16) =~= b@.subrange(end as int, end + 16));
        if !same_bytes(b, end, sync.as_slice()) {
            return Err("sync marker mismatch".to_owned());
        }
        assert(r2.skip(size + 16) =~= b@.skip(end + 16));
        q = end + 16;
    }
    assert(b@.skip(q as int).len() == 0);
    Ok(out)
}

/// Reads a file: its schema and its values.
pub fn read_container(b: &[u8]) -> (r: Result<(Schema, Vec<Value>), String>)
    ensures
        match (r, rd_container(b@)) {
            (Ok((s, v)), Ok((sm, vm))) => s.model() == sm && values_model(v@) == vm,
            (Err(e), Err(m)) => e@ == m,
            _ => false,
        },
{
    if b.len() < 4 {
        return Err("not an avro container".to_owned());
    }
    let mut head: Vec<u8> = Vec::new();
    put_magic(&mut head);
    assert(head@ =~= magic());
    assert(b@.subrange(0, 4) =~= b@.take(4));
    if !same_bytes(b, 0, head.as_slice()) {
        return Err("not an avro container".to_owned());
    }
    let mut p: usize = 4;
    let m: Meta = match get_meta(b, &mut p) {
        Ok(m) => m,
        Err(e) => return Err(e),
    };
    if !str_eq(m.codec.as_str(), "null") {
        let a: String = join2("codec ", m.codec.as_str());
        return Err(join2(a.as_str(), " not supported (use null)"));
    }
    let text: String = match m.schema {
        Some(t) => t,
        None => return Err("no schema in header".to_owned()),
    };
    let s: Schema = match schema_of_text(text.as_str()) {
        Ok(s) => s,
        Err(e) => return Err(e),
    };
    if b.len() - p < 16 {
        return Err("eof".to_owned());
    }
    let sync: Vec<u8> = copy_range(b, p, p + 16);
    proof {
        let r = b@.skip(p as int);
        assert(r.take(16) =~= sync@);
        assert(r.skip(16) =~= b@.skip(p + 16));
    }
    match get_blocks(&s, b, p + 16, &sync) {
        Ok(v) => Ok((s, v)),
        Err(e) => Err(e),
    }
}

/// A file that was written is read back: its schema and its values.
pub proof fn container_read_back(schema_json: Seq<char>, values: Seq<ValueView>)
    requires
        text_schema(schema_json) is Ok,
        forall|i: int|
            0 <= i < values.len() ==> shaped(
                text_schema(schema_json)->Ok_0,
                #[trigger] values[i],
            ),
        encode_utf8(schema_json).len() <= i64::MAX,
        values.len() <= i64::MAX,
        enc_items(text_schema(schema_json)->Ok_0, values, values.len() as int)->Ok_0.len()
            <= i64::MAX,
    ensures
        container(schema_json, values) is Ok,
        rd_container(container(schema_json, values)->Ok_0) == Ok::<
            (SchemaView, Seq<ValueView>),
            Seq<char>,
        >((text_schema(schema_json)->Ok_0, values)),
{
    let s = text_schema(schema_json)->Ok_0;
    all_encoded(s, values);
    let payload = enc_items(s, values, values.len() as int)->Ok_0;
    let block = wr_block(values.len(), payload);
    header_split(schema_json, block);
    header_read(schema_json, sync_bytes() + block);
    sync_split(block);
    block_read(s, values, payload);
}

proof fn all_encoded(s: SchemaView, values: Seq<ValueView>)
    requires
        forall|i: int| 0 <= i < values.len() ==> shaped(s, #[trigger] values[i]),
    ensures
        enc_items(s, values, values.len() as int) == Ok::<Seq<u8>, Fail>(
            items_tail(s, values, 0),
        ),
{
    assert forall|i: int| 0 <= i < values.len() implies crate::iceberg::avro::enc(
        s,
        #[trigger] values[i],
    ) is Ok by {
        value_read_back(s, values[i], Seq::empty());
    }
    items_join(s, values, values.len() as int);
    let payload = enc_items(s, values, values.len() as int)->Ok_0;
    assert(items_tail(s, values, values.len() as int) =~= Seq::<u8>::empty());
    assert(payload =~= items_tail(s, values, 0));
}

proof fn sync_split(block: Seq<u8>)
    ensures
        sync_bytes().len() == 16,
        (sync_bytes() + block).len() >= 16,
        (sync_bytes() + block).skip(16) == block,
        (sync_bytes() + block).take(16) == sync_bytes(),
{
    reveal(sync_bytes);
    assert((sync_bytes() + block).skip(16) =~= block);
    assert((sync_bytes() + block).take(16) =~= sync_bytes());
}

proof fn header_split(schema_json: Seq<char>, block: Seq<u8>)
    ensures
        (wr_header(schema_json) + block).len() >= 4,
        (wr_header(schema_json) + block).take(4) == magic(),
        (wr_header(schema_json) + block).skip(4) == wr_long(2) + (wr_meta(schema_json) + (wr_long(0)
            + (sync_bytes() + block))),
{
    let m = wr_meta(schema_json);
    let tail = wr_long(2) + (m + (wr_long(0) + sync_bytes()));
    let b = wr_header(schema_json) + block;
    assert(b.take(4) =~= magic());
    assert(b.skip(4) =~= tail + block);
    regroup(wr_long(2), m + (wr_long(0) + sync_bytes()), block);
    regroup(m, wr_long(0) + sync_bytes(), block);
    regroup(wr_long(0), sync_bytes(), block);
}

proof fn block_read(s: SchemaView, values: Seq<ValueView>, payload: Seq<u8>)
    requires
        forall|i: int| 0 <= i < values.len() ==> shaped(s, #[trigger] values[i]),
        values.len() <= i64::MAX,
        payload.len() <= i64::MAX,
        payload == items_tail(s, values, 0),
    ensures
        rd_blocks(s, wr_block(values.len(), payload), sync_bytes(), Seq::empty()) == Ok::<
            Seq<ValueView>,
            Seq<char>,
        >(values),
{
    let block = wr_block(values.len(), payload);
    sync_split(block);
    let e2 = payload + sync_bytes();
    let e1 = wr_len(payload.len()) + e2;
    len_read_back(values.len(), e1);
    len_read_back(payload.len(), e2);
    long_shorter(block);
    long_shorter(e1);
    items_read(s, values, 0, sync_bytes());
    assert(values.take(0) =~= Seq::empty());
    let n = payload.len() as int;
    assert(e2.subrange(n, n + 16) =~= sync_bytes());
    assert(e2.skip(n + 16) =~= Seq::<u8>::empty());
    assert(rd_blocks(s, Seq::empty(), sync_bytes(), values) == Ok::<Seq<ValueView>, Seq<char>>(
        values,
    ));
    assert(magnitude((values.len() as i64) as int) == values.len());
    assert(rd_long(block) == Ok::<(i64, Seq<u8>), Fail>((values.len() as i64, e1)));
    assert(rd_long(e1) == Ok::<(i64, Seq<u8>), Fail>((n as i64, e2)));
    assert(dec_items(s, values.len(), e2, Seq::empty()) == Ok::<
        (Seq<ValueView>, Seq<u8>),
        Fail,
    >((values, sync_bytes())));
}

proof fn header_words()
    ensures
        encode_utf8("avro.schema"@).len() == 11,
        encode_utf8("avro.codec"@).len() == 10,
        encode_utf8("null"@).len() == 4,
        "avro.schema"@ != "avro.codec"@,
{
    reveal_strlit("avro.schema");
    reveal_strlit("avro.codec");
    reveal_strlit("null");
    vstd::utf8::is_ascii_chars_encode_utf8("avro.schema"@);
    vstd::utf8::is_ascii_chars_encode_utf8("avro.codec"@);
    vstd::utf8::is_ascii_chars_encode_utf8("null"@);
    assert("avro.schema"@.len() != "avro.codec"@.len());
}

/// One entry of a header is read.
proof fn entry_read(n: nat, key: Seq<char>, val: Seq<char>, rest: Seq<u8>, m: MetaView)
    requires
        n > 0,
        encode_utf8(key).len() <= i64::MAX,
        encode_utf8(val).len() <= i64::MAX,
    ensures
        rd_meta(n, wr_run(encode_utf8(key)) + (wr_run(encode_utf8(val)) + rest), m) == rd_meta(
            (n - 1) as nat,
            rest,
            if key == "avro.schema"@ {
                MetaView { schema: Some(val), ..m }
            } else if key == "avro.codec"@ {
                MetaView { codec: val, ..m }
            } else {
                m
            },
        ),
{
    let t = wr_run(encode_utf8(val)) + rest;
    run_read_back(encode_utf8(key), t);
    run_read_back(encode_utf8(val), rest);
    vstd::utf8::encode_utf8_valid_utf8(key);
    vstd::utf8::encode_utf8_decode_utf8(key);
    vstd::utf8::encode_utf8_valid_utf8(val);
    vstd::utf8::encode_utf8_decode_utf8(val);
}

proof fn header_read(schema_json: Seq<char>, rest: Seq<u8>)
    requires
        encode_utf8(schema_json).len() <= i64::MAX,
    ensures
        rd_metas(
            wr_long(2) + (wr_meta(schema_json) + (wr_long(0) + rest)),
            MetaView { schema: None, codec: "null"@ },
        ) == Ok::<(MetaView, Seq<u8>), Seq<char>>(
            (MetaView { schema: Some(schema_json), codec: "null"@ }, rest),
        ),
{
    header_words();
    let none = MetaView { schema: None, codec: "null"@ };
    let one = MetaView { schema: Some(schema_json), codec: "null"@ };
    let r1 = wr_long(0) + rest;
    let a = wr_run(encode_utf8("avro.schema"@));
    let b = wr_run(encode_utf8(schema_json));
    let c = wr_run(encode_utf8("avro.codec"@));
    let d = wr_run(encode_utf8("null"@));
    let t2 = c + (d + r1);
    let t0 = a + (b + t2);
    regroup(c, d, r1);
    regroup(b, c + d, r1);
    regroup(a, b + (c + d), r1);
    assert(wr_meta(schema_json) + r1 == t0);
    entry_read(2, "avro.schema"@, schema_json, t2, none);
    entry_read(1, "avro.codec"@, "null"@, r1, one);
    assert(rd_meta(0, r1, one) == Ok::<(MetaView, Seq<u8>), Seq<char>>((one, r1)));
    long_read_back(2, t0);
    long_read_back(0, rest);
    long_shorter(wr_long(2) + t0);
    assert(rd_metas(r1, one) == Ok::<(MetaView, Seq<u8>), Seq<char>>((one, rest)));
    assert(r1.len() <= t0.len());
}

} // verus!
