//! Avro schemas as JSON.
use crate::avro::{fields_model, record_model, schemas_model, union_model, Schema, SchemaView};
use crate::doc::{plain, MAX_DEPTH};
use crate::iceberg::json::{
    arr_model, items_model, json_read_back, member, member_inside, members_model, numbers_spelled, obj_model, parsed,
    printed, Json, JsonView,
};
use crate::text::{str_eq, text_lt};
use vstd::prelude::*;
use vstd::utf8::encode_utf8;

verus! {

// ---------------------------------------------------------------------------
// Schemas as JSON
// ---------------------------------------------------------------------------

/// A schema as JSON.
pub open spec fn schema_json(s: SchemaView) -> JsonView
    decreases s,
{
    match s {
        SchemaView::Null => JsonView::Str("null"@),
        SchemaView::Boolean => JsonView::Str("boolean"@),
        SchemaView::Int => JsonView::Str("int"@),
        SchemaView::Long => JsonView::Str("long"@),
        SchemaView::Float => JsonView::Str("float"@),
        SchemaView::Double => JsonView::Str("double"@),
        SchemaView::Bytes => JsonView::Str("bytes"@),
        SchemaView::String => JsonView::Str("string"@),
        SchemaView::Record(name, f) => JsonView::Obj(
            seq![
                (
                    "fields"@,
                    JsonView::Arr(
                        Seq::new(
                            f.len(),
                            |i: int|
                                if 0 <= i < f.len() {
                                    field_json(f[i].0, schema_json(f[i].1))
                                } else {
                                    arbitrary()
                                },
                        ),
                    ),
                ),
                ("name"@, JsonView::Str(name)),
                ("type"@, JsonView::Str("record"@)),
            ],
        ),
        SchemaView::Array(i) => JsonView::Obj(
            seq![("items"@, schema_json(*i)), ("type"@, JsonView::Str("array"@))],
        ),
        SchemaView::Dict(v) => JsonView::Obj(
            seq![("type"@, JsonView::Str("map"@)), ("values"@, schema_json(*v))],
        ),
        SchemaView::Union(b) => JsonView::Arr(
            Seq::new(
                b.len(),
                |i: int|
                    if 0 <= i < b.len() {
                        schema_json(b[i])
                    } else {
                        arbitrary()
                    },
            ),
        ),
    }
}

pub open spec fn field_json(name: Seq<char>, t: JsonView) -> JsonView {
    JsonView::Obj(seq![("name"@, JsonView::Str(name)), ("type"@, t)])
}

fn word(s: &str) -> (j: Json)
    ensures
        j.model() == JsonView::Str(s@),
{
    Json::Str(s.to_owned())
}

fn pair(a: &str, x: Json, b: &str, y: Json) -> (j: Json)
    ensures
        j.model() == JsonView::Obj(seq![(a@, x.model()), (b@, y.model())]),
{
    let mut o: Vec<(String, Json)> = Vec::new();
    o.push((a.to_owned(), x));
    o.push((b.to_owned(), y));
    proof {
        obj_model(o);
        assert(members_model(o@) =~= seq![(a@, x.model()), (b@, y.model())]);
    }
    Json::Obj(o)
}

/// A schema as JSON.
pub fn schema_to_json(s: &Schema) -> (j: Json)
    ensures
        j.model() == schema_json(s.model()),
    decreases s,
{
    match s {
        Schema::Null => word("null"),
        Schema::Boolean => word("boolean"),
        Schema::Int => word("int"),
        Schema::Long => word("long"),
        Schema::Float => word("float"),
        Schema::Double => word("double"),
        Schema::Bytes => word("bytes"),
        Schema::String => word("string"),
        Schema::Record { name, fields } => {
            let ghost m = fields_model(fields@);
            proof {
                record_model(*name, *fields);
            }
            let mut a: Vec<Json> = Vec::new();
            let mut k: usize = 0;
            while k < fields.len()
                invariant
                    k <= fields@.len(),
                    m == fields_model(fields@),
                    *s == (Schema::Record { name: *name, fields: *fields }),
                    a@.len() == k,
                    forall|i: int|
                        #![trigger a@[i]]
                        0 <= i < k ==> a@[i].model() == field_json(m[i].0, schema_json(m[i].1)),
                decreases fields@.len() - k,
            {
                assert(decreases_to!(s => s->fields@[k as int].1));
                let t: Json = schema_to_json(&fields[k].1);
                a.push(pair("name", Json::Str(fields[k].0.clone()), "type", t));
                k += 1;
            }
            let mut o: Vec<(String, Json)> = Vec::new();
            let list: Json = Json::Arr(a);
            o.push(("fields".to_owned(), list));
            o.push(("name".to_owned(), Json::Str(name.clone())));
            o.push(("type".to_owned(), word("record")));
            proof {
                arr_model(a);
                obj_model(o);
                let want = schema_json(s.model())->Obj_0;
                assert(items_model(a@) =~= want[0].1->Arr_0);
                assert(members_model(o@) =~= want);
            }
            Json::Obj(o)
        },
        Schema::Array(i) => {
            let t: Json = schema_to_json(i);
            pair("items", t, "type", word("array"))
        },
        Schema::Dict(i) => {
            let t: Json = schema_to_json(i);
            pair("type", word("map"), "values", t)
        },
        Schema::Union(b) => {
            let ghost m = schemas_model(b@);
            proof {
                union_model(*b);
            }
            let mut a: Vec<Json> = Vec::new();
            let mut k: usize = 0;
            while k < b.len()
                invariant
                    k <= b@.len(),
                    m == schemas_model(b@),
                    *s == Schema::Union(*b),
                    a@.len() == k,
                    forall|i: int| 0 <= i < k ==> (#[trigger] a@[i]).model() == schema_json(m[i]),
                decreases b@.len() - k,
            {
                assert(decreases_to!(s => s->Union_0@[k as int]));
                a.push(schema_to_json(&b[k]));
                k += 1;
            }
            proof {
                arr_model(a);
                assert(items_model(a@) =~= schema_json(s.model())->Arr_0);
            }
            Json::Arr(a)
        },
    }
}

/// The schema a word stands for.
pub open spec fn primitive(s: Seq<char>) -> Option<SchemaView> {
    if s == "null"@ {
        Some(SchemaView::Null)
    } else if s == "boolean"@ {
        Some(SchemaView::Boolean)
    } else if s == "int"@ {
        Some(SchemaView::Int)
    } else if s == "long"@ {
        Some(SchemaView::Long)
    } else if s == "float"@ {
        Some(SchemaView::Float)
    } else if s == "double"@ {
        Some(SchemaView::Double)
    } else if s == "bytes"@ {
        Some(SchemaView::Bytes)
    } else if s == "string"@ {
        Some(SchemaView::String)
    } else {
        None
    }
}

pub open spec fn text_at(o: Seq<(Seq<char>, JsonView)>, k: Seq<char>) -> Option<Seq<char>> {
    match member(o, k) {
        Some(JsonView::Str(s)) => Some(s),
        _ => None,
    }
}

/// The schema some JSON describes; nothing where it describes none.
pub open spec fn schema_of(j: JsonView) -> Option<SchemaView>
    decreases j, 0int,
{
    match j {
        JsonView::Str(s) => primitive(s),
        JsonView::Arr(a) => match schemas_of(a, a.len() as int) {
            None => None,
            Some(b) => Some(SchemaView::Union(b)),
        },
        JsonView::Obj(o) => {
            proof {
                member_inside(o, "fields"@);
                member_inside(o, "items"@);
                member_inside(o, "values"@);
            }
            match text_at(o, "type"@) {
                None => None,
                Some(ty) => if ty == "record"@ {
                    match member(o, "fields"@) {
                        Some(JsonView::Arr(a)) => match fields_of(a, a.len() as int) {
                            None => None,
                            Some(f) => Some(
                                SchemaView::Record(
                                    match text_at(o, "name"@) {
                                        Some(n) => n,
                                        None => "r"@,
                                    },
                                    f,
                                ),
                            ),
                        },
                        _ => None,
                    }
                } else if ty == "array"@ {
                    match member(o, "items"@) {
                        Some(i) => match schema_of(i) {
                            None => None,
                            Some(s) => Some(SchemaView::Array(Box::new(s))),
                        },
                        None => None,
                    }
                } else if ty == "map"@ {
                    match member(o, "values"@) {
                        Some(i) => match schema_of(i) {
                            None => None,
                            Some(s) => Some(SchemaView::Dict(Box::new(s))),
                        },
                        None => None,
                    }
                } else {
                    primitive(ty)
                },
            }
        },
        _ => None,
    }
}

/// The first `k` branches of a union.
pub open spec fn schemas_of(a: Seq<JsonView>, k: int) -> Option<Seq<SchemaView>>
    decreases a, k,
{
    if k <= 0 || k > a.len() {
        Some(Seq::empty())
    } else {
        match schemas_of(a, k - 1) {
            None => None,
            Some(b) => match schema_of(a[k - 1]) {
                None => None,
                Some(s) => Some(b.push(s)),
            },
        }
    }
}

/// The first `k` fields of a record.
pub open spec fn fields_of(a: Seq<JsonView>, k: int) -> Option<Seq<(Seq<char>, SchemaView)>>
    decreases a, k,
{
    if k <= 0 || k > a.len() {
        Some(Seq::empty())
    } else {
        match fields_of(a, k - 1) {
            None => None,
            Some(f) => match a[k - 1] {
                JsonView::Obj(o) => {
                    proof {
                        member_inside(o, "type"@);
                    }
                    match (text_at(o, "name"@), member(o, "type"@)) {
                        (Some(n), Some(t)) => match schema_of(t) {
                            None => None,
                            Some(s) => Some(f.push((n, s))),
                        },
                        _ => None,
                    }
                },
                _ => None,
            },
        }
    }
}

pub open spec fn reads(r: Option<Schema>, want: Option<SchemaView>) -> bool {
    match (r, want) {
        (Some(s), Some(v)) => s.model() == v,
        (None, None) => true,
        _ => false,
    }
}

fn primitive_schema(s: &str) -> (r: Option<Schema>)
    ensures
        reads(r, primitive(s@)),
{
    if str_eq(s, "null") {
        Some(Schema::Null)
    } else if str_eq(s, "boolean") {
        Some(Schema::Boolean)
    } else if str_eq(s, "int") {
        Some(Schema::Int)
    } else if str_eq(s, "long") {
        Some(Schema::Long)
    } else if str_eq(s, "float") {
        Some(Schema::Float)
    } else if str_eq(s, "double") {
        Some(Schema::Double)
    } else if str_eq(s, "bytes") {
        Some(Schema::Bytes)
    } else if str_eq(s, "string") {
        Some(Schema::String)
    } else {
        None
    }
}

proof fn get_inside(j: Json, k: Seq<char>, v: Json)
    requires
        j.model().at(k) == Some(v.model()),
    ensures
        decreases_to!(j.model() => v.model()),
{
    if let JsonView::Obj(o) = j.model() {
        member_inside(o, k);
    }
}

fn text_of<'a>(j: &'a Json, k: &str) -> (r: Option<&'a str>)
    ensures
        match (r, j.model().at(k@)) {
            (Some(t), Some(v)) => v == JsonView::Str(t@),
            (None, Some(v)) => !(v is Str),
            (None, None) => true,
            _ => false,
        },
{
    match j.get(k) {
        Some(v) => v.s(),
        None => None,
    }
}

/// Reads a schema from JSON.
pub fn parse_schema(j: &Json) -> (r: Option<Schema>)
    ensures
        reads(r, schema_of(j.model())),
    decreases j.model(), 0int,
{
    match j {
        Json::Str(s) => primitive_schema(s.as_str()),
        Json::Arr(a) => {
            let ghost m = items_model(a@);
            proof {
                arr_model(*a);
            }
            let mut out: Vec<Schema> = Vec::new();
            let mut k: usize = 0;
            assert(schemas_model(out@) =~= Seq::empty());
            while k < a.len()
                invariant
                    k <= a@.len(),
                    m == items_model(a@),
                    j.model() == JsonView::Arr(m),
                    schemas_of(m, k as int) == Some(schemas_model(out@)),
                decreases a@.len() - k,
            {
                assert(decreases_to!(j.model() => j.model()->Arr_0[k as int]));
                match parse_schema(&a[k]) {
                    Some(s) => {
                        let ghost before = out@;
                        out.push(s);
                        assert(schemas_model(out@) =~= schemas_model(before).push(s.model()));
                    },
                    None => {
                        proof {
                            schemas_fail(m, k + 1);
                        }
                        return None;
                    },
                }
                k += 1;
            }
            proof {
                union_model(out);
            }
            Some(Schema::Union(out))
        },
        Json::Obj(o) => {
            proof {
                obj_model(*o);
            }
            let ty: &str = match text_of(j, "type") {
                Some(t) => t,
                None => return None,
            };
            if str_eq(ty, "record") {
                match j.get("fields") {
                    Some(f) => {
                        proof {
                            get_inside(*j, "fields"@, *f);
                        }
                        match f.arr() {
                            Some(a) => {
                                let name: String = match text_of(j, "name") {
                                    Some(n) => n.to_owned(),
                                    None => "r".to_owned(),
                                };
                                match parse_fields(a) {
                                    Some(fields) => {
                                        proof {
                                            record_model(name, fields);
                                        }
                                        Some(Schema::Record { name, fields })
                                    },
                                    None => None,
                                }
                            },
                            None => None,
                        }
                    },
                    None => None,
                }
            } else if str_eq(ty, "array") {
                match j.get("items") {
                    Some(i) => {
                        proof {
                            get_inside(*j, "items"@, *i);
                        }
                        match parse_schema(i) {
                            Some(s) => Some(Schema::Array(Box::new(s))),
                            None => None,
                        }
                    },
                    None => None,
                }
            } else if str_eq(ty, "map") {
                match j.get("values") {
                    Some(i) => {
                        proof {
                            get_inside(*j, "values"@, *i);
                        }
                        match parse_schema(i) {
                            Some(s) => Some(Schema::Dict(Box::new(s))),
                            None => None,
                        }
                    },
                    None => None,
                }
            } else {
                primitive_schema(ty)
            }
        },
        _ => None,
    }
}

proof fn schemas_fail(a: Seq<JsonView>, k: int)
    requires
        0 <= k <= a.len(),
        schemas_of(a, k) is None,
    ensures
        schemas_of(a, a.len() as int) is None,
    decreases a.len() - k,
{
    if k < a.len() {
        schemas_fail(a, k + 1);
    }
}

fn parse_fields(a: &Vec<Json>) -> (r: Option<Vec<(String, Schema)>>)
    ensures
        match (r, fields_of(items_model(a@), a@.len() as int)) {
            (Some(f), Some(v)) => fields_model(f@) == v,
            (None, None) => true,
            _ => false,
        },
    decreases items_model(a@), 0int,
{
    let ghost m = items_model(a@);
    let mut out: Vec<(String, Schema)> = Vec::new();
    let mut k: usize = 0;
    assert(fields_model(out@) =~= Seq::empty());
    while k < a.len()
        invariant
            k <= a@.len(),
            m == items_model(a@),
            fields_of(m, k as int) == Some(fields_model(out@)),
        decreases a@.len() - k,
    {
        let f: &Json = &a[k];
        assert(decreases_to!(m => m[k as int]));
        proof {
            if fields_of(m, k + 1) is None {
                fields_fail(m, k + 1);
            }
        }
        let name: String = match text_of(f, "name") {
            Some(n) => n.to_owned(),
            None => return None,
        };
        match f.get("type") {
            Some(t) => {
                proof {
                    get_inside(*f, "type"@, *t);
                }
                match parse_schema(t) {
                    Some(s) => {
                        let ghost before = out@;
                        out.push((name, s));
                        assert(fields_model(out@) =~= fields_model(before).push((name@, s.model())));
                    },
                    None => return None,
                }
            },
            None => return None,
        }
        k += 1;
    }
    Some(out)
}

proof fn fields_fail(a: Seq<JsonView>, k: int)
    requires
        0 <= k <= a.len(),
        fields_of(a, k) is None,
    ensures
        fields_of(a, a.len() as int) is None,
    decreases a.len() - k,
{
    if k < a.len() {
        fields_fail(a, k + 1);
    }
}

// ---------------------------------------------------------------------------
// Schemas are read back
// ---------------------------------------------------------------------------

/// Whether a schema can be read back from its text: it is nested at most
/// `depth` deep as JSON.
pub open spec fn spelled(s: SchemaView, depth: nat) -> bool
    decreases s,
{
    match s {
        SchemaView::Record(name, f) => depth >= 3 && forall|i: int|
            #![trigger f[i]]
            0 <= i < f.len() ==> spelled(f[i].1, (depth - 3) as nat),
        SchemaView::Array(i) => depth >= 1 && spelled(*i, (depth - 1) as nat),
        SchemaView::Dict(v) => depth >= 1 && spelled(*v, (depth - 1) as nat),
        SchemaView::Union(b) => depth >= 1 && forall|i: int|
            #![trigger b[i]]
            0 <= i < b.len() ==> spelled(b[i], (depth - 1) as nat),
        _ => true,
    }
}

proof fn words_differ()
    ensures
        "record"@ != "array"@,
        "record"@ != "map"@,
        "array"@ != "map"@,
        "fields"@ != "name"@,
        "fields"@ != "type"@,
        "name"@ != "type"@,
        "items"@ != "type"@,
        "values"@ != "type"@,
        "null"@.len() == 4,
        "boolean"@.len() == 7,
        "int"@.len() == 3,
        "long"@.len() == 4,
        "float"@.len() == 5,
        "double"@.len() == 6,
        "bytes"@.len() == 5,
        "string"@.len() == 6,
        "long"@ != "null"@,
        "bytes"@ != "float"@,
        "string"@ != "double"@,
{
    reveal_strlit("record");
    reveal_strlit("array");
    reveal_strlit("map");
    reveal_strlit("fields");
    reveal_strlit("name");
    reveal_strlit("type");
    reveal_strlit("items");
    reveal_strlit("values");
    reveal_strlit("null");
    reveal_strlit("boolean");
    reveal_strlit("int");
    reveal_strlit("long");
    reveal_strlit("float");
    reveal_strlit("double");
    reveal_strlit("bytes");
    reveal_strlit("string");
    assert("record"@[0] == 'r' && "array"@[0] == 'a' && "map"@[0] == 'm');
    assert("fields"@[0] == 'f' && "name"@[0] == 'n' && "type"@[0] == 't');
    assert("items"@[0] == 'i' && "values"@[0] == 'v');
    assert("long"@[0] == 'l' && "null"@[0] == 'n');
    assert("bytes"@[0] == 'b' && "float"@[0] == 'f');
    assert("string"@[0] == 's' && "double"@[0] == 'd');
}

proof fn member_two(a: Seq<char>, x: JsonView, b: Seq<char>, y: JsonView)
    requires
        a != b,
    ensures
        member(seq![(a, x), (b, y)], a) == Some(x),
        member(seq![(a, x), (b, y)], b) == Some(y),
{
    let o = seq![(a, x), (b, y)];
    assert(o.skip(1)[0] == (b, y));
    reveal_with_fuel(member, 3);
}

proof fn member_three(a: Seq<char>, x: JsonView, b: Seq<char>, y: JsonView, c: Seq<char>, z: JsonView)
    requires
        a != b,
        a != c,
        b != c,
    ensures
        member(seq![(a, x), (b, y), (c, z)], a) == Some(x),
        member(seq![(a, x), (b, y), (c, z)], b) == Some(y),
        member(seq![(a, x), (b, y), (c, z)], c) == Some(z),
{
    let o = seq![(a, x), (b, y), (c, z)];
    assert(o.skip(1) =~= seq![(b, y), (c, z)]);
    member_two(b, y, c, z);
}

/// A schema is read back from its JSON.
pub proof fn schema_read_back(s: SchemaView)
    ensures
        schema_of(schema_json(s)) == Some(s),
    decreases s, 0int,
{
    words_differ();
    match s {
        SchemaView::Record(name, f) => {
            let o = schema_json(s)->Obj_0;
            let a = o[0].1->Arr_0;
            member_three(
                "fields"@,
                o[0].1,
                "name"@,
                JsonView::Str(name),
                "type"@,
                JsonView::Str("record"@),
            );
            assert(o =~= seq![
                ("fields"@, o[0].1),
                ("name"@, JsonView::Str(name)),
                ("type"@, JsonView::Str("record"@)),
            ]);
            fields_read_back(f, a, f.len() as int);
            assert(f.take(f.len() as int) =~= f);
        },
        SchemaView::Array(i) => {
            member_two("items"@, schema_json(*i), "type"@, JsonView::Str("array"@));
            schema_read_back(*i);
        },
        SchemaView::Dict(v) => {
            member_two("type"@, JsonView::Str("map"@), "values"@, schema_json(*v));
            schema_read_back(*v);
        },
        SchemaView::Union(b) => {
            let a = schema_json(s)->Arr_0;
            union_read_back(b, a, b.len() as int);
            assert(b.take(b.len() as int) =~= b);
        },
        _ => {},
    }
}

proof fn fields_read_back(f: Seq<(Seq<char>, SchemaView)>, a: Seq<JsonView>, k: int)
    requires
        0 <= k <= f.len(),
        a.len() == f.len(),
        forall|i: int|
            #![trigger a[i]]
            0 <= i < f.len() ==> a[i] == field_json(f[i].0, schema_json(f[i].1)),
    ensures
        fields_of(a, k) == Some(f.take(k)),
    decreases f, k,
{
    if k > 0 {
        words_differ();
        fields_read_back(f, a, k - 1);
        assert(a[k - 1] == field_json(f[k - 1].0, schema_json(f[k - 1].1)));
        member_two("name"@, JsonView::Str(f[k - 1].0), "type"@, schema_json(f[k - 1].1));
        schema_read_back(f[k - 1].1);
        assert(f.take(k - 1).push((f[k - 1].0, f[k - 1].1)) =~= f.take(k));
    } else {
        assert(f.take(0) =~= Seq::empty());
    }
}

proof fn union_read_back(b: Seq<SchemaView>, a: Seq<JsonView>, k: int)
    requires
        0 <= k <= b.len(),
        a.len() == b.len(),
        forall|i: int| #![trigger a[i]] 0 <= i < b.len() ==> a[i] == schema_json(b[i]),
    ensures
        schemas_of(a, k) == Some(b.take(k)),
    decreases b, k,
{
    if k > 0 {
        union_read_back(b, a, k - 1);
        assert(a[k - 1] == schema_json(b[k - 1]));
        schema_read_back(b[k - 1]);
        assert(b.take(k - 1).push(b[k - 1]) =~= b.take(k));
    } else {
        assert(b.take(0) =~= Seq::empty());
    }
}

/// The order of two ASCII words that differ in their first letters.
proof fn first_letters(a: Seq<char>, b: Seq<char>)
    requires
        vstd::utf8::is_ascii_chars(a),
        vstd::utf8::is_ascii_chars(b),
        a.len() > 0,
        b.len() > 0,
        a[0] < b[0],
    ensures
        text_lt(a, b),
{
    vstd::utf8::is_ascii_chars_encode_utf8(a);
    vstd::utf8::is_ascii_chars_encode_utf8(b);
    assert(a[0] as u8 == encode_utf8(a)[0]);
    assert(b[0] as u8 == encode_utf8(b)[0]);
}

proof fn words_in_order()
    ensures
        text_lt("fields"@, "name"@),
        text_lt("fields"@, "type"@),
        text_lt("name"@, "type"@),
        text_lt("items"@, "type"@),
        text_lt("type"@, "values"@),
{
    reveal_strlit("record");
    reveal_strlit("array");
    reveal_strlit("map");
    reveal_strlit("fields");
    reveal_strlit("name");
    reveal_strlit("type");
    reveal_strlit("items");
    reveal_strlit("values");
    reveal_strlit("null");
    reveal_strlit("boolean");
    reveal_strlit("int");
    reveal_strlit("long");
    reveal_strlit("float");
    reveal_strlit("double");
    reveal_strlit("bytes");
    reveal_strlit("string");
    first_letters("fields"@, "name"@);
    first_letters("fields"@, "type"@);
    first_letters("name"@, "type"@);
    first_letters("items"@, "type"@);
    first_letters("type"@, "values"@);
}

proof fn two_plain(a: Seq<char>, x: JsonView, b: Seq<char>, y: JsonView, d: nat)
    requires
        d > 0,
        text_lt(a, b),
        plain(x, (d - 1) as nat),
        plain(y, (d - 1) as nat),
    ensures
        plain(JsonView::Obj(seq![(a, x), (b, y)]), d),
{
    let j = JsonView::Obj(seq![(a, x), (b, y)]);
    let o = j->Obj_0;
    assert(o[0] == (a, x) && o[1] == (b, y));
}

proof fn three_plain(
    a: Seq<char>,
    x: JsonView,
    b: Seq<char>,
    y: JsonView,
    c: Seq<char>,
    z: JsonView,
    d: nat,
)
    requires
        d > 0,
        text_lt(a, b),
        text_lt(a, c),
        text_lt(b, c),
        plain(x, (d - 1) as nat),
        plain(y, (d - 1) as nat),
        plain(z, (d - 1) as nat),
        numbers_spelled(x),
        numbers_spelled(y),
        numbers_spelled(z),
    ensures
        plain(JsonView::Obj(seq![(a, x), (b, y), (c, z)]), d),
        numbers_spelled(JsonView::Obj(seq![(a, x), (b, y), (c, z)])),
{
    let j = JsonView::Obj(seq![(a, x), (b, y), (c, z)]);
    let o = j->Obj_0;
    assert(o[0] == (a, x) && o[1] == (b, y) && o[2] == (c, z));
}

proof fn two_spelled(a: Seq<char>, x: JsonView, b: Seq<char>, y: JsonView)
    requires
        numbers_spelled(x),
        numbers_spelled(y),
    ensures
        numbers_spelled(JsonView::Obj(seq![(a, x), (b, y)])),
{
    let j = JsonView::Obj(seq![(a, x), (b, y)]);
    let o = j->Obj_0;
    assert(o[0] == (a, x) && o[1] == (b, y));
}

/// The JSON of a schema is plain.
proof fn schema_plain(s: SchemaView, d: nat)
    requires
        spelled(s, d),
    ensures
        plain(schema_json(s), d),
        numbers_spelled(schema_json(s)),
    decreases s,
{
    words_in_order();
    let j = schema_json(s);
    match s {
        SchemaView::Record(name, f) => {
            let o = j->Obj_0;
            let a = o[0].1->Arr_0;
            assert forall|i: int|
                #![trigger a[i]]
                0 <= i < a.len() implies plain(a[i], (d - 2) as nat) && numbers_spelled(a[i]) by {
                assert(a[i] == field_json(f[i].0, schema_json(f[i].1)));
                assert(spelled(f[i].1, (d - 3) as nat));
                schema_plain(f[i].1, (d - 3) as nat);
                two_plain(
                    "name"@,
                    JsonView::Str(f[i].0),
                    "type"@,
                    schema_json(f[i].1),
                    (d - 2) as nat,
                );
                two_spelled("name"@, JsonView::Str(f[i].0), "type"@, schema_json(f[i].1));
            }
            assert(plain(JsonView::Arr(a), (d - 1) as nat));
            assert(numbers_spelled(JsonView::Arr(a)));
            three_plain(
                "fields"@,
                JsonView::Arr(a),
                "name"@,
                JsonView::Str(name),
                "type"@,
                JsonView::Str("record"@),
                d,
            );
            assert(o =~= seq![
                ("fields"@, JsonView::Arr(a)),
                ("name"@, JsonView::Str(name)),
                ("type"@, JsonView::Str("record"@)),
            ]);
        },
        SchemaView::Array(i) => {
            schema_plain(*i, (d - 1) as nat);
            two_plain("items"@, schema_json(*i), "type"@, JsonView::Str("array"@), d);
            two_spelled("items"@, schema_json(*i), "type"@, JsonView::Str("array"@));
        },
        SchemaView::Dict(v) => {
            schema_plain(*v, (d - 1) as nat);
            two_plain("type"@, JsonView::Str("map"@), "values"@, schema_json(*v), d);
            two_spelled("type"@, JsonView::Str("map"@), "values"@, schema_json(*v));
        },
        SchemaView::Union(b) => {
            let a = j->Arr_0;
            assert forall|i: int|
                #![trigger a[i]]
                0 <= i < a.len() implies plain(a[i], (d - 1) as nat) && numbers_spelled(a[i]) by {
                assert(a[i] == schema_json(b[i]));
                assert(spelled(b[i], (d - 1) as nat));
                schema_plain(b[i], (d - 1) as nat);
            }
        },
        _ => {},
    }
}

/// The text of a schema, and that it reads back.
pub proof fn schema_text_read_back(s: SchemaView)
    requires
        spelled(s, MAX_DEPTH as nat),
    ensures
        plain(schema_json(s), MAX_DEPTH as nat),
        parsed(printed(schema_json(s), true)) == Ok::<JsonView, Seq<char>>(schema_json(s)),
        schema_of(schema_json(s)) == Some(s),
{
    schema_plain(s, MAX_DEPTH as nat);
    json_read_back(schema_json(s), true);
    schema_read_back(s);
}

} // verus!
