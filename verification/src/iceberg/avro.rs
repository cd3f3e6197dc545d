//! A schema-driven binary codec and uncompressed container files.
use crate::chars::{debug_str, debug_text};
use crate::iceberg::single::{narrow, to_double, to_single, widen};
use crate::text::{dec, str_eq, u64_text};
use crate::varint::{get_varint, put_varint, rd_varint, rd_varint64, unzigzag, unzz, varint, varint_read_back, zigzag, zigzag_inverse, zz};
use crate::wire::{
    copy_range, from_le, le, le_read_back, put_bytes, put_u32, put_u64, string_from_utf8, u32_at, u64_at,
};
use vstd::prelude::*;
use vstd::utf8::{decode_utf8, encode_utf8, valid_utf8};

verus! {

#[derive(Debug)]
pub enum Schema {
    Null,
    Boolean,
    Int,
    Long,
    Float,
    Double,
    Bytes,
    String,
    Fixed(usize),
    Array(Box<Schema>),
    Dict(Box<Schema>),
    Union(Vec<Schema>),
    Record { name: String, fields: Vec<(String, Schema)> },
}

/// A value. `int` and `long` are one, and so are `float` and `double`, which are
/// kept as the bits of a double.
#[derive(Debug)]
pub enum Value {
    Null,
    Bool(bool),
    Long(i64),
    Double(u64),
    Bytes(Vec<u8>),
    Str(String),
    Arr(Vec<Value>),
    Dict(Vec<(String, Value)>),
    Record(Vec<(String, Value)>),
}

#[verifier::ext_equal]
pub enum SchemaView {
    Null,
    Boolean,
    Int,
    Long,
    Float,
    Double,
    Bytes,
    String,
    Fixed(usize),
    Array(Box<SchemaView>),
    Dict(Box<SchemaView>),
    Union(Seq<SchemaView>),
    Record(Seq<char>, Seq<(Seq<char>, SchemaView)>),
}

#[verifier::ext_equal]
pub enum ValueView {
    Null,
    Bool(bool),
    Long(i64),
    Double(u64),
    Bytes(Seq<u8>),
    Str(Seq<char>),
    Arr(Seq<ValueView>),
    Dict(Seq<(Seq<char>, ValueView)>),
    Record(Seq<(Seq<char>, ValueView)>),
}

impl Schema {
    pub open spec fn model(self) -> SchemaView
        decreases self,
    {
        match self {
            Schema::Null => SchemaView::Null,
            Schema::Boolean => SchemaView::Boolean,
            Schema::Int => SchemaView::Int,
            Schema::Long => SchemaView::Long,
            Schema::Float => SchemaView::Float,
            Schema::Double => SchemaView::Double,
            Schema::Bytes => SchemaView::Bytes,
            Schema::String => SchemaView::String,
            Schema::Fixed(n) => SchemaView::Fixed(n),
            Schema::Array(i) => SchemaView::Array(Box::new(i.model())),
            Schema::Dict(v) => SchemaView::Dict(Box::new(v.model())),
            Schema::Union(b) => SchemaView::Union(
                Seq::new(
                    b@.len(),
                    |i: int|
                        if 0 <= i < b@.len() {
                            b@[i].model()
                        } else {
                            arbitrary()
                        },
                ),
            ),
            Schema::Record { name, fields } => SchemaView::Record(
                name@,
                Seq::new(
                    fields@.len(),
                    |i: int|
                        if 0 <= i < fields@.len() {
                            (fields@[i].0@, fields@[i].1.model())
                        } else {
                            arbitrary()
                        },
                ),
            ),
        }
    }
}

impl Value {
    pub open spec fn model(self) -> ValueView
        decreases self,
    {
        match self {
            Value::Null => ValueView::Null,
            Value::Bool(b) => ValueView::Bool(b),
            Value::Long(n) => ValueView::Long(n),
            Value::Double(f) => ValueView::Double(f),
            Value::Bytes(b) => ValueView::Bytes(b@),
            Value::Str(s) => ValueView::Str(s@),
            Value::Arr(a) => ValueView::Arr(
                Seq::new(
                    a@.len(),
                    |i: int|
                        if 0 <= i < a@.len() {
                            a@[i].model()
                        } else {
                            arbitrary()
                        },
                ),
            ),
            Value::Dict(m) => ValueView::Dict(
                Seq::new(
                    m@.len(),
                    |i: int|
                        if 0 <= i < m@.len() {
                            (m@[i].0@, m@[i].1.model())
                        } else {
                            arbitrary()
                        },
                ),
            ),
            Value::Record(f) => ValueView::Record(
                Seq::new(
                    f@.len(),
                    |i: int|
                        if 0 <= i < f@.len() {
                            (f@[i].0@, f@[i].1.model())
                        } else {
                            arbitrary()
                        },
                ),
            ),
        }
    }
}

pub open spec fn schemas_model(b: Seq<Schema>) -> Seq<SchemaView> {
    Seq::new(b.len(), |i: int| b[i].model())
}

pub open spec fn fields_model(f: Seq<(String, Schema)>) -> Seq<(Seq<char>, SchemaView)> {
    Seq::new(f.len(), |i: int| (f[i].0@, f[i].1.model()))
}

pub open spec fn values_model(a: Seq<Value>) -> Seq<ValueView> {
    Seq::new(a.len(), |i: int| a[i].model())
}

pub open spec fn named_model(a: Seq<(String, Value)>) -> Seq<(Seq<char>, ValueView)> {
    Seq::new(a.len(), |i: int| (a[i].0@, a[i].1.model()))
}

pub proof fn union_model(b: Vec<Schema>)
    ensures
        Schema::Union(b).model() == SchemaView::Union(schemas_model(b@)),
{
    assert(Schema::Union(b).model()->Union_0 =~= schemas_model(b@));
}

pub proof fn record_model(name: String, fields: Vec<(String, Schema)>)
    ensures
        (Schema::Record { name, fields }).model() == SchemaView::Record(
            name@,
            fields_model(fields@),
        ),
{
    assert((Schema::Record { name, fields }).model()->Record_1 =~= fields_model(fields@));
}

proof fn list_model(a: Vec<Value>)
    ensures
        Value::Arr(a).model() == ValueView::Arr(values_model(a@)),
{
    assert(Value::Arr(a).model()->Arr_0 =~= values_model(a@));
}

proof fn map_model(m: Vec<(String, Value)>)
    ensures
        Value::Dict(m).model() == ValueView::Dict(named_model(m@)),
        Value::Record(m).model() == ValueView::Record(named_model(m@)),
{
    assert(Value::Dict(m).model()->Dict_0 =~= named_model(m@));
    assert(Value::Record(m).model()->Record_0 =~= named_model(m@));
}

/// Where a name first stands, or the end.
pub open spec fn name_at<T>(f: Seq<(Seq<char>, T)>, name: Seq<char>) -> int
    decreases f.len(),
{
    if f.len() == 0 {
        0
    } else if f[0].0 == name {
        0
    } else {
        1 + name_at(f.skip(1), name)
    }
}

/// The first value of a name, if there is one.
pub open spec fn value_at(f: Seq<(Seq<char>, ValueView)>, name: Seq<char>) -> Option<ValueView>
    decreases f.len(),
{
    if f.len() == 0 {
        None
    } else if f[0].0 == name {
        Some(f[0].1)
    } else {
        value_at(f.skip(1), name)
    }
}

fn find<'a>(f: &'a Vec<(String, Value)>, name: &str) -> (r: Option<&'a Value>)
    ensures
        match r {
            Some(v) => value_at(named_model(f@), name@) == Some(v.model()),
            None => value_at(named_model(f@), name@) is None,
        },
{
    let ghost m = named_model(f@);
    let mut i: usize = 0;
    assert(m.skip(0) =~= m);
    while i < f.len()
        invariant
            i <= f@.len(),
            m == named_model(f@),
            value_at(m.skip(i as int), name@) == value_at(m, name@),
        decreases f@.len() - i,
    {
        assert(m.skip(i as int)[0] == m[i as int]);
        assert(m.skip(i as int).skip(1) =~= m.skip(i + 1));
        if str_eq(f[i].0.as_str(), name) {
            return Some(&f[i].1);
        }
        i += 1;
    }
    None
}

impl Value {
    /// The first field of a name, if the value is a record.
    pub fn field(&self, name: &str) -> (r: Option<&Value>)
        ensures
            match (r, self.model()) {
                (Some(v), ValueView::Record(f)) => value_at(f, name@) == Some(v.model()),
                (None, ValueView::Record(f)) => value_at(f, name@) is None,
                (Some(_), _) => false,
                (None, _) => true,
            },
    {
        match self {
            Value::Record(f) => {
                proof {
                    map_model(*f);
                }
                find(f, name)
            },
            _ => None,
        }
    }

    pub fn long(&self) -> (r: Option<i64>)
        ensures
            match r {
                Some(n) => self.model() == ValueView::Long(n),
                None => !(self.model() is Long),
            },
    {
        match self {
            Value::Long(v) => Some(*v),
            _ => None,
        }
    }

    pub fn str(&self) -> (r: Option<&str>)
        ensures
            match r {
                Some(t) => self.model() == ValueView::Str(t@),
                None => !(self.model() is Str),
            },
    {
        match self {
            Value::Str(s) => Some(s.as_str()),
            _ => None,
        }
    }
}

// ---------------------------------------------------------------------------
// Variable-length integers
// ---------------------------------------------------------------------------

pub fn zz_enc(v: i64) -> (u: u64)
    ensures
        u == zz(v as int),
{
    zigzag(v)
}

pub fn zz_dec(u: u64) -> (v: i64)
    ensures
        v == unzz(u as nat),
{
    unzigzag(u)
}

pub fn vw(out: &mut Vec<u8>, u: u64)
    ensures
        final(out)@ == old(out)@ + varint(u as nat),
{
    put_varint(out, u);
}

/// Why something failed, with the bytes that a reader had not read by then, or
/// those that a writer had written.
pub type Fail = (Seq<char>, Seq<u8>);

/// A base-128 number of at most ten bytes.
pub open spec fn rd_number(b: Seq<u8>) -> Result<(u64, Seq<u8>), Fail> {
    match rd_varint64(b) {
        Some((u, r)) => Ok((u, r)),
        None => if b.len() >= 10 {
            Err(("varint too long"@, b.skip(10)))
        } else {
            Err(("varint eof"@, Seq::empty()))
        },
    }
}

/// Whether a position moved from `before` to where `rest` is left.
pub open spec fn stands(buf: Seq<u8>, before: usize, after: usize, rest: Seq<u8>) -> bool {
    before <= after <= buf.len() && buf.skip(after as int) == rest
}

/// Whether a read that ended at `after` did what the layout says.
pub open spec fn reads<T>(
    buf: Seq<u8>,
    before: usize,
    after: usize,
    r: Result<T, String>,
    want: Result<(T, Seq<u8>), Fail>,
) -> bool {
    match (r, want) {
        (Ok(x), Ok((v, rest))) => x == v && stands(buf, before, after, rest),
        (Err(e), Err((m, rest))) => e@ == m && stands(buf, before, after, rest),
        _ => false,
    }
}

/// Reads a base-128 number and moves behind it, or behind what was read of one
/// that ends too early or too late. Past the end there is nothing to read.
pub fn vr(b: &[u8], p: &mut usize) -> (r: Result<u64, String>)
    ensures
        *old(p) <= b@.len() ==> reads(
            b@,
            *old(p),
            *final(p),
            r,
            rd_number(b@.skip(*old(p) as int)),
        ),
        *old(p) > b@.len() ==> (r matches Err(e) && e@ == "varint eof"@) && *final(p) == *old(p),
{
    if *p > b.len() {
        return Err("varint eof".to_owned());
    }
    let left: usize = b.len() - *p;
    let ghost here = b@.skip(*p as int);
    let got: Option<u64> = get_varint(b, p);
    proof {
        if got is None {
            if left >= 10 {
                assert(here.skip(10) =~= b@.skip(*p as int));
            } else {
                assert(b@.skip(*p as int) =~= Seq::<u8>::empty());
            }
        }
    }
    match got {
        Some(u) => Ok(u),
        None => if left >= 10 {
            Err("varint too long".to_owned())
        } else {
            Err("varint eof".to_owned())
        },
    }
}

/// A signed number, zigzag.
pub open spec fn wr_long(n: int) -> Seq<u8> {
    varint(zz(n))
}

/// A length, as a 64-bit number.
pub open spec fn wr_len(n: nat) -> Seq<u8> {
    wr_long((n as i64) as int)
}

pub open spec fn rd_long(b: Seq<u8>) -> Result<(i64, Seq<u8>), Fail> {
    match rd_number(b) {
        Ok((u, r)) => Ok((unzz(u as nat) as i64, r)),
        Err(e) => Err(e),
    }
}

pub(crate) fn wlong(out: &mut Vec<u8>, v: i64)
    ensures
        final(out)@ == old(out)@ + wr_long(v as int),
{
    vw(out, zz_enc(v));
}

pub(crate) fn wlen(out: &mut Vec<u8>, n: usize)
    ensures
        final(out)@ == old(out)@ + wr_len(n as nat),
{
    wlong(out, #[verifier::truncate] (n as i64));
}

pub(crate) fn rlong(b: &[u8], p: &mut usize) -> (r: Result<i64, String>)
    requires
        *old(p) <= b@.len(),
    ensures
        reads(b@, *old(p), *final(p), r, rd_long(b@.skip(*old(p) as int))),
{
    match vr(b, p) {
        Ok(u) => Ok(zz_dec(u)),
        Err(e) => Err(e),
    }
}

proof fn number_shorter(b: Seq<u8>, n: nat)
    ensures
        rd_varint(b, n) matches Some((x, r)) ==> r.len() < b.len(),
    decreases n,
{
    if n > 0 && b.len() > 0 && b[0] >= 128 {
        number_shorter(b.skip(1), (n - 1) as nat);
    }
}

pub proof fn long_shorter(b: Seq<u8>)
    ensures
        rd_long(b) matches Ok((x, r)) ==> r.len() < b.len(),
{
    number_shorter(b, 10);
}

proof fn number_suffix(b: Seq<u8>, n: nat)
    ensures
        rd_varint(b, n) matches Some((x, r)) ==> r.len() <= b.len() && r == b.skip(
            b.len() - r.len(),
        ),
    decreases n,
{
    if n > 0 && b.len() > 0 && b[0] >= 128 {
        number_suffix(b.skip(1), (n - 1) as nat);
        if let Some((x, r)) = rd_varint(b.skip(1), (n - 1) as nat) {
            assert(r =~= b.skip(b.len() - r.len()));
        }
    }
}

/// What follows a number is the end of the bytes.
proof fn long_suffix(b: Seq<u8>)
    ensures
        rd_long(b) matches Ok((x, r)) ==> r.len() <= b.len() && r == b.skip(b.len() - r.len()),
{
    number_suffix(b, 10);
}

pub proof fn long_read_back(n: i64, rest: Seq<u8>)
    ensures
        rd_long(wr_long(n as int) + rest) == Ok::<(i64, Seq<u8>), Fail>((n, rest)),
{
    zigzag_inverse(n as int, 0);
    varint_read_back(zz(n as int) as u64, rest);
}

// ---------------------------------------------------------------------------
// Encoding
// ---------------------------------------------------------------------------

/// How a schema prints for debugging.
pub open spec fn shown(s: SchemaView) -> Seq<char>
    decreases s, 0int,
{
    match s {
        SchemaView::Null => "Null"@,
        SchemaView::Boolean => "Boolean"@,
        SchemaView::Int => "Int"@,
        SchemaView::Long => "Long"@,
        SchemaView::Float => "Float"@,
        SchemaView::Double => "Double"@,
        SchemaView::Bytes => "Bytes"@,
        SchemaView::String => "String"@,
        SchemaView::Fixed(n) => "Fixed("@ + dec(n as nat) + ")"@,
        SchemaView::Array(i) => "Array("@ + shown(*i) + ")"@,
        SchemaView::Dict(v) => "Map("@ + shown(*v) + ")"@,
        SchemaView::Union(b) => "Union(["@ + shown_all(b, b.len() as int) + "])"@,
        SchemaView::Record(name, f) => "Record { name: "@ + debug_text(name) + ", fields: ["@
            + shown_fields(f, f.len() as int) + "] }"@,
    }
}

pub open spec fn shown_all(b: Seq<SchemaView>, k: int) -> Seq<char>
    decreases b, k,
{
    if k <= 0 || k > b.len() {
        Seq::empty()
    } else {
        shown_all(b, k - 1) + (if k > 1 {
            ", "@
        } else {
            Seq::empty()
        }) + shown(b[k - 1])
    }
}

pub open spec fn shown_fields(f: Seq<(Seq<char>, SchemaView)>, k: int) -> Seq<char>
    decreases f, k,
{
    if k <= 0 || k > f.len() {
        Seq::empty()
    } else {
        shown_fields(f, k - 1) + (if k > 1 {
            ", "@
        } else {
            Seq::empty()
        }) + "("@ + debug_text(f[k - 1].0) + ", "@ + shown(f[k - 1].1) + ")"@
    }
}

/// Whether a value has the shape of a branch of a union.
pub open spec fn branch_takes(s: SchemaView, v: ValueView) -> bool {
    match (s, v) {
        (SchemaView::Null, ValueView::Null) => true,
        (SchemaView::Boolean, ValueView::Bool(_)) => true,
        (SchemaView::Int, ValueView::Long(_)) => true,
        (SchemaView::Long, ValueView::Long(_)) => true,
        (SchemaView::Float, ValueView::Double(_)) => true,
        (SchemaView::Double, ValueView::Double(_)) => true,
        (SchemaView::Bytes, ValueView::Bytes(_)) => true,
        (SchemaView::Fixed(_), ValueView::Bytes(_)) => true,
        (SchemaView::String, ValueView::Str(_)) => true,
        (SchemaView::Array(_), ValueView::Arr(_)) => true,
        (SchemaView::Dict(_), ValueView::Dict(_)) => true,
        (SchemaView::Record(_, _), ValueView::Record(_)) => true,
        _ => false,
    }
}

pub open spec fn wr_run(b: Seq<u8>) -> Seq<u8> {
    wr_len(b.len()) + b
}

/// The bytes of a value under a schema.
pub open spec fn enc(s: SchemaView, v: ValueView) -> Result<Seq<u8>, Fail>
    decreases s, 0int, 0int,
{
    match (s, v) {
        (SchemaView::Null, _) => Ok(Seq::empty()),
        (SchemaView::Boolean, ValueView::Bool(b)) => Ok(
            seq![
                if b {
                    1u8
                } else {
                    0u8
                },
            ],
        ),
        (SchemaView::Int, ValueView::Long(n)) => Ok(wr_long(n as int)),
        (SchemaView::Long, ValueView::Long(n)) => Ok(wr_long(n as int)),
        (SchemaView::Double, ValueView::Double(f)) => Ok(le(f as nat, 8)),
        (SchemaView::Float, ValueView::Double(f)) => Ok(le(narrow(f) as nat, 4)),
        (SchemaView::Bytes, ValueView::Bytes(b)) => Ok(wr_run(b)),
        (SchemaView::String, ValueView::Str(t)) => Ok(wr_run(encode_utf8(t))),
        (SchemaView::Fixed(n), ValueView::Bytes(b)) => if b.len() == n {
            Ok(b)
        } else {
            Err(("encode mismatch "@ + shown(s), Seq::empty()))
        },
        (SchemaView::Array(i), ValueView::Arr(a)) => match enc_items(*i, a, a.len() as int) {
            Err((e, x)) => Err((e, count_head(a.len()) + x)),
            Ok(body) => Ok(count_head(a.len()) + body + wr_long(0)),
        },
        (SchemaView::Dict(i), ValueView::Dict(m)) => match enc_entries(*i, m, m.len() as int) {
            Err((e, x)) => Err((e, count_head(m.len()) + x)),
            Ok(body) => Ok(count_head(m.len()) + body + wr_long(0)),
        },
        (SchemaView::Union(b), _) => enc_branch(b, v, 0),
        (SchemaView::Record(_, f), ValueView::Record(fv)) => enc_fields(f, fv, f.len() as int),
        _ => Err(("encode mismatch "@ + shown(s), Seq::empty())),
    }
}

/// The count in front of some items, if there are any.
pub open spec fn count_head(n: nat) -> Seq<u8> {
    if n > 0 {
        wr_len(n)
    } else {
        Seq::empty()
    }
}

/// The first `k` items of an array.
pub open spec fn enc_items(s: SchemaView, a: Seq<ValueView>, k: int) -> Result<Seq<u8>, Fail>
    decreases s, 1int, k,
{
    if k <= 0 {
        Ok(Seq::empty())
    } else {
        match enc_items(s, a, k - 1) {
            Err(e) => Err(e),
            Ok(x) => match enc(s, a[k - 1]) {
                Err((e, y)) => Err((e, x + y)),
                Ok(y) => Ok(x + y),
            },
        }
    }
}

/// The first `k` entries of a map.
pub open spec fn enc_entries(s: SchemaView, m: Seq<(Seq<char>, ValueView)>, k: int) -> Result<
    Seq<u8>,
    Fail,
>
    decreases s, 1int, k,
{
    if k <= 0 {
        Ok(Seq::empty())
    } else {
        match enc_entries(s, m, k - 1) {
            Err(e) => Err(e),
            Ok(x) => match enc(s, m[k - 1].1) {
                Err((e, y)) => Err((e, x + wr_run(encode_utf8(m[k - 1].0)) + y)),
                Ok(y) => Ok(x + wr_run(encode_utf8(m[k - 1].0)) + y),
            },
        }
    }
}

/// A value under the first branch from `k` on that takes it.
pub open spec fn enc_branch(b: Seq<SchemaView>, v: ValueView, k: int) -> Result<Seq<u8>, Fail>
    decreases b, 1int, b.len() - k,
{
    if k < 0 || k >= b.len() {
        Err(("no union branch matches"@, Seq::empty()))
    } else if branch_takes(b[k], v) {
        match enc(b[k], v) {
            Err((e, x)) => Err((e, wr_len(k as nat) + x)),
            Ok(x) => Ok(wr_len(k as nat) + x),
        }
    } else {
        enc_branch(b, v, k + 1)
    }
}

pub open spec fn or_null(v: Option<ValueView>) -> ValueView {
    match v {
        Some(v) => v,
        None => ValueView::Null,
    }
}

/// The first `k` fields of a record, each from the value of its name.
pub open spec fn enc_fields(
    f: Seq<(Seq<char>, SchemaView)>,
    fv: Seq<(Seq<char>, ValueView)>,
    k: int,
) -> Result<Seq<u8>, Fail>
    decreases f, 1int, k,
{
    if k <= 0 || k > f.len() {
        Ok(Seq::empty())
    } else {
        match enc_fields(f, fv, k - 1) {
            Err(e) => Err(e),
            Ok(x) => match enc(f[k - 1].1, or_null(value_at(fv, f[k - 1].0))) {
                Err((e, y)) => Err((e, x + y)),
                Ok(y) => Ok(x + y),
            },
        }
    }
}

/// Whether an encoder that appended to `before` did what the layout says, or
/// had written so much of it when it failed.
pub open spec fn writes(
    before: Seq<u8>,
    after: Seq<u8>,
    r: Result<(), String>,
    want: Result<Seq<u8>, Fail>,
) -> bool {
    match (r, want) {
        (Ok(_), Ok(x)) => after == before + x,
        (Err(e), Err((m, x))) => e@ == m && after == before + x,
        _ => false,
    }
}

/// Appends how a schema prints for debugging.
fn show(s: &Schema, out: &mut String)
    ensures
        final(out)@ == old(out)@ + shown(s.model()),
    decreases s,
{
    match s {
        Schema::Null => out.append("Null"),
        Schema::Boolean => out.append("Boolean"),
        Schema::Int => out.append("Int"),
        Schema::Long => out.append("Long"),
        Schema::Float => out.append("Float"),
        Schema::Double => out.append("Double"),
        Schema::Bytes => out.append("Bytes"),
        Schema::String => out.append("String"),
        Schema::Fixed(n) => {
            out.append("Fixed(");
            let t: String = u64_text(*n as u64);
            out.append(t.as_str());
            out.append(")");
            assert(out@ =~= old(out)@ + shown(s.model()));
        },
        Schema::Array(i) => {
            out.append("Array(");
            show(i, out);
            out.append(")");
            assert(out@ =~= old(out)@ + shown(s.model()));
        },
        Schema::Dict(i) => {
            out.append("Map(");
            show(i, out);
            out.append(")");
            assert(out@ =~= old(out)@ + shown(s.model()));
        },
        Schema::Union(b) => {
            let ghost m = schemas_model(b@);
            proof {
                union_model(*b);
            }
            out.append("Union([");
            let ghost head = out@;
            let mut k: usize = 0;
            assert(out@ =~= head + shown_all(m, 0));
            while k < b.len()
                invariant
                    k <= b@.len(),
                    m == schemas_model(b@),
                    *s == Schema::Union(*b),
                    out@ == head + shown_all(m, k as int),
                decreases b@.len() - k,
            {
                if k > 0 {
                    out.append(", ");
                }
                assert(decreases_to!(s => s->Union_0@[k as int]));
                show(&b[k], out);
                assert(out@ =~= head + shown_all(m, k + 1));
                k += 1;
            }
            out.append("])");
            assert(out@ =~= old(out)@ + shown(s.model()));
        },
        Schema::Record { name, fields } => {
            let ghost m = fields_model(fields@);
            proof {
                record_model(*name, *fields);
            }
            out.append("Record { name: ");
            let n: String = debug_str(name.as_str());
            out.append(n.as_str());
            out.append(", fields: [");
            let ghost head = out@;
            let mut k: usize = 0;
            assert(out@ =~= head + shown_fields(m, 0));
            while k < fields.len()
                invariant
                    k <= fields@.len(),
                    m == fields_model(fields@),
                    *s == (Schema::Record { name: *name, fields: *fields }),
                    out@ == head + shown_fields(m, k as int),
                decreases fields@.len() - k,
            {
                if k > 0 {
                    out.append(", ");
                }
                out.append("(");
                let n: String = debug_str(fields[k].0.as_str());
                out.append(n.as_str());
                out.append(", ");
                assert(decreases_to!(s => s->fields@[k as int].1));
                show(&fields[k].1, out);
                out.append(")");
                assert(out@ =~= head + shown_fields(m, k + 1));
                k += 1;
            }
            out.append("] }");
            assert(out@ =~= old(out)@ + shown(s.model()));
        },
    }
}

fn mismatch(s: &Schema) -> (e: String)
    ensures
        e@ == "encode mismatch "@ + shown(s.model()),
{
    let mut e: String = "encode mismatch ".to_owned();
    show(s, &mut e);
    e
}

fn takes(s: &Schema, v: &Value) -> (r: bool)
    ensures
        r == branch_takes(s.model(), v.model()),
{
    match (s, v) {
        (Schema::Null, Value::Null) => true,
        (Schema::Boolean, Value::Bool(_)) => true,
        (Schema::Int, Value::Long(_)) => true,
        (Schema::Long, Value::Long(_)) => true,
        (Schema::Float, Value::Double(_)) => true,
        (Schema::Double, Value::Double(_)) => true,
        (Schema::Bytes, Value::Bytes(_)) => true,
        (Schema::Fixed(_), Value::Bytes(_)) => true,
        (Schema::String, Value::Str(_)) => true,
        (Schema::Array(_), Value::Arr(_)) => true,
        (Schema::Dict(_), Value::Dict(_)) => true,
        (Schema::Record { name: _, fields: _ }, Value::Record(_)) => true,
        _ => false,
    }
}

pub(crate) fn put_run(out: &mut Vec<u8>, b: &[u8])
    ensures
        final(out)@ == old(out)@ + wr_run(b@),
{
    wlen(out, b.len());
    put_bytes(out, b);
    assert(out@ =~= old(out)@ + wr_run(b@));
}

/// Appends a value under a schema.
pub fn encode(s: &Schema, v: &Value, out: &mut Vec<u8>) -> (r: Result<(), String>)
    ensures
        writes(old(out)@, final(out)@, r, enc(s.model(), v.model())),
    decreases s, 0int,
{
    match (s, v) {
        (Schema::Null, _) => {
            assert(out@ =~= old(out)@ + Seq::<u8>::empty());
            Ok(())
        },
        (Schema::Boolean, Value::Bool(b)) => {
            out.push(if *b { 1 } else { 0 });
            assert(out@ =~= old(out)@ + enc(s.model(), v.model())->Ok_0);
            Ok(())
        },
        (Schema::Int, Value::Long(n)) => {
            wlong(out, *n);
            Ok(())
        },
        (Schema::Long, Value::Long(n)) => {
            wlong(out, *n);
            Ok(())
        },
        (Schema::Double, Value::Double(f)) => {
            put_u64(out, *f);
            Ok(())
        },
        (Schema::Float, Value::Double(f)) => {
            put_u32(out, to_single(*f));
            Ok(())
        },
        (Schema::Bytes, Value::Bytes(b)) => {
            put_run(out, b.as_slice());
            Ok(())
        },
        (Schema::String, Value::Str(t)) => {
            put_run(out, t.as_str().as_bytes());
            Ok(())
        },
        (Schema::Fixed(n), Value::Bytes(b)) => {
            if b.len() == *n {
                put_bytes(out, b.as_slice());
                Ok(())
            } else {
                assert(out@ =~= old(out)@ + Seq::<u8>::empty());
                Err(mismatch(s))
            }
        },
        (Schema::Array(i), Value::Arr(a)) => {
            let ghost m = values_model(a@);
            proof {
                list_model(*a);
            }
            if a.len() > 0 {
                wlen(out, a.len());
            }
            let ghost head = out@;
            let mut k: usize = 0;
            assert(head =~= old(out)@ + count_head(m.len()));
            assert(out@ =~= head + Seq::<u8>::empty());
            while k < a.len()
                invariant
                    k <= a@.len(),
                    m == values_model(a@),
                    decreases_to!(s => i),
                    s.model() == SchemaView::Array(Box::new(i.model())),
                    v.model() == ValueView::Arr(m),
                    head == old(out)@ + count_head(m.len()),
                    enc_items(i.model(), m, k as int) is Ok,
                    out@ == head + enc_items(i.model(), m, k as int)->Ok_0,
                decreases a@.len() - k,
            {
                let ghost o = out@;
                match encode(i, &a[k], out) {
                    Ok(_) => {},
                    Err(e) => {
                        proof {
                            items_fail(i.model(), m, k + 1);
                            assert(out@ =~= old(out)@ + enc(s.model(), v.model())->Err_0.1);
                        }
                        return Err(e);
                    },
                }
                assert(out@ =~= head + enc_items(i.model(), m, k + 1)->Ok_0);
                k += 1;
            }
            wlong(out, 0);
            assert(out@ =~= old(out)@ + enc(s.model(), v.model())->Ok_0);
            Ok(())
        },
        (Schema::Dict(i), Value::Dict(a)) => {
            let ghost m = named_model(a@);
            proof {
                map_model(*a);
            }
            if a.len() > 0 {
                wlen(out, a.len());
            }
            let ghost head = out@;
            let mut k: usize = 0;
            assert(head =~= old(out)@ + count_head(m.len()));
            assert(out@ =~= head + Seq::<u8>::empty());
            while k < a.len()
                invariant
                    k <= a@.len(),
                    m == named_model(a@),
                    decreases_to!(s => i),
                    s.model() == SchemaView::Dict(Box::new(i.model())),
                    v.model() == ValueView::Dict(m),
                    head == old(out)@ + count_head(m.len()),
                    enc_entries(i.model(), m, k as int) is Ok,
                    out@ == head + enc_entries(i.model(), m, k as int)->Ok_0,
                decreases a@.len() - k,
            {
                put_run(out, a[k].0.as_str().as_bytes());
                match encode(i, &a[k].1, out) {
                    Ok(_) => {},
                    Err(e) => {
                        proof {
                            entries_fail(i.model(), m, k + 1);
                            assert(out@ =~= old(out)@ + enc(s.model(), v.model())->Err_0.1);
                        }
                        return Err(e);
                    },
                }
                assert(out@ =~= head + enc_entries(i.model(), m, k + 1)->Ok_0);
                k += 1;
            }
            wlong(out, 0);
            assert(out@ =~= old(out)@ + enc(s.model(), v.model())->Ok_0);
            Ok(())
        },
        (Schema::Union(b), _) => {
            let ghost m = schemas_model(b@);
            proof {
                union_model(*b);
            }
            let mut k: usize = 0;
            while k < b.len()
                invariant
                    k <= b@.len(),
                    m == schemas_model(b@),
                    *s == Schema::Union(*b),
                    s.model() == SchemaView::Union(m),
                    out@ == old(out)@,
                    enc_branch(m, v.model(), k as int) == enc_branch(m, v.model(), 0),
                decreases b@.len() - k,
            {
                if takes(&b[k], v) {
                    assert(decreases_to!(s => s->Union_0@[k as int]));
                    wlen(out, k);
                    return match encode(&b[k], v, out) {
                        Ok(_) => {
                            assert(out@ =~= old(out)@ + enc_branch(m, v.model(), k as int)->Ok_0);
                            Ok(())
                        },
                        Err(e) => {
                            assert(out@ =~= old(out)@ + enc_branch(m, v.model(), k as int)->Err_0.1);
                            Err(e)
                        },
                    };
                }
                k += 1;
            }
            assert(out@ =~= old(out)@ + Seq::<u8>::empty());
            Err("no union branch matches".to_owned())
        },
        (Schema::Record { name, fields }, Value::Record(fv)) => {
            let ghost m = fields_model(fields@);
            let ghost vm = named_model(fv@);
            proof {
                record_model(*name, *fields);
                map_model(*fv);
            }
            let null: Value = Value::Null;
            let mut k: usize = 0;
            assert(out@ =~= old(out)@ + Seq::<u8>::empty());
            while k < fields.len()
                invariant
                    k <= fields@.len(),
                    m == fields_model(fields@),
                    vm == named_model(fv@),
                    *s == (Schema::Record { name: *name, fields: *fields }),
                    s.model() == SchemaView::Record(name@, m),
                    v.model() == ValueView::Record(vm),
                    null.model() == ValueView::Null,
                    enc_fields(m, vm, k as int) is Ok,
                    out@ == old(out)@ + enc_fields(m, vm, k as int)->Ok_0,
                decreases fields@.len() - k,
            {
                let x: &Value = match find(fv, fields[k].0.as_str()) {
                    Some(x) => x,
                    None => &null,
                };
                assert(decreases_to!(s => s->fields@[k as int].1));
                match encode(&fields[k].1, x, out) {
                    Ok(_) => {},
                    Err(e) => {
                        proof {
                            fields_fail(m, vm, k + 1);
                            assert(out@ =~= old(out)@ + enc(s.model(), v.model())->Err_0.1);
                        }
                        return Err(e);
                    },
                }
                assert(out@ =~= old(out)@ + enc_fields(m, vm, k + 1)->Ok_0);
                k += 1;
            }
            Ok(())
        },
        _ => {
            assert(out@ =~= old(out)@ + Seq::<u8>::empty());
            Err(mismatch(s))
        },
    }
}

pub proof fn items_fail(s: SchemaView, a: Seq<ValueView>, k: int)
    requires
        0 <= k <= a.len(),
        enc_items(s, a, k) is Err,
    ensures
        enc_items(s, a, a.len() as int) == enc_items(s, a, k),
    decreases a.len() - k,
{
    if k < a.len() {
        items_fail(s, a, k + 1);
    }
}

proof fn entries_fail(s: SchemaView, a: Seq<(Seq<char>, ValueView)>, k: int)
    requires
        0 <= k <= a.len(),
        enc_entries(s, a, k) is Err,
    ensures
        enc_entries(s, a, a.len() as int) == enc_entries(s, a, k),
    decreases a.len() - k,
{
    if k < a.len() {
        entries_fail(s, a, k + 1);
    }
}

proof fn fields_fail(f: Seq<(Seq<char>, SchemaView)>, fv: Seq<(Seq<char>, ValueView)>, k: int)
    requires
        0 <= k <= f.len(),
        enc_fields(f, fv, k) is Err,
    ensures
        enc_fields(f, fv, f.len() as int) == enc_fields(f, fv, k),
    decreases f.len() - k,
{
    if k < f.len() {
        fields_fail(f, fv, k + 1);
    }
}

// ---------------------------------------------------------------------------
// Decoding
// ---------------------------------------------------------------------------

/// Some bytes behind their count.
pub open spec fn rd_run(b: Seq<u8>) -> Result<(Seq<u8>, Seq<u8>), Fail> {
    match rd_long(b) {
        Err(e) => Err(e),
        Ok((n, r)) => if n < 0 || n > r.len() {
            Err(("eof"@, r))
        } else {
            Ok((r.take(n as int), r.skip(n as int)))
        },
    }
}

/// How many items a block of an array or a map holds, 0 at its end. A negative
/// count is followed by the size of the block.
pub open spec fn rd_count(b: Seq<u8>) -> Result<(nat, Seq<u8>), Fail> {
    match rd_long(b) {
        Err(e) => Err(e),
        Ok((n, r)) => if n >= 0 {
            Ok((n as nat, r))
        } else {
            match rd_long(r) {
                Err(e) => Err(e),
                Ok((_, r2)) => Ok(((-n) as nat, r2)),
            }
        },
    }
}

/// The value under a schema at the start of some bytes, and the bytes behind
/// it.
pub open spec fn dec_value(s: SchemaView, b: Seq<u8>) -> Result<(ValueView, Seq<u8>), Fail>
    decreases s, 0int, 0int,
{
    match s {
        SchemaView::Null => Ok((ValueView::Null, b)),
        SchemaView::Boolean => if b.len() == 0 {
            Err(("eof"@, b))
        } else {
            Ok((ValueView::Bool(b[0] != 0), b.skip(1)))
        },
        SchemaView::Int => match rd_long(b) {
            Err(e) => Err(e),
            Ok((n, r)) => Ok((ValueView::Long(n), r)),
        },
        SchemaView::Long => match rd_long(b) {
            Err(e) => Err(e),
            Ok((n, r)) => Ok((ValueView::Long(n), r)),
        },
        SchemaView::Float => if b.len() < 4 {
            Err(("eof"@, b))
        } else {
            Ok((ValueView::Double(widen(from_le(b.take(4)) as u32)), b.skip(4)))
        },
        SchemaView::Double => if b.len() < 8 {
            Err(("eof"@, b))
        } else {
            Ok((ValueView::Double(from_le(b.take(8)) as u64), b.skip(8)))
        },
        SchemaView::Bytes => match rd_run(b) {
            Err(e) => Err(e),
            Ok((x, r)) => Ok((ValueView::Bytes(x), r)),
        },
        SchemaView::String => match rd_run(b) {
            Err(e) => Err(e),
            Ok((x, r)) => if valid_utf8(x) {
                Ok((ValueView::Str(decode_utf8(x)), r))
            } else {
                Err(("bad utf8"@, x + r))
            },
        },
        SchemaView::Fixed(n) => if n > b.len() {
            Err(("eof"@, b))
        } else {
            Ok((ValueView::Bytes(b.take(n as int)), b.skip(n as int)))
        },
        SchemaView::Array(i) => match dec_blocks(*i, b, Seq::empty()) {
            Err(e) => Err(e),
            Ok((a, r)) => Ok((ValueView::Arr(a), r)),
        },
        SchemaView::Dict(i) => match dec_entries(*i, b, Seq::empty()) {
            Err(e) => Err(e),
            Ok((m, r)) => Ok((ValueView::Dict(m), r)),
        },
        SchemaView::Union(br) => match rd_long(b) {
            Err(e) => Err(e),
            Ok((i, r)) => if 0 <= i < br.len() {
                dec_value(br[i as int], r)
            } else {
                Err(("bad union index"@, r))
            },
        },
        SchemaView::Record(_, f) => match dec_fields(f, b, f.len() as int) {
            Err(e) => Err(e),
            Ok((fv, r)) => Ok((ValueView::Record(fv), r)),
        },
    }
}

/// `n` items more.
pub open spec fn dec_items(s: SchemaView, n: nat, b: Seq<u8>, acc: Seq<ValueView>) -> Result<
    (Seq<ValueView>, Seq<u8>),
    Fail,
>
    decreases s, 1int, n,
{
    if n == 0 {
        Ok((acc, b))
    } else {
        match dec_value(s, b) {
            Err(e) => Err(e),
            Ok((v, r)) => dec_items(s, (n - 1) as nat, r, acc.push(v)),
        }
    }
}

/// The blocks of an array, to its end. What follows a block is shorter.
pub open spec fn dec_blocks(s: SchemaView, b: Seq<u8>, acc: Seq<ValueView>) -> Result<
    (Seq<ValueView>, Seq<u8>),
    Fail,
>
    decreases s, 2int, b.len(),
{
    match rd_count(b) {
        Err(e) => Err(e),
        Ok((n, r)) => if n == 0 {
            Ok((acc, r))
        } else {
            match dec_items(s, n, r, acc) {
                Err(e) => Err(e),
                Ok((a, r2)) => if r2.len() < b.len() {
                    dec_blocks(s, r2, a)
                } else {
                    Err(("eof"@, r2))
                },
            }
        },
    }
}

/// A key and its value.
pub open spec fn dec_pairs(
    s: SchemaView,
    n: nat,
    b: Seq<u8>,
    acc: Seq<(Seq<char>, ValueView)>,
) -> Result<(Seq<(Seq<char>, ValueView)>, Seq<u8>), Fail>
    decreases s, 1int, n,
{
    if n == 0 {
        Ok((acc, b))
    } else {
        match rd_run(b) {
            Err(e) => Err(e),
            Ok((k, r)) => if !valid_utf8(k) {
                Err(("k"@, k + r))
            } else {
                match dec_value(s, r) {
                    Err(e) => Err(e),
                    Ok((v, r2)) => dec_pairs(
                        s,
                        (n - 1) as nat,
                        r2,
                        acc.push((decode_utf8(k), v)),
                    ),
                }
            },
        }
    }
}

/// The blocks of a map, to its end.
pub open spec fn dec_entries(s: SchemaView, b: Seq<u8>, acc: Seq<(Seq<char>, ValueView)>) -> Result<
    (Seq<(Seq<char>, ValueView)>, Seq<u8>),
    Fail,
>
    decreases s, 2int, b.len(),
{
    match rd_count(b) {
        Err(e) => Err(e),
        Ok((n, r)) => if n == 0 {
            Ok((acc, r))
        } else {
            match dec_pairs(s, n, r, acc) {
                Err(e) => Err(e),
                Ok((a, r2)) => if r2.len() < b.len() {
                    dec_entries(s, r2, a)
                } else {
                    Err(("eof"@, r2))
                },
            }
        },
    }
}

/// The first `k` fields of a record.
pub open spec fn dec_fields(f: Seq<(Seq<char>, SchemaView)>, b: Seq<u8>, k: int) -> Result<
    (Seq<(Seq<char>, ValueView)>, Seq<u8>),
    Fail,
>
    decreases f, 1int, k,
{
    if k <= 0 || k > f.len() {
        Ok((Seq::empty(), b))
    } else {
        match dec_fields(f, b, k - 1) {
            Err(e) => Err(e),
            Ok((fv, r)) => match dec_value(f[k - 1].1, r) {
                Err(e) => Err(e),
                Ok((v, r2)) => Ok((fv.push((f[k - 1].0, v)), r2)),
            },
        }
    }
}

pub(crate) fn get_run(b: &[u8], p: &mut usize) -> (r: Result<Vec<u8>, String>)
    requires
        *old(p) <= b@.len(),
    ensures
        match (r, rd_run(b@.skip(*old(p) as int))) {
            (Ok(x), Ok((v, rest))) => x@ == v && stands(b@, *old(p), *final(p), rest),
            (Err(e), Err((m, rest))) => e@ == m && stands(b@, *old(p), *final(p), rest),
            _ => false,
        },
{
    let n: i64 = match rlong(b, p) {
        Ok(n) => n,
        Err(e) => return Err(e),
    };
    let left: usize = b.len() - *p;
    if n < 0 || n as u64 > left as u64 {
        return Err("eof".to_owned());
    }
    let from: usize = *p;
    let x: Vec<u8> = copy_range(b, from, from + n as usize);
    *p = from + n as usize;
    proof {
        let r = b@.skip(from as int);
        assert(r.take(n as int) =~= x@);
        assert(r.skip(n as int) =~= b@.skip(*p as int));
    }
    Ok(x)
}

/// Moves back over a run that was read.
fn back_over(
    b: &[u8],
    p: &mut usize,
    len: usize,
    Ghost(here): Ghost<Seq<u8>>,
    Ghost(run): Ghost<Seq<u8>>,
)
    requires
        *old(p) <= b@.len(),
        rd_run(here) == Ok::<(Seq<u8>, Seq<u8>), Fail>((run, b@.skip(*old(p) as int))),
        exists|q: int| 0 <= q <= *old(p) && here == #[trigger] b@.skip(q),
        run.len() == len,
    ensures
        *final(p) == *old(p) - len,
        b@.skip(*final(p) as int) == run + b@.skip(*old(p) as int),
        forall|q: int| 0 <= q <= *old(p) && here == #[trigger] b@.skip(q) ==> q <= *final(p),
{
    proof {
        let q = choose|q: int| 0 <= q <= *p && here == #[trigger] b@.skip(q);
        long_shorter(here);
        let r = rd_long(here)->Ok_0.1;
        long_suffix(here);
        assert(b@.skip(*p as int).len() == r.len() - len);
        let at = b@.len() - r.len();
        assert(r =~= b@.skip(at));
        assert(at == *p - len);
        assert(run + b@.skip(*p as int) =~= b@.skip(at));
    }
    *p = *p - len;
}

pub(crate) fn get_count(b: &[u8], p: &mut usize) -> (r: Result<u64, String>)
    requires
        *old(p) <= b@.len(),
    ensures
        match (r, rd_count(b@.skip(*old(p) as int))) {
            (Ok(x), Ok((v, rest))) => x == v && *old(p) < *final(p) && stands(
                b@,
                *old(p),
                *final(p),
                rest,
            ),
            (Err(e), Err((m, rest))) => e@ == m && stands(b@, *old(p), *final(p), rest),
            _ => false,
        },
{
    proof {
        long_shorter(b@.skip(*p as int));
    }
    let n: i64 = match rlong(b, p) {
        Ok(n) => n,
        Err(e) => return Err(e),
    };
    if n >= 0 {
        return Ok(n as u64);
    }
    match rlong(b, p) {
        Ok(_) => Ok((-(n + 1)) as u64 + 1),
        Err(e) => Err(e),
    }
}

/// Whether a reader of a value that ended at `after` did what the layout says.
pub open spec fn decodes(
    buf: Seq<u8>,
    before: usize,
    after: usize,
    r: Result<Value, String>,
    want: Result<(ValueView, Seq<u8>), Fail>,
) -> bool {
    match (r, want) {
        (Ok(v), Ok((m, rest))) => v.model() == m && stands(buf, before, after, rest),
        (Err(e), Err((m, rest))) => e@ == m && stands(buf, before, after, rest),
        _ => false,
    }
}

/// What is read past the end: a value that takes no bytes, or why there is
/// none.
pub open spec fn dec_past(s: SchemaView) -> Result<ValueView, Seq<char>>
    decreases s, 0int,
{
    match s {
        SchemaView::Null => Ok(ValueView::Null),
        SchemaView::Boolean => Err("eof"@),
        SchemaView::Float => Err("eof"@),
        SchemaView::Double => Err("eof"@),
        SchemaView::Fixed(_) => Err("eof"@),
        SchemaView::Record(_, f) => match dec_past_fields(f, f.len() as int) {
            Err(e) => Err(e),
            Ok(fv) => Ok(ValueView::Record(fv)),
        },
        _ => Err("varint eof"@),
    }
}

/// The first `k` fields of a record that is read past the end.
pub open spec fn dec_past_fields(f: Seq<(Seq<char>, SchemaView)>, k: int) -> Result<
    Seq<(Seq<char>, ValueView)>,
    Seq<char>,
>
    decreases f, k,
{
    if k <= 0 || k > f.len() {
        Ok(Seq::empty())
    } else {
        match dec_past_fields(f, k - 1) {
            Err(e) => Err(e),
            Ok(fv) => match dec_past(f[k - 1].1) {
                Err(e) => Err(e),
                Ok(v) => Ok(fv.push((f[k - 1].0, v))),
            },
        }
    }
}

proof fn past_fields_fail(f: Seq<(Seq<char>, SchemaView)>, k: int)
    requires
        0 <= k <= f.len(),
        dec_past_fields(f, k) is Err,
    ensures
        dec_past_fields(f, f.len() as int) == dec_past_fields(f, k),
    decreases f.len() - k,
{
    if k < f.len() {
        past_fields_fail(f, k + 1);
    }
}

fn decode_past(s: &Schema) -> (r: Result<Value, String>)
    ensures
        match (r, dec_past(s.model())) {
            (Ok(v), Ok(m)) => v.model() == m,
            (Err(e), Err(m)) => e@ == m,
            _ => false,
        },
    decreases s,
{
    match s {
        Schema::Null => Ok(Value::Null),
        Schema::Boolean => Err("eof".to_owned()),
        Schema::Float => Err("eof".to_owned()),
        Schema::Double => Err("eof".to_owned()),
        Schema::Fixed(_) => Err("eof".to_owned()),
        Schema::Record { name, fields } => {
            let ghost m = fields_model(fields@);
            proof {
                record_model(*name, *fields);
            }
            let mut out: Vec<(String, Value)> = Vec::new();
            let mut k: usize = 0;
            assert(named_model(out@) =~= Seq::empty());
            while k < fields.len()
                invariant
                    k <= fields@.len(),
                    m == fields_model(fields@),
                    *s == (Schema::Record { name: *name, fields: *fields }),
                    s.model() == SchemaView::Record(name@, m),
                    dec_past_fields(m, k as int) == Ok::<
                        Seq<(Seq<char>, ValueView)>,
                        Seq<char>,
                    >(named_model(out@)),
                decreases fields@.len() - k,
            {
                assert(decreases_to!(s => s->fields@[k as int].1));
                let v: Value = match decode_past(&fields[k].1) {
                    Ok(v) => v,
                    Err(e) => {
                        proof {
                            past_fields_fail(m, k + 1);
                        }
                        return Err(e);
                    },
                };
                let ghost before = out@;
                out.push((fields[k].0.clone(), v));
                assert(named_model(out@) =~= named_model(before).push((m[k as int].0, v.model())));
                k += 1;
            }
            proof {
                map_model(out);
            }
            Ok(Value::Record(out))
        },
        Schema::Union(b) => {
            proof {
                union_model(*b);
            }
            Err("varint eof".to_owned())
        },
        _ => Err("varint eof".to_owned()),
    }
}

/// Reads a value under a schema and moves behind it, or behind what was read
/// of it. Past the end the position stays.
pub fn decode(s: &Schema, b: &[u8], p: &mut usize) -> (r: Result<Value, String>)
    ensures
        *old(p) <= b@.len() ==> decodes(
            b@,
            *old(p),
            *final(p),
            r,
            dec_value(s.model(), b@.skip(*old(p) as int)),
        ),
        *old(p) > b@.len() ==> *final(p) == *old(p) && match (r, dec_past(s.model())) {
            (Ok(v), Ok(m)) => v.model() == m,
            (Err(e), Err(m)) => e@ == m,
            _ => false,
        },
{
    if *p > b.len() {
        return decode_past(s);
    }
    read_value(s, b, p)
}

/// Reads a value at a position within the bytes.
pub(crate) fn read_value(s: &Schema, b: &[u8], p: &mut usize) -> (r: Result<Value, String>)
    requires
        *old(p) <= b@.len(),
    ensures
        decodes(b@, *old(p), *final(p), r, dec_value(s.model(), b@.skip(*old(p) as int))),
    decreases s, 0int,
{
    let ghost here = b@.skip(*p as int);
    let n: usize = b.len();
    match s {
        Schema::Null => Ok(Value::Null),
        Schema::Boolean => {
            if *p >= n {
                return Err("eof".to_owned());
            }
            let v: bool = b[*p] != 0;
            *p = *p + 1;
            assert(here.skip(1) =~= b@.skip(*p as int));
            Ok(Value::Bool(v))
        },
        Schema::Int => match rlong(b, p) {
            Ok(v) => Ok(Value::Long(v)),
            Err(e) => Err(e),
        },
        Schema::Long => match rlong(b, p) {
            Ok(v) => Ok(Value::Long(v)),
            Err(e) => Err(e),
        },
        Schema::Float => {
            if n - *p < 4 {
                return Err("eof".to_owned());
            }
            let v: u32 = u32_at(b, *p);
            assert(here.take(4) =~= b@.subrange(*p as int, *p + 4));
            *p = *p + 4;
            assert(here.skip(4) =~= b@.skip(*p as int));
            Ok(Value::Double(to_double(v)))
        },
        Schema::Double => {
            if n - *p < 8 {
                return Err("eof".to_owned());
            }
            let v: u64 = u64_at(b, *p);
            assert(here.take(8) =~= b@.subrange(*p as int, *p + 8));
            *p = *p + 8;
            assert(here.skip(8) =~= b@.skip(*p as int));
            Ok(Value::Double(v))
        },
        Schema::Bytes => match get_run(b, p) {
            Ok(x) => Ok(Value::Bytes(x)),
            Err(e) => Err(e),
        },
        Schema::String => match get_run(b, p) {
            Ok(x) => {
                let len: usize = x.len();
                let ghost run = x@;
                match string_from_utf8(x) {
                    Some(t) => Ok(Value::Str(t)),
                    None => {
                        back_over(b, p, len, Ghost(here), Ghost(run));
                        Err("bad utf8".to_owned())
                    },
                }
            },
            Err(e) => Err(e),
        },
        Schema::Fixed(k) => {
            if n - *p < *k {
                return Err("eof".to_owned());
            }
            let from: usize = *p;
            let x: Vec<u8> = copy_range(b, from, from + *k);
            *p = from + *k;
            assert(here.take(*k as int) =~= x@);
            assert(here.skip(*k as int) =~= b@.skip(*p as int));
            Ok(Value::Bytes(x))
        },
        Schema::Array(i) => decode_array(i, b, p),
        Schema::Dict(i) => decode_map(i, b, p),
        Schema::Union(br) => {
            proof {
                union_model(*br);
            }
            let i: i64 = match rlong(b, p) {
                Ok(i) => i,
                Err(e) => return Err(e),
            };
            if i < 0 || i as u64 >= br.len() as u64 {
                return Err("bad union index".to_owned());
            }
            assert(decreases_to!(s => s->Union_0@[i as int]));
            read_value(&br[i as usize], b, p)
        },
        Schema::Record { name, fields } => {
            let ghost m = fields_model(fields@);
            proof {
                record_model(*name, *fields);
            }
            let mut out: Vec<(String, Value)> = Vec::new();
            let mut k: usize = 0;
            assert(named_model(out@) =~= Seq::empty());
            while k < fields.len()
                invariant
                    n == b@.len(),
                    k <= fields@.len(),
                    m == fields_model(fields@),
                    *s == (Schema::Record { name: *name, fields: *fields }),
                    s.model() == SchemaView::Record(name@, m),
                    *old(p) <= *p <= n,
                    here == b@.skip(*old(p) as int),
                    dec_fields(m, here, k as int) == Ok::<
                        (Seq<(Seq<char>, ValueView)>, Seq<u8>),
                        Fail,
                    >((named_model(out@), b@.skip(*p as int))),
                decreases fields@.len() - k,
            {
                assert(decreases_to!(s => s->fields@[k as int].1));
                let v: Value = match read_value(&fields[k].1, b, p) {
                    Ok(v) => v,
                    Err(e) => {
                        proof {
                            dec_fields_fail(m, here, k + 1);
                        }
                        return Err(e);
                    },
                };
                let ghost before = out@;
                out.push((fields[k].0.clone(), v));
                assert(named_model(out@) =~= named_model(before).push((m[k as int].0, v.model())));
                k += 1;
            }
            proof {
                map_model(out);
            }
            Ok(Value::Record(out))
        },
    }
}

proof fn dec_fields_fail(f: Seq<(Seq<char>, SchemaView)>, b: Seq<u8>, k: int)
    requires
        0 <= k <= f.len(),
        dec_fields(f, b, k) is Err,
    ensures
        dec_fields(f, b, f.len() as int) == dec_fields(f, b, k),
    decreases f.len() - k,
{
    if k < f.len() {
        dec_fields_fail(f, b, k + 1);
    }
}

fn decode_array(i: &Schema, b: &[u8], p: &mut usize) -> (r: Result<Value, String>)
    requires
        *old(p) <= b@.len(),
    ensures
        match (r, dec_blocks(i.model(), b@.skip(*old(p) as int), Seq::empty())) {
            (Ok(v), Ok((m, rest))) => v.model() == ValueView::Arr(m) && stands(
                b@,
                *old(p),
                *final(p),
                rest,
            ),
            (Err(e), Err((m, rest))) => e@ == m && stands(b@, *old(p), *final(p), rest),
            _ => false,
        },
    decreases i, 1int,
{
    let ghost whole = dec_blocks(i.model(), b@.skip(*p as int), Seq::empty());
    let mut out: Vec<Value> = Vec::new();
    assert(values_model(out@) =~= Seq::empty());
    loop
        invariant
            *old(p) <= *p <= b@.len(),
            whole == dec_blocks(i.model(), b@.skip(*old(p) as int), Seq::empty()),
            dec_blocks(i.model(), b@.skip(*p as int), values_model(out@)) == whole,
        decreases b@.len() - *p,
    {
        let ghost start = *p;
        let ghost acc = values_model(out@);
        let n: u64 = match get_count(b, p) {
            Ok(n) => n,
            Err(e) => return Err(e),
        };
        if n == 0 {
            proof {
                list_model(out);
            }
            return Ok(Value::Arr(out));
        }
        let ghost body = dec_items(i.model(), n as nat, b@.skip(*p as int), acc);
        let mut k: u64 = 0;
        while k < n
            invariant
                k <= n,
                *old(p) <= start < *p <= b@.len(),
                whole == dec_blocks(i.model(), b@.skip(*old(p) as int), Seq::empty()),
                body is Err ==> whole is Err && whole->Err_0 == body->Err_0,
                dec_items(i.model(), (n - k) as nat, b@.skip(*p as int), values_model(out@))
                    == body,
            decreases n - k,
        {
            let v: Value = match read_value(i, b, p) {
                Ok(v) => v,
                Err(e) => return Err(e),
            };
            let ghost before = out@;
            out.push(v);
            assert(values_model(out@) =~= values_model(before).push(v.model()));
            k += 1;
        }
    }
}

fn decode_map(i: &Schema, b: &[u8], p: &mut usize) -> (r: Result<Value, String>)
    requires
        *old(p) <= b@.len(),
    ensures
        match (r, dec_entries(i.model(), b@.skip(*old(p) as int), Seq::empty())) {
            (Ok(v), Ok((m, rest))) => v.model() == ValueView::Dict(m) && stands(
                b@,
                *old(p),
                *final(p),
                rest,
            ),
            (Err(e), Err((m, rest))) => e@ == m && stands(b@, *old(p), *final(p), rest),
            _ => false,
        },
    decreases i, 1int,
{
    let ghost whole = dec_entries(i.model(), b@.skip(*p as int), Seq::empty());
    let mut out: Vec<(String, Value)> = Vec::new();
    assert(named_model(out@) =~= Seq::empty());
    loop
        invariant
            *old(p) <= *p <= b@.len(),
            whole == dec_entries(i.model(), b@.skip(*old(p) as int), Seq::empty()),
            dec_entries(i.model(), b@.skip(*p as int), named_model(out@)) == whole,
        decreases b@.len() - *p,
    {
        let ghost start = *p;
        let ghost acc = named_model(out@);
        let n: u64 = match get_count(b, p) {
            Ok(n) => n,
            Err(e) => return Err(e),
        };
        if n == 0 {
            proof {
                map_model(out);
            }
            return Ok(Value::Dict(out));
        }
        let ghost body = dec_pairs(i.model(), n as nat, b@.skip(*p as int), acc);
        let mut k: u64 = 0;
        while k < n
            invariant
                k <= n,
                *old(p) <= start < *p <= b@.len(),
                whole == dec_entries(i.model(), b@.skip(*old(p) as int), Seq::empty()),
                body is Err ==> whole is Err && whole->Err_0 == body->Err_0,
                dec_pairs(i.model(), (n - k) as nat, b@.skip(*p as int), named_model(out@)) == body,
            decreases n - k,
        {
            let ghost here = b@.skip(*p as int);
            let run: Vec<u8> = match get_run(b, p) {
                Ok(x) => x,
                Err(e) => return Err(e),
            };
            let len: usize = run.len();
            let ghost bytes = run@;
            let key: String = match string_from_utf8(run) {
                Some(t) => t,
                None => {
                    back_over(b, p, len, Ghost(here), Ghost(bytes));
                    return Err("k".to_owned());
                },
            };
            let v: Value = match read_value(i, b, p) {
                Ok(v) => v,
                Err(e) => return Err(e),
            };
            let ghost before = out@;
            out.push((key, v));
            assert(named_model(out@) =~= named_model(before).push((key@, v.model())));
            k += 1;
        }
    }
}

// ---------------------------------------------------------------------------
// What was encoded is decoded
// ---------------------------------------------------------------------------

/// The first branch of a union that takes a value.
pub open spec fn branch_of(b: Seq<SchemaView>, v: ValueView, k: int) -> int
    decreases b.len() - k,
{
    if k < 0 || k >= b.len() || branch_takes(b[k], v) {
        k
    } else {
        branch_of(b, v, k + 1)
    }
}

pub open spec fn names_distinct<T>(f: Seq<(Seq<char>, T)>) -> bool {
    forall|i: int, j: int| 0 <= i < j < f.len() ==> (#[trigger] f[i]).0 != (#[trigger] f[j]).0
}

/// Whether a value has the shape of a schema: the fields of a record in its
/// order and under different names, nothing longer than a count can say, and
/// in a `float` no more than single precision.
pub open spec fn shaped(s: SchemaView, v: ValueView) -> bool
    decreases s,
{
    match (s, v) {
        (SchemaView::Null, ValueView::Null) => true,
        (SchemaView::Boolean, ValueView::Bool(_)) => true,
        (SchemaView::Int, ValueView::Long(_)) => true,
        (SchemaView::Long, ValueView::Long(_)) => true,
        (SchemaView::Float, ValueView::Double(f)) => widen(narrow(f)) == f,
        (SchemaView::Double, ValueView::Double(_)) => true,
        (SchemaView::Bytes, ValueView::Bytes(b)) => b.len() <= i64::MAX,
        (SchemaView::String, ValueView::Str(t)) => encode_utf8(t).len() <= i64::MAX,
        (SchemaView::Fixed(n), ValueView::Bytes(b)) => b.len() == n,
        (SchemaView::Array(i), ValueView::Arr(a)) => a.len() <= i64::MAX && forall|k: int|
            #![trigger a[k]]
            0 <= k < a.len() ==> shaped(*i, a[k]),
        (SchemaView::Dict(i), ValueView::Dict(m)) => m.len() <= i64::MAX && forall|k: int|
            #![trigger m[k]]
            0 <= k < m.len() ==> encode_utf8(m[k].0).len() <= i64::MAX && shaped(*i, m[k].1),
        (SchemaView::Union(b), _) => {
            let k = branch_of(b, v, 0);
            0 <= k < b.len() <= i64::MAX && shaped(b[k], v)
        },
        (SchemaView::Record(_, f), ValueView::Record(fv)) => f.len() == fv.len() && names_distinct(
            f,
        ) && forall|k: int|
            #![trigger f[k]]
            #![trigger fv[k]]
            0 <= k < f.len() ==> f[k].0 == fv[k].0 && shaped(f[k].1, fv[k].1),
        _ => false,
    }
}

pub proof fn len_read_back(n: nat, rest: Seq<u8>)
    requires
        n <= i64::MAX,
    ensures
        rd_long(wr_len(n) + rest) == Ok::<(i64, Seq<u8>), Fail>((n as i64, rest)),
{
    long_read_back(n as i64, rest);
}

pub proof fn run_read_back(b: Seq<u8>, rest: Seq<u8>)
    requires
        b.len() <= i64::MAX,
    ensures
        rd_run(wr_run(b) + rest) == Ok::<(Seq<u8>, Seq<u8>), Fail>((b, rest)),
{
    assert(wr_run(b) + rest =~= wr_len(b.len()) + (b + rest));
    len_read_back(b.len(), b + rest);
    assert((b + rest).take(b.len() as int) =~= b);
    assert((b + rest).skip(b.len() as int) =~= rest);
}

proof fn branch_is(b: Seq<SchemaView>, v: ValueView, k: int)
    requires
        0 <= k,
    ensures
        k <= branch_of(b, v, k),
        branch_of(b, v, k) < b.len() ==> branch_takes(b[branch_of(b, v, k)], v) && enc_branch(
            b,
            v,
            k,
        ) == (match enc(b[branch_of(b, v, k)], v) {
            Err((e, x)) => Err::<Seq<u8>, Fail>((e, wr_len(branch_of(b, v, k) as nat) + x)),
            Ok(x) => Ok(wr_len(branch_of(b, v, k) as nat) + x),
        }),
    decreases b.len() - k,
{
    if k < b.len() && !branch_takes(b[k], v) {
        branch_is(b, v, k + 1);
    }
}

proof fn value_at_is(fv: Seq<(Seq<char>, ValueView)>, i: int)
    requires
        0 <= i < fv.len(),
        names_distinct(fv),
    ensures
        value_at(fv, fv[i].0) == Some(fv[i].1),
    decreases fv.len(),
{
    if i > 0 {
        let t = fv.skip(1);
        assert(fv[0].0 != fv[i].0);
        assert forall|a: int, b: int| 0 <= a < b < t.len() implies (#[trigger] t[a]).0
            != (#[trigger] t[b]).0 by {
            assert(fv[a + 1].0 != fv[b + 1].0);
        }
        assert(t[i - 1] == fv[i]);
        value_at_is(t, i - 1);
    }
}

/// What the items from `k` on are encoded to.
pub open spec fn items_tail(s: SchemaView, a: Seq<ValueView>, k: int) -> Seq<u8>
    decreases a.len() - k,
{
    if k < 0 || k >= a.len() {
        Seq::empty()
    } else {
        enc(s, a[k])->Ok_0 + items_tail(s, a, k + 1)
    }
}

pub proof fn items_join(s: SchemaView, a: Seq<ValueView>, k: int)
    requires
        0 <= k <= a.len(),
        forall|i: int| 0 <= i < a.len() ==> enc(s, #[trigger] a[i]) is Ok,
    ensures
        enc_items(s, a, k) is Ok,
        enc_items(s, a, k)->Ok_0 + items_tail(s, a, k) == items_tail(s, a, 0),
    decreases k,
{
    if k > 0 {
        items_join(s, a, k - 1);
        assert(enc(s, a[k - 1]) is Ok);
        assert(enc_items(s, a, k)->Ok_0 + items_tail(s, a, k) =~= enc_items(s, a, k - 1)->Ok_0
            + items_tail(s, a, k - 1));
    } else {
        assert(enc_items(s, a, 0)->Ok_0 + items_tail(s, a, 0) =~= items_tail(s, a, 0));
    }
}

pub proof fn items_read(s: SchemaView, a: Seq<ValueView>, k: int, rest: Seq<u8>)
    requires
        0 <= k <= a.len(),
        forall|i: int| 0 <= i < a.len() ==> shaped(s, #[trigger] a[i]),
    ensures
        dec_items(s, (a.len() - k) as nat, items_tail(s, a, k) + rest, a.take(k)) == Ok::<
            (Seq<ValueView>, Seq<u8>),
            Fail,
        >((a, rest)),
    decreases s, 1int, a.len() - k,
{
    if k == a.len() {
        assert(a.take(k) =~= a);
        assert(items_tail(s, a, k) + rest =~= rest);
    } else {
        let t = items_tail(s, a, k + 1) + rest;
        value_read_back(s, a[k], t);
        assert(items_tail(s, a, k) + rest =~= enc(s, a[k])->Ok_0 + t);
        assert(a.take(k).push(a[k]) =~= a.take(k + 1));
        items_read(s, a, k + 1, rest);
    }
}

spec fn entries_tail(s: SchemaView, a: Seq<(Seq<char>, ValueView)>, k: int) -> Seq<u8>
    decreases a.len() - k,
{
    if k < 0 || k >= a.len() {
        Seq::empty()
    } else {
        wr_run(encode_utf8(a[k].0)) + (enc(s, a[k].1)->Ok_0 + entries_tail(s, a, k + 1))
    }
}

proof fn entries_join(s: SchemaView, a: Seq<(Seq<char>, ValueView)>, k: int)
    requires
        0 <= k <= a.len(),
        forall|i: int| 0 <= i < a.len() ==> enc(s, (#[trigger] a[i]).1) is Ok,
    ensures
        enc_entries(s, a, k) is Ok,
        enc_entries(s, a, k)->Ok_0 + entries_tail(s, a, k) == entries_tail(s, a, 0),
    decreases k,
{
    if k > 0 {
        entries_join(s, a, k - 1);
        assert(enc(s, a[k - 1].1) is Ok);
        assert(enc_entries(s, a, k)->Ok_0 + entries_tail(s, a, k) =~= enc_entries(
            s,
            a,
            k - 1,
        )->Ok_0 + entries_tail(s, a, k - 1));
    } else {
        assert(enc_entries(s, a, 0)->Ok_0 + entries_tail(s, a, 0) =~= entries_tail(s, a, 0));
    }
}

proof fn entries_read(s: SchemaView, a: Seq<(Seq<char>, ValueView)>, k: int, rest: Seq<u8>)
    requires
        0 <= k <= a.len(),
        forall|i: int|
            #![trigger a[i]]
            0 <= i < a.len() ==> encode_utf8(a[i].0).len() <= i64::MAX && shaped(s, a[i].1),
    ensures
        dec_pairs(s, (a.len() - k) as nat, entries_tail(s, a, k) + rest, a.take(k)) == Ok::<
            (Seq<(Seq<char>, ValueView)>, Seq<u8>),
            Fail,
        >((a, rest)),
    decreases s, 1int, a.len() - k,
{
    if k == a.len() {
        assert(a.take(k) =~= a);
        assert(entries_tail(s, a, k) + rest =~= rest);
    } else {
        let t = entries_tail(s, a, k + 1) + rest;
        let key = encode_utf8(a[k].0);
        assert(encode_utf8(a[k].0).len() <= i64::MAX && shaped(s, a[k].1));
        value_read_back(s, a[k].1, t);
        let y = enc(s, a[k].1)->Ok_0 + t;
        assert(entries_tail(s, a, k) + rest =~= wr_run(key) + y);
        run_read_back(key, y);
        vstd::utf8::encode_utf8_valid_utf8(a[k].0);
        vstd::utf8::encode_utf8_decode_utf8(a[k].0);
        assert(a.take(k).push((a[k].0, a[k].1)) =~= a.take(k + 1));
        entries_read(s, a, k + 1, rest);
    }
}

proof fn fields_read(
    f: Seq<(Seq<char>, SchemaView)>,
    fv: Seq<(Seq<char>, ValueView)>,
    k: int,
    rest: Seq<u8>,
)
    requires
        0 <= k <= f.len(),
        f.len() == fv.len(),
        names_distinct(fv),
        forall|i: int|
            #![trigger f[i]]
            #![trigger fv[i]]
            0 <= i < f.len() ==> f[i].0 == fv[i].0 && shaped(f[i].1, fv[i].1),
    ensures
        enc_fields(f, fv, k) is Ok,
        dec_fields(f, enc_fields(f, fv, k)->Ok_0 + rest, k) == Ok::<
            (Seq<(Seq<char>, ValueView)>, Seq<u8>),
            Fail,
        >((fv.take(k), rest)),
    decreases f, 1int, k,
{
    if k > 0 {
        assert(f[k - 1].0 == fv[k - 1].0 && shaped(f[k - 1].1, fv[k - 1].1));
        value_at_is(fv, k - 1);
        value_read_back(f[k - 1].1, fv[k - 1].1, rest);
        let y = enc(f[k - 1].1, fv[k - 1].1)->Ok_0;
        fields_read(f, fv, k - 1, y + rest);
        let x = enc_fields(f, fv, k - 1)->Ok_0;
        assert((x + y) + rest =~= x + (y + rest));
        assert(fv.take(k - 1).push((f[k - 1].0, fv[k - 1].1)) =~= fv.take(k));
    } else {
        assert(Seq::<u8>::empty() + rest =~= rest);
        assert(fv.take(0) =~= Seq::empty());
    }
}

/// A value that has the shape of a schema can be encoded under it, and is
/// decoded again, whatever follows it.
pub proof fn value_read_back(s: SchemaView, v: ValueView, rest: Seq<u8>)
    requires
        shaped(s, v),
    ensures
        enc(s, v) is Ok,
        dec_value(s, enc(s, v)->Ok_0 + rest) == Ok::<(ValueView, Seq<u8>), Fail>((v, rest)),
    decreases s, 0int, 0int,
{
    match (s, v) {
        (SchemaView::Null, ValueView::Null) => {
            assert(Seq::<u8>::empty() + rest =~= rest);
        },
        (SchemaView::Boolean, ValueView::Bool(b)) => {
            assert((enc(s, v)->Ok_0 + rest).skip(1) =~= rest);
        },
        (SchemaView::Int, ValueView::Long(n)) => {
            long_read_back(n, rest);
        },
        (SchemaView::Long, ValueView::Long(n)) => {
            long_read_back(n, rest);
        },
        (SchemaView::Float, ValueView::Double(d)) => {
            let f = narrow(d);
            le_read_back(f as nat, 4);
            assert((le(f as nat, 4) + rest).take(4) =~= le(f as nat, 4));
            assert((le(f as nat, 4) + rest).skip(4) =~= rest);
        },
        (SchemaView::Double, ValueView::Double(f)) => {
            le_read_back(f as nat, 8);
            assert((le(f as nat, 8) + rest).take(8) =~= le(f as nat, 8));
            assert((le(f as nat, 8) + rest).skip(8) =~= rest);
        },
        (SchemaView::Bytes, ValueView::Bytes(b)) => {
            run_read_back(b, rest);
        },
        (SchemaView::String, ValueView::Str(t)) => {
            run_read_back(encode_utf8(t), rest);
            vstd::utf8::encode_utf8_valid_utf8(t);
            vstd::utf8::encode_utf8_decode_utf8(t);
        },
        (SchemaView::Fixed(n), ValueView::Bytes(b)) => {
            assert((b + rest).take(n as int) =~= b);
            assert((b + rest).skip(n as int) =~= rest);
        },
        (SchemaView::Array(i), ValueView::Arr(a)) => {
            array_read_back(*i, a, rest);
        },
        (SchemaView::Dict(i), ValueView::Dict(m)) => {
            map_read_back(*i, m, rest);
        },
        (SchemaView::Union(b), _) => {
            let k = branch_of(b, v, 0);
            branch_is(b, v, 0);
            value_read_back(b[k], v, rest);
            let x = enc(b[k], v)->Ok_0;
            assert((wr_len(k as nat) + x) + rest =~= wr_len(k as nat) + (x + rest));
            len_read_back(k as nat, x + rest);
        },
        (SchemaView::Record(_, f), ValueView::Record(fv)) => {
            assert forall|a: int, b: int| 0 <= a < b < fv.len() implies (#[trigger] fv[a]).0
                != (#[trigger] fv[b]).0 by {
                assert(f[a].0 == fv[a].0 && f[b].0 == fv[b].0);
            }
            fields_read(f, fv, f.len() as int, rest);
            assert(fv.take(f.len() as int) =~= fv);
        },
        _ => {},
    }
}

proof fn array_read_back(i: SchemaView, a: Seq<ValueView>, rest: Seq<u8>)
    requires
        a.len() <= i64::MAX,
        forall|k: int| #![trigger a[k]] 0 <= k < a.len() ==> shaped(i, a[k]),
    ensures
        enc_items(i, a, a.len() as int) is Ok,
        dec_blocks(
            i,
            count_head(a.len()) + enc_items(i, a, a.len() as int)->Ok_0 + wr_long(0) + rest,
            Seq::empty(),
        ) == Ok::<(Seq<ValueView>, Seq<u8>), Fail>((a, rest)),
    decreases i, 2int, 0int,
{
    assert forall|k: int| 0 <= k < a.len() implies enc(i, #[trigger] a[k]) is Ok by {
        value_read_back(i, a[k], rest);
    }
    items_join(i, a, a.len() as int);
    let body = items_tail(i, a, 0);
    assert(enc_items(i, a, a.len() as int)->Ok_0 =~= body);
    let end = wr_long(0) + rest;
    long_read_back(0, rest);
    assert(dec_blocks(i, end, a) == Ok::<(Seq<ValueView>, Seq<u8>), Fail>((a, rest)));
    if a.len() == 0 {
        assert(Seq::<u8>::empty() + body + wr_long(0) + rest =~= end);
        assert(a =~= Seq::empty());
    } else {
        let b = wr_len(a.len()) + (body + end);
        assert(wr_len(a.len()) + body + wr_long(0) + rest =~= b);
        len_read_back(a.len(), body + end);
        items_read(i, a, 0, end);
        assert(a.take(0) =~= Seq::empty());
        long_shorter(b);
    }
}

proof fn map_read_back(i: SchemaView, a: Seq<(Seq<char>, ValueView)>, rest: Seq<u8>)
    requires
        a.len() <= i64::MAX,
        forall|k: int|
            #![trigger a[k]]
            0 <= k < a.len() ==> encode_utf8(a[k].0).len() <= i64::MAX && shaped(i, a[k].1),
    ensures
        enc_entries(i, a, a.len() as int) is Ok,
        dec_entries(
            i,
            count_head(a.len()) + enc_entries(i, a, a.len() as int)->Ok_0 + wr_long(0) + rest,
            Seq::empty(),
        ) == Ok::<(Seq<(Seq<char>, ValueView)>, Seq<u8>), Fail>((a, rest)),
    decreases i, 2int, 0int,
{
    assert forall|k: int| 0 <= k < a.len() implies enc(i, (#[trigger] a[k]).1) is Ok by {
        value_read_back(i, a[k].1, rest);
    }
    entries_join(i, a, a.len() as int);
    let body = entries_tail(i, a, 0);
    assert(enc_entries(i, a, a.len() as int)->Ok_0 =~= body);
    let end = wr_long(0) + rest;
    long_read_back(0, rest);
    assert(dec_entries(i, end, a) == Ok::<
        (Seq<(Seq<char>, ValueView)>, Seq<u8>),
        Fail,
    >((a, rest)));
    if a.len() == 0 {
        assert(Seq::<u8>::empty() + body + wr_long(0) + rest =~= end);
        assert(a =~= Seq::empty());
    } else {
        let b = wr_len(a.len()) + (body + end);
        assert(wr_len(a.len()) + body + wr_long(0) + rest =~= b);
        len_read_back(a.len(), body + end);
        entries_read(i, a, 0, end);
        assert(a.take(0) =~= Seq::empty());
        long_shorter(b);
    }
}

} // verus!
