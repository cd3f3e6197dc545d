//! Avro values and their binary encoding, driven by a schema. Floating-point
//! numbers are kept as their bits.
use crate::text::str_eq;
use crate::varint::{
    get_varint, put_varint, rd_varint, rd_varint64, unzigzag, unzz, varint, varint_read_back, zigzag, zigzag_inverse,
    zz,
};
use crate::wire::{
    copy_range, from_le, le, le_read_back, put_bytes, put_u32, put_u64, regroup, string_from_utf8, u32_at, u64_at,
};
use vstd::prelude::*;
use vstd::utf8::{decode_utf8, encode_utf8, valid_utf8};

verus! {

#[derive(Debug)]
pub enum Schema {
    Null,
    Boolean,
    Int,
    Long,
    Float,
    Double,
    Bytes,
    String,
    Record { name: String, fields: Vec<(String, Schema)> },
    Array(Box<Schema>),
    Dict(Box<Schema>),
    Union(Vec<Schema>),
}

#[derive(Debug)]
pub enum Value {
    Null,
    Boolean(bool),
    Int(i32),
    Long(i64),
    Float(u32),
    Double(u64),
    Bytes(Vec<u8>),
    String(String),
    Record(Vec<(String, Value)>),
    Array(Vec<Value>),
    Dict(Vec<(String, Value)>),
    Union(usize, Box<Value>),
}

#[verifier::ext_equal]
pub enum SchemaView {
    Null,
    Boolean,
    Int,
    Long,
    Float,
    Double,
    Bytes,
    String,
    Record(Seq<char>, Seq<(Seq<char>, SchemaView)>),
    Array(Box<SchemaView>),
    Dict(Box<SchemaView>),
    Union(Seq<SchemaView>),
}

#[verifier::ext_equal]
pub enum ValueView {
    Null,
    Boolean(bool),
    Int(i32),
    Long(i64),
    Float(u32),
    Double(u64),
    Bytes(Seq<u8>),
    String(Seq<char>),
    Record(Seq<(Seq<char>, ValueView)>),
    Array(Seq<ValueView>),
    Dict(Seq<(Seq<char>, ValueView)>),
    Union(usize, Box<ValueView>),
}

impl Schema {
    pub open spec fn model(self) -> SchemaView
        decreases self,
    {
        match self {
            Schema::Null => SchemaView::Null,
            Schema::Boolean => SchemaView::Boolean,
            Schema::Int => SchemaView::Int,
            Schema::Long => SchemaView::Long,
            Schema::Float => SchemaView::Float,
            Schema::Double => SchemaView::Double,
            Schema::Bytes => SchemaView::Bytes,
            Schema::String => SchemaView::String,
            Schema::Array(i) => SchemaView::Array(Box::new(i.model())),
            Schema::Dict(v) => SchemaView::Dict(Box::new(v.model())),
            Schema::Union(b) => SchemaView::Union(
                Seq::new(
                    b@.len(),
                    |i: int|
                        if 0 <= i < b@.len() {
                            b@[i].model()
                        } else {
                            arbitrary()
                        },
                ),
            ),
            Schema::Record { name, fields } => SchemaView::Record(
                name@,
                Seq::new(
                    fields@.len(),
                    |i: int|
                        if 0 <= i < fields@.len() {
                            (fields@[i].0@, fields@[i].1.model())
                        } else {
                            arbitrary()
                        },
                ),
            ),
        }
    }
}

impl Value {
    pub open spec fn model(self) -> ValueView
        decreases self,
    {
        match self {
            Value::Null => ValueView::Null,
            Value::Boolean(b) => ValueView::Boolean(b),
            Value::Int(n) => ValueView::Int(n),
            Value::Long(n) => ValueView::Long(n),
            Value::Float(f) => ValueView::Float(f),
            Value::Double(f) => ValueView::Double(f),
            Value::Bytes(b) => ValueView::Bytes(b@),
            Value::String(s) => ValueView::String(s@),
            Value::Union(i, v) => ValueView::Union(i, Box::new(v.model())),
            Value::Array(a) => ValueView::Array(
                Seq::new(
                    a@.len(),
                    |i: int|
                        if 0 <= i < a@.len() {
                            a@[i].model()
                        } else {
                            arbitrary()
                        },
                ),
            ),
            Value::Dict(m) => ValueView::Dict(
                Seq::new(
                    m@.len(),
                    |i: int|
                        if 0 <= i < m@.len() {
                            (m@[i].0@, m@[i].1.model())
                        } else {
                            arbitrary()
                        },
                ),
            ),
            Value::Record(f) => ValueView::Record(
                Seq::new(
                    f@.len(),
                    |i: int|
                        if 0 <= i < f@.len() {
                            (f@[i].0@, f@[i].1.model())
                        } else {
                            arbitrary()
                        },
                ),
            ),
        }
    }
}

pub open spec fn schemas_model(b: Seq<Schema>) -> Seq<SchemaView> {
    Seq::new(b.len(), |i: int| b[i].model())
}

pub open spec fn fields_model(f: Seq<(String, Schema)>) -> Seq<(Seq<char>, SchemaView)> {
    Seq::new(f.len(), |i: int| (f[i].0@, f[i].1.model()))
}

pub open spec fn values_model(a: Seq<Value>) -> Seq<ValueView> {
    Seq::new(a.len(), |i: int| a[i].model())
}

pub open spec fn named_model(a: Seq<(String, Value)>) -> Seq<(Seq<char>, ValueView)> {
    Seq::new(a.len(), |i: int| (a[i].0@, a[i].1.model()))
}

pub proof fn union_model(b: Vec<Schema>)
    ensures
        Schema::Union(b).model() == SchemaView::Union(schemas_model(b@)),
{
    assert(Schema::Union(b).model()->Union_0 =~= schemas_model(b@));
}

pub proof fn record_model(name: String, fields: Vec<(String, Schema)>)
    ensures
        (Schema::Record { name, fields }).model() == SchemaView::Record(
            name@,
            fields_model(fields@),
        ),
{
    assert((Schema::Record { name, fields }).model()->Record_1 =~= fields_model(fields@));
}

pub proof fn array_model(a: Vec<Value>)
    ensures
        Value::Array(a).model() == ValueView::Array(values_model(a@)),
{
    assert(Value::Array(a).model()->Array_0 =~= values_model(a@));
}

pub proof fn dict_model(m: Vec<(String, Value)>)
    ensures
        Value::Dict(m).model() == ValueView::Dict(named_model(m@)),
        Value::Record(m).model() == ValueView::Record(named_model(m@)),
{
    assert(Value::Dict(m).model()->Dict_0 =~= named_model(m@));
    assert(Value::Record(m).model()->Record_0 =~= named_model(m@));
}

// ---------------------------------------------------------------------------
// Access
// ---------------------------------------------------------------------------

/// The first value of a name, if there is one.
pub open spec fn value_at(f: Seq<(Seq<char>, ValueView)>, name: Seq<char>) -> Option<ValueView>
    decreases f.len(),
{
    if f.len() == 0 {
        None
    } else if f[0].0 == name {
        Some(f[0].1)
    } else {
        value_at(f.skip(1), name)
    }
}

impl ValueView {
    /// The first field of a name, if the value is a record.
    pub open spec fn at(self, name: Seq<char>) -> Option<ValueView> {
        match self {
            ValueView::Record(f) => value_at(f, name),
            _ => None,
        }
    }

    /// The value inside any unions.
    pub open spec fn inner(self) -> ValueView
        decreases self,
    {
        match self {
            ValueView::Union(_, v) => v.inner(),
            v => v,
        }
    }

    pub open spec fn number(self) -> Option<i64> {
        match self.inner() {
            ValueView::Long(v) => Some(v),
            ValueView::Int(v) => Some(v as i64),
            _ => None,
        }
    }

    pub open spec fn text(self) -> Option<Seq<char>> {
        match self.inner() {
            ValueView::String(s) => Some(s),
            _ => None,
        }
    }

    pub open spec fn bytes(self) -> Option<Seq<u8>> {
        match self.inner() {
            ValueView::Bytes(b) => Some(b),
            _ => None,
        }
    }
}

impl Value {
    /// The first field of a name, if the value is a record.
    pub fn field(&self, name: &str) -> (r: Option<&Value>)
        ensures
            match r {
                Some(v) => self.model().at(name@) == Some(v.model()),
                None => self.model().at(name@) is None,
            },
    {
        match self {
            Value::Record(f) => {
                let ghost m = named_model(f@);
                proof {
                    dict_model(*f);
                    assert(m.skip(0) =~= m);
                }
                let mut i: usize = 0;
                while i < f.len()
                    invariant
                        i <= f@.len(),
                        m == named_model(f@),
                        self.model() == ValueView::Record(m),
                        value_at(m.skip(i as int), name@) == value_at(m, name@),
                    decreases f@.len() - i,
                {
                    assert(m.skip(i as int)[0] == m[i as int]);
                    assert(m.skip(i as int).skip(1) =~= m.skip(i + 1));
                    if str_eq(f[i].0.as_str(), name) {
                        return Some(&f[i].1);
                    }
                    i += 1;
                }
                None
            },
            _ => None,
        }
    }

    /// The value inside any unions.
    pub fn flat(&self) -> (r: &Value)
        ensures
            r.model() == self.model().inner(),
        decreases self,
    {
        match self {
            Value::Union(_, v) => v.flat(),
            v => v,
        }
    }

    pub fn as_long(&self) -> (r: Option<i64>)
        ensures
            r == self.model().number(),
    {
        match self.flat() {
            Value::Long(v) => Some(*v),
            Value::Int(v) => Some(*v as i64),
            _ => None,
        }
    }

    pub fn as_str(&self) -> (r: Option<&str>)
        ensures
            match r {
                Some(s) => self.model().text() == Some(s@),
                None => self.model().text() is None,
            },
    {
        match self.flat() {
            Value::String(s) => Some(s.as_str()),
            _ => None,
        }
    }

    pub fn as_bytes(&self) -> (r: Option<&[u8]>)
        ensures
            match r {
                Some(b) => self.model().bytes() == Some(b@),
                None => self.model().bytes() is None,
            },
    {
        match self.flat() {
            Value::Bytes(b) => Some(b.as_slice()),
            _ => None,
        }
    }
}

// ---------------------------------------------------------------------------
// Numbers
// ---------------------------------------------------------------------------

/// A signed number, zigzag and in base 128.
pub open spec fn wr_long(n: int) -> Seq<u8> {
    varint(zz(n))
}

/// A length, as a 64-bit number.
pub open spec fn wr_len(n: nat) -> Seq<u8> {
    wr_long((n as i64) as int)
}

pub open spec fn rd_long(b: Seq<u8>) -> Option<(i64, Seq<u8>)> {
    match rd_varint64(b) {
        Some((u, r)) => Some((unzz(u as nat) as i64, r)),
        None => None,
    }
}

pub(crate) fn put_long(out: &mut Vec<u8>, n: i64)
    ensures
        final(out)@ == old(out)@ + wr_long(n as int),
{
    put_varint(out, zigzag(n));
}

pub(crate) fn put_len(out: &mut Vec<u8>, n: usize)
    ensures
        final(out)@ == old(out)@ + wr_len(n as nat),
{
    put_long(out, #[verifier::truncate] (n as i64));
}

/// Reads a number, if all of it is there and it has at most ten bytes.
pub(crate) fn get_long(buf: &[u8], pos: &mut usize) -> (r: Option<i64>)
    requires
        *old(pos) <= buf@.len(),
    ensures
        *old(pos) <= *final(pos) <= buf@.len(),
        match rd_long(buf@.skip(*old(pos) as int)) {
            Some((v, rest)) => r == Some(v) && buf@.skip(*final(pos) as int) == rest,
            None => r is None,
        },
{
    match get_varint(buf, pos) {
        Some(u) => Some(unzigzag(u)),
        None => None,
    }
}

proof fn number_shorter(b: Seq<u8>, n: nat)
    ensures
        rd_varint(b, n) matches Some((x, r)) ==> r.len() < b.len(),
    decreases n,
{
    if n > 0 && b.len() > 0 && b[0] >= 128 {
        number_shorter(b.skip(1), (n - 1) as nat);
    }
}

pub proof fn long_shorter(b: Seq<u8>)
    ensures
        rd_long(b) matches Some((x, r)) ==> r.len() < b.len(),
{
    number_shorter(b, 10);
}

pub proof fn long_read_back(n: i64, rest: Seq<u8>)
    ensures
        rd_long(wr_long(n as int) + rest) == Some((n, rest)),
{
    zigzag_inverse(n as int, 0);
    varint_read_back(zz(n as int) as u64, rest);
}

pub proof fn len_read_back(n: nat, rest: Seq<u8>)
    requires
        n <= i64::MAX,
    ensures
        rd_long(wr_len(n) + rest) == Some((n as i64, rest)),
{
    long_read_back(n as i64, rest);
}

pub open spec fn wr_run(b: Seq<u8>) -> Seq<u8> {
    wr_len(b.len()) + b
}

/// Some bytes behind their count.
pub open spec fn rd_run(b: Seq<u8>) -> Option<(Seq<u8>, Seq<u8>)> {
    match rd_long(b) {
        None => None,
        Some((n, r)) => if n < 0 || n > r.len() {
            None
        } else {
            Some((r.take(n as int), r.skip(n as int)))
        },
    }
}

pub proof fn run_read_back(b: Seq<u8>, rest: Seq<u8>)
    requires
        b.len() <= i64::MAX,
    ensures
        rd_run(wr_run(b) + rest) == Some((b, rest)),
{
    assert(wr_run(b) + rest =~= wr_len(b.len()) + (b + rest));
    len_read_back(b.len(), b + rest);
    assert((b + rest).take(b.len() as int) =~= b);
    assert((b + rest).skip(b.len() as int) =~= rest);
}

pub(crate) fn put_run(out: &mut Vec<u8>, b: &[u8])
    ensures
        final(out)@ == old(out)@ + wr_run(b@),
{
    put_len(out, b.len());
    put_bytes(out, b);
    assert(out@ =~= old(out)@ + wr_run(b@));
}

pub(crate) fn get_run(b: &[u8], p: &mut usize) -> (r: Option<Vec<u8>>)
    requires
        *old(p) <= b@.len(),
    ensures
        *old(p) <= *final(p) <= b@.len(),
        match (r, rd_run(b@.skip(*old(p) as int))) {
            (Some(x), Some((v, rest))) => x@ == v && b@.skip(*final(p) as int) == rest,
            (None, None) => true,
            _ => false,
        },
{
    let n: i64 = match get_long(b, p) {
        Some(n) => n,
        None => return None,
    };
    let left: usize = b.len() - *p;
    if n < 0 || n as u64 > left as u64 {
        return None;
    }
    let from: usize = *p;
    let x: Vec<u8> = copy_range(b, from, from + n as usize);
    *p = from + n as usize;
    proof {
        let r = b@.skip(from as int);
        assert(r.take(n as int) =~= x@);
        assert(r.skip(n as int) =~= b@.skip(*p as int));
    }
    Some(x)
}

/// How many items a block of an array or a map holds, 0 at its end. A negative
/// count is followed by the size of the block.
pub open spec fn rd_count(b: Seq<u8>) -> Option<(nat, Seq<u8>)> {
    match rd_long(b) {
        None => None,
        Some((n, r)) => if n >= 0 {
            Some((n as nat, r))
        } else {
            match rd_long(r) {
                None => None,
                Some((_, r2)) => Some(((-n) as nat, r2)),
            }
        },
    }
}

pub(crate) fn get_count(b: &[u8], p: &mut usize) -> (r: Option<u64>)
    requires
        *old(p) <= b@.len(),
    ensures
        *old(p) <= *final(p) <= b@.len(),
        match (r, rd_count(b@.skip(*old(p) as int))) {
            (Some(x), Some((v, rest))) => x == v && *old(p) < *final(p) && b@.skip(
                *final(p) as int,
            ) == rest,
            (None, None) => true,
            _ => false,
        },
{
    proof {
        long_shorter(b@.skip(*p as int));
    }
    let n: i64 = match get_long(b, p) {
        Some(n) => n,
        None => return None,
    };
    if n >= 0 {
        return Some(n as u64);
    }
    match get_long(b, p) {
        Some(_) => Some((-(n + 1)) as u64 + 1),
        None => None,
    }
}

// ---------------------------------------------------------------------------
// Encoding
// ---------------------------------------------------------------------------

/// How many fields of a record are written: as many as the value and the
/// schema both have.
pub open spec fn both(a: nat, b: nat) -> int {
    if a < b {
        a as int
    } else {
        b as int
    }
}

/// Whether a value can be encoded under a schema.
pub open spec fn fits(v: ValueView, s: SchemaView) -> bool
    decreases s,
{
    match (v, s) {
        (ValueView::Null, SchemaView::Null) => true,
        (ValueView::Boolean(_), SchemaView::Boolean) => true,
        (ValueView::Int(_), SchemaView::Int) => true,
        (ValueView::Long(_), SchemaView::Long) => true,
        (ValueView::Float(_), SchemaView::Float) => true,
        (ValueView::Double(_), SchemaView::Double) => true,
        (ValueView::Bytes(_), SchemaView::Bytes) => true,
        (ValueView::String(_), SchemaView::String) => true,
        (ValueView::Record(fv), SchemaView::Record(_, f)) => forall|k: int|
            #![trigger f[k]]
            #![trigger fv[k]]
            0 <= k < f.len() && k < fv.len() ==> fits(fv[k].1, f[k].1),
        (ValueView::Array(a), SchemaView::Array(i)) => forall|k: int|
            #![trigger a[k]]
            0 <= k < a.len() ==> fits(a[k], *i),
        (ValueView::Dict(m), SchemaView::Dict(i)) => forall|k: int|
            #![trigger m[k]]
            0 <= k < m.len() ==> fits(m[k].1, *i),
        (ValueView::Union(i, v), SchemaView::Union(b)) => i < b.len() && fits(*v, b[i as int]),
        _ => false,
    }
}

/// The bytes of a value under a schema it fits.
pub open spec fn enc(v: ValueView, s: SchemaView) -> Seq<u8>
    decreases s, 0int, 0int,
{
    match (v, s) {
        (ValueView::Boolean(b), SchemaView::Boolean) => seq![
            if b {
                1u8
            } else {
                0u8
            },
        ],
        (ValueView::Int(n), SchemaView::Int) => wr_long(n as int),
        (ValueView::Long(n), SchemaView::Long) => wr_long(n as int),
        (ValueView::Float(f), SchemaView::Float) => le(f as nat, 4),
        (ValueView::Double(f), SchemaView::Double) => le(f as nat, 8),
        (ValueView::Bytes(b), SchemaView::Bytes) => wr_run(b),
        (ValueView::String(t), SchemaView::String) => wr_run(encode_utf8(t)),
        (ValueView::Record(fv), SchemaView::Record(_, f)) => enc_fields(
            fv,
            f,
            both(fv.len(), f.len()),
        ),
        (ValueView::Array(a), SchemaView::Array(i)) => (if a.len() > 0 {
            wr_len(a.len())
        } else {
            Seq::empty()
        }) + enc_items(a, *i, 0) + wr_long(0),
        (ValueView::Dict(m), SchemaView::Dict(i)) => (if m.len() > 0 {
            wr_len(m.len())
        } else {
            Seq::empty()
        }) + enc_entries(m, *i, 0) + wr_long(0),
        (ValueView::Union(i, v), SchemaView::Union(b)) => if i < b.len() {
            wr_len(i as nat) + enc(*v, b[i as int])
        } else {
            Seq::empty()
        },
        _ => Seq::empty(),
    }
}

/// The first `k` fields of a record.
pub open spec fn enc_fields(
    fv: Seq<(Seq<char>, ValueView)>,
    f: Seq<(Seq<char>, SchemaView)>,
    k: int,
) -> Seq<u8>
    decreases f, 1int, k,
{
    if k <= 0 || k > f.len() {
        Seq::empty()
    } else {
        enc_fields(fv, f, k - 1) + enc(fv[k - 1].1, f[k - 1].1)
    }
}

/// The items from `k` on.
pub open spec fn enc_items(a: Seq<ValueView>, s: SchemaView, k: int) -> Seq<u8>
    decreases s, 1int, a.len() - k,
{
    if k < 0 || k >= a.len() {
        Seq::empty()
    } else {
        enc(a[k], s) + enc_items(a, s, k + 1)
    }
}

/// The entries of a map from `k` on.
pub open spec fn enc_entries(m: Seq<(Seq<char>, ValueView)>, s: SchemaView, k: int) -> Seq<u8>
    decreases s, 1int, m.len() - k,
{
    if k < 0 || k >= m.len() {
        Seq::empty()
    } else {
        wr_run(encode_utf8(m[k].0)) + (enc(m[k].1, s) + enc_entries(m, s, k + 1))
    }
}

proof fn fits_record(
    fv: Seq<(Seq<char>, ValueView)>,
    name: Seq<char>,
    f: Seq<(Seq<char>, SchemaView)>,
)
    requires
        fits(ValueView::Record(fv), SchemaView::Record(name, f)),
    ensures
        forall|k: int|
            #![trigger f[k]]
            0 <= k < f.len() && k < fv.len() ==> fits(fv[k].1, f[k].1),
{
    let v = ValueView::Record(fv);
    let s = SchemaView::Record(name, f);
    assert forall|k: int|
        #![trigger f[k]]
        0 <= k < f.len() && k < fv.len() implies fits(fv[k].1, f[k].1) by {
        assert(f[k] == s->Record_1[k]);
        assert(fits(v->Record_0[k].1, s->Record_1[k].1));
    }
}

proof fn fits_array(a: Seq<ValueView>, i: SchemaView)
    requires
        fits(ValueView::Array(a), SchemaView::Array(Box::new(i))),
    ensures
        forall|k: int| #![trigger a[k]] 0 <= k < a.len() ==> fits(a[k], i),
{
    let v = ValueView::Array(a);
    assert forall|k: int| #![trigger a[k]] 0 <= k < a.len() implies fits(a[k], i) by {
        assert(a[k] == v->Array_0[k]);
    }
}

proof fn fits_dict(m: Seq<(Seq<char>, ValueView)>, i: SchemaView)
    requires
        fits(ValueView::Dict(m), SchemaView::Dict(Box::new(i))),
    ensures
        forall|k: int| #![trigger m[k]] 0 <= k < m.len() ==> fits(m[k].1, i),
{
    let v = ValueView::Dict(m);
    assert forall|k: int| #![trigger m[k]] 0 <= k < m.len() implies fits(m[k].1, i) by {
        assert(m[k] == v->Dict_0[k]);
    }
}

/// Appends a value under a schema it fits.
pub fn encode(v: &Value, s: &Schema, out: &mut Vec<u8>)
    requires
        fits(v.model(), s.model()),
    ensures
        final(out)@ == old(out)@ + enc(v.model(), s.model()),
    decreases s,
{
    match (v, s) {
        (Value::Boolean(b), Schema::Boolean) => out.push(if *b { 1 } else { 0 }),
        (Value::Int(n), Schema::Int) => put_long(out, *n as i64),
        (Value::Long(n), Schema::Long) => put_long(out, *n),
        (Value::Float(f), Schema::Float) => put_u32(out, *f),
        (Value::Double(f), Schema::Double) => put_u64(out, *f),
        (Value::Bytes(b), Schema::Bytes) => put_run(out, b.as_slice()),
        (Value::String(t), Schema::String) => put_run(out, t.as_str().as_bytes()),
        (Value::Record(fv), Schema::Record { name, fields }) => {
            let ghost m = fields_model(fields@);
            let ghost vm = named_model(fv@);
            proof {
                record_model(*name, *fields);
                dict_model(*fv);
                fits_record(vm, name@, m);
            }
            let mut k: usize = 0;
            assert(out@ =~= old(out)@ + enc_fields(vm, m, 0));
            while k < fields.len() && k < fv.len()
                invariant
                    k <= fields@.len(),
                    k <= fv@.len(),
                    m == fields_model(fields@),
                    vm == named_model(fv@),
                    *s == (Schema::Record { name: *name, fields: *fields }),
                    forall|j: int|
                        #![trigger m[j]]
                        0 <= j < m.len() && j < vm.len() ==> fits(vm[j].1, m[j].1),
                    out@ == old(out)@ + enc_fields(vm, m, k as int),
                decreases fields@.len() - k,
            {
                assert(decreases_to!(s => s->fields@[k as int].1));
                assert(fits(vm[k as int].1, m[k as int].1));
                encode(&fv[k].1, &fields[k].1, out);
                assert(out@ =~= old(out)@ + enc_fields(vm, m, k + 1));
                k += 1;
            }
        },
        (Value::Array(a), Schema::Array(i)) => {
            let ghost m = values_model(a@);
            proof {
                array_model(*a);
                fits_array(m, i.model());
            }
            if a.len() > 0 {
                put_len(out, a.len());
            }
            let ghost head = out@;
            let mut k: usize = 0;
            while k < a.len()
                invariant
                    k <= a@.len(),
                    m == values_model(a@),
                    decreases_to!(s => i),
                    forall|j: int| #![trigger m[j]] 0 <= j < m.len() ==> fits(m[j], i.model()),
                    out@ + enc_items(m, i.model(), k as int) == head + enc_items(m, i.model(), 0),
                decreases a@.len() - k,
            {
                let ghost o = out@;
                assert(fits(m[k as int], i.model()));
                encode(&a[k], i, out);
                assert((o + enc(m[k as int], i.model())) + enc_items(m, i.model(), k + 1) =~= o + (enc(
                    m[k as int],
                    i.model(),
                ) + enc_items(m, i.model(), k + 1)));
                k += 1;
            }
            assert(out@ =~= head + enc_items(m, i.model(), 0));
            put_long(out, 0);
        },
        (Value::Dict(a), Schema::Dict(i)) => {
            let ghost m = named_model(a@);
            proof {
                dict_model(*a);
                fits_dict(m, i.model());
            }
            if a.len() > 0 {
                put_len(out, a.len());
            }
            let ghost head = out@;
            let mut k: usize = 0;
            while k < a.len()
                invariant
                    k <= a@.len(),
                    m == named_model(a@),
                    decreases_to!(s => i),
                    forall|j: int| #![trigger m[j]] 0 <= j < m.len() ==> fits(m[j].1, i.model()),
                    out@ + enc_entries(m, i.model(), k as int) == head + enc_entries(
                        m,
                        i.model(),
                        0,
                    ),
                decreases a@.len() - k,
            {
                let ghost o = out@;
                assert(fits(m[k as int].1, i.model()));
                put_run(out, a[k].0.as_str().as_bytes());
                encode(&a[k].1, i, out);
                proof {
                    let x = wr_run(encode_utf8(m[k as int].0));
                    let y = enc(m[k as int].1, i.model());
                    let t = enc_entries(m, i.model(), k + 1);
                    assert(out@ =~= o + x + y);
                    assert((o + x + y) + t =~= o + (x + (y + t)));
                }
                k += 1;
            }
            assert(out@ =~= head + enc_entries(m, i.model(), 0));
            put_long(out, 0);
        },
        (Value::Union(i, w), Schema::Union(b)) => {
            proof {
                union_model(*b);
            }
            put_len(out, *i);
            assert(decreases_to!(s => s->Union_0@[*i as int]));
            encode(w, &b[*i], out);
        },
        _ => {},
    }
    assert(out@ =~= old(out)@ + enc(v.model(), s.model()));
}

// ---------------------------------------------------------------------------
// Decoding
// ---------------------------------------------------------------------------

/// The value under a schema at the start of some bytes, and the bytes behind
/// it; nothing where the bytes are no such value.
pub open spec fn dec_value(s: SchemaView, b: Seq<u8>) -> Option<(ValueView, Seq<u8>)>
    decreases s, 0int, 0int,
{
    match s {
        SchemaView::Null => Some((ValueView::Null, b)),
        SchemaView::Boolean => if b.len() == 0 {
            None
        } else {
            Some((ValueView::Boolean(b[0] != 0), b.skip(1)))
        },
        SchemaView::Int => match rd_long(b) {
            None => None,
            Some((n, r)) => Some((ValueView::Int(n as i32), r)),
        },
        SchemaView::Long => match rd_long(b) {
            None => None,
            Some((n, r)) => Some((ValueView::Long(n), r)),
        },
        SchemaView::Float => if b.len() < 4 {
            None
        } else {
            Some((ValueView::Float(from_le(b.take(4)) as u32), b.skip(4)))
        },
        SchemaView::Double => if b.len() < 8 {
            None
        } else {
            Some((ValueView::Double(from_le(b.take(8)) as u64), b.skip(8)))
        },
        SchemaView::Bytes => match rd_run(b) {
            None => None,
            Some((x, r)) => Some((ValueView::Bytes(x), r)),
        },
        SchemaView::String => match rd_run(b) {
            None => None,
            Some((x, r)) => if valid_utf8(x) {
                Some((ValueView::String(decode_utf8(x)), r))
            } else {
                None
            },
        },
        SchemaView::Array(i) => match dec_blocks(*i, b, Seq::empty()) {
            None => None,
            Some((a, r)) => Some((ValueView::Array(a), r)),
        },
        SchemaView::Dict(i) => match dec_entries(*i, b, Seq::empty()) {
            None => None,
            Some((m, r)) => Some((ValueView::Dict(m), r)),
        },
        SchemaView::Union(br) => match rd_long(b) {
            None => None,
            Some((i, r)) => if 0 <= i < br.len() {
                match dec_value(br[i as int], r) {
                    None => None,
                    Some((v, r2)) => Some((ValueView::Union(i as usize, Box::new(v)), r2)),
                }
            } else {
                None
            },
        },
        SchemaView::Record(_, f) => match dec_fields(f, b, f.len() as int) {
            None => None,
            Some((fv, r)) => Some((ValueView::Record(fv), r)),
        },
    }
}

/// `n` items more.
pub open spec fn dec_items(s: SchemaView, n: nat, b: Seq<u8>, acc: Seq<ValueView>) -> Option<
    (Seq<ValueView>, Seq<u8>),
>
    decreases s, 1int, n,
{
    if n == 0 {
        Some((acc, b))
    } else {
        match dec_value(s, b) {
            None => None,
            Some((v, r)) => dec_items(s, (n - 1) as nat, r, acc.push(v)),
        }
    }
}

/// The blocks of an array, to its end. What follows a block is shorter.
pub open spec fn dec_blocks(s: SchemaView, b: Seq<u8>, acc: Seq<ValueView>) -> Option<
    (Seq<ValueView>, Seq<u8>),
>
    decreases s, 2int, b.len(),
{
    match rd_count(b) {
        None => None,
        Some((n, r)) => if n == 0 {
            Some((acc, r))
        } else {
            match dec_items(s, n, r, acc) {
                None => None,
                Some((a, r2)) => if r2.len() < b.len() {
                    dec_blocks(s, r2, a)
                } else {
                    None
                },
            }
        },
    }
}

/// `n` entries more of a map.
pub open spec fn dec_pairs(
    s: SchemaView,
    n: nat,
    b: Seq<u8>,
    acc: Seq<(Seq<char>, ValueView)>,
) -> Option<(Seq<(Seq<char>, ValueView)>, Seq<u8>)>
    decreases s, 1int, n,
{
    if n == 0 {
        Some((acc, b))
    } else {
        match rd_run(b) {
            None => None,
            Some((k, r)) => if !valid_utf8(k) {
                None
            } else {
                match dec_value(s, r) {
                    None => None,
                    Some((v, r2)) => dec_pairs(
                        s,
                        (n - 1) as nat,
                        r2,
                        acc.push((decode_utf8(k), v)),
                    ),
                }
            },
        }
    }
}

/// The blocks of a map, to its end.
pub open spec fn dec_entries(s: SchemaView, b: Seq<u8>, acc: Seq<(Seq<char>, ValueView)>) -> Option<
    (Seq<(Seq<char>, ValueView)>, Seq<u8>),
>
    decreases s, 2int, b.len(),
{
    match rd_count(b) {
        None => None,
        Some((n, r)) => if n == 0 {
            Some((acc, r))
        } else {
            match dec_pairs(s, n, r, acc) {
                None => None,
                Some((a, r2)) => if r2.len() < b.len() {
                    dec_entries(s, r2, a)
                } else {
                    None
                },
            }
        },
    }
}

/// The first `k` fields of a record.
pub open spec fn dec_fields(f: Seq<(Seq<char>, SchemaView)>, b: Seq<u8>, k: int) -> Option<
    (Seq<(Seq<char>, ValueView)>, Seq<u8>),
>
    decreases f, 1int, k,
{
    if k <= 0 || k > f.len() {
        Some((Seq::empty(), b))
    } else {
        match dec_fields(f, b, k - 1) {
            None => None,
            Some((fv, r)) => match dec_value(f[k - 1].1, r) {
                None => None,
                Some((v, r2)) => Some((fv.push((f[k - 1].0, v)), r2)),
            },
        }
    }
}

/// What is read past the end: a value that takes no bytes, if it is one.
pub open spec fn dec_past(s: SchemaView) -> Option<ValueView>
    decreases s, 0int,
{
    match s {
        SchemaView::Null => Some(ValueView::Null),
        SchemaView::Record(_, f) => match dec_past_fields(f, f.len() as int) {
            None => None,
            Some(fv) => Some(ValueView::Record(fv)),
        },
        _ => None,
    }
}

/// The first `k` fields of a record that is read past the end.
pub open spec fn dec_past_fields(f: Seq<(Seq<char>, SchemaView)>, k: int) -> Option<
    Seq<(Seq<char>, ValueView)>,
>
    decreases f, k,
{
    if k <= 0 || k > f.len() {
        Some(Seq::empty())
    } else {
        match dec_past_fields(f, k - 1) {
            None => None,
            Some(fv) => match dec_past(f[k - 1].1) {
                None => None,
                Some(v) => Some(fv.push((f[k - 1].0, v))),
            },
        }
    }
}

proof fn past_fields_fail(f: Seq<(Seq<char>, SchemaView)>, k: int)
    requires
        0 <= k <= f.len(),
        dec_past_fields(f, k) is None,
    ensures
        dec_past_fields(f, f.len() as int) is None,
    decreases f.len() - k,
{
    if k < f.len() {
        past_fields_fail(f, k + 1);
    }
}

fn decode_past(s: &Schema) -> (r: Option<Value>)
    ensures
        match (r, dec_past(s.model())) {
            (Some(v), Some(m)) => v.model() == m,
            (None, None) => true,
            _ => false,
        },
    decreases s,
{
    match s {
        Schema::Null => Some(Value::Null),
        Schema::Record { name, fields } => {
            let ghost m = fields_model(fields@);
            proof {
                record_model(*name, *fields);
            }
            let mut out: Vec<(String, Value)> = Vec::new();
            let mut k: usize = 0;
            assert(named_model(out@) =~= Seq::empty());
            while k < fields.len()
                invariant
                    k <= fields@.len(),
                    m == fields_model(fields@),
                    *s == (Schema::Record { name: *name, fields: *fields }),
                    s.model() == SchemaView::Record(name@, m),
                    dec_past_fields(m, k as int) == Some(named_model(out@)),
                decreases fields@.len() - k,
            {
                assert(decreases_to!(s => s->fields@[k as int].1));
                let v: Value = match decode_past(&fields[k].1) {
                    Some(v) => v,
                    None => {
                        proof {
                            past_fields_fail(m, k + 1);
                        }
                        return None;
                    },
                };
                let ghost before = out@;
                out.push((fields[k].0.clone(), v));
                assert(named_model(out@) =~= named_model(before).push((m[k as int].0, v.model())));
                k += 1;
            }
            proof {
                dict_model(out);
            }
            Some(Value::Record(out))
        },
        _ => None,
    }
}
/// Reads a value under a schema and moves behind it. Past the end the position
/// stays.
pub fn decode(s: &Schema, b: &[u8], p: &mut usize) -> (r: Option<Value>)
    ensures
        *old(p) <= b@.len() ==> *old(p) <= *final(p) <= b@.len() && match (
            r,
            dec_value(s.model(), b@.skip(*old(p) as int)),
        ) {
            (Some(v), Some((m, rest))) => v.model() == m && b@.skip(*final(p) as int) == rest,
            (None, None) => true,
            _ => false,
        },
        *old(p) > b@.len() ==> *final(p) == *old(p) && match (r, dec_past(s.model())) {
            (Some(v), Some(m)) => v.model() == m,
            (None, None) => true,
            _ => false,
        },
{
    if *p > b.len() {
        return decode_past(s);
    }
    read_value(s, b, p)
}

/// Reads a value at a position within the bytes.
pub(crate) fn read_value(s: &Schema, b: &[u8], p: &mut usize) -> (r: Option<Value>)
    requires
        *old(p) <= b@.len(),
    ensures
        *old(p) <= *final(p) <= b@.len(),
        match (r, dec_value(s.model(), b@.skip(*old(p) as int))) {
            (Some(v), Some((m, rest))) => v.model() == m && b@.skip(*final(p) as int) == rest,
            (None, None) => true,
            _ => false,
        },
    decreases s, 0int,
{
    let ghost here = b@.skip(*p as int);
    let n: usize = b.len();
    match s {
        Schema::Null => Some(Value::Null),
        Schema::Boolean => {
            if *p >= n {
                return None;
            }
            let v: bool = b[*p] != 0;
            *p = *p + 1;
            assert(here.skip(1) =~= b@.skip(*p as int));
            Some(Value::Boolean(v))
        },
        Schema::Int => match get_long(b, p) {
            Some(v) => Some(Value::Int(#[verifier::truncate] (v as i32))),
            None => None,
        },
        Schema::Long => match get_long(b, p) {
            Some(v) => Some(Value::Long(v)),
            None => None,
        },
        Schema::Float => {
            if n - *p < 4 {
                return None;
            }
            let v: u32 = u32_at(b, *p);
            assert(here.take(4) =~= b@.subrange(*p as int, *p + 4));
            *p = *p + 4;
            assert(here.skip(4) =~= b@.skip(*p as int));
            Some(Value::Float(v))
        },
        Schema::Double => {
            if n - *p < 8 {
                return None;
            }
            let v: u64 = u64_at(b, *p);
            assert(here.take(8) =~= b@.subrange(*p as int, *p + 8));
            *p = *p + 8;
            assert(here.skip(8) =~= b@.skip(*p as int));
            Some(Value::Double(v))
        },
        Schema::Bytes => match get_run(b, p) {
            Some(x) => Some(Value::Bytes(x)),
            None => None,
        },
        Schema::String => match get_run(b, p) {
            Some(x) => match string_from_utf8(x) {
                Some(t) => Some(Value::String(t)),
                None => None,
            },
            None => None,
        },
        Schema::Array(i) => decode_array(i, b, p),
        Schema::Dict(i) => decode_dict(i, b, p),
        Schema::Union(br) => {
            proof {
                union_model(*br);
            }
            let i: i64 = match get_long(b, p) {
                Some(i) => i,
                None => return None,
            };
            if i < 0 || i as u64 >= br.len() as u64 {
                return None;
            }
            assert(decreases_to!(s => s->Union_0@[i as int]));
            match read_value(&br[i as usize], b, p) {
                Some(v) => Some(Value::Union(i as usize, Box::new(v))),
                None => None,
            }
        },
        Schema::Record { name, fields } => {
            let ghost m = fields_model(fields@);
            proof {
                record_model(*name, *fields);
            }
            let mut out: Vec<(String, Value)> = Vec::new();
            let mut k: usize = 0;
            assert(named_model(out@) =~= Seq::empty());
            while k < fields.len()
                invariant
                    n == b@.len(),
                    k <= fields@.len(),
                    m == fields_model(fields@),
                    *s == (Schema::Record { name: *name, fields: *fields }),
                    s.model() == SchemaView::Record(name@, m),
                    *old(p) <= *p <= n,
                    here == b@.skip(*old(p) as int),
                    dec_fields(m, here, k as int) == Some(
                        (named_model(out@), b@.skip(*p as int)),
                    ),
                decreases fields@.len() - k,
            {
                assert(decreases_to!(s => s->fields@[k as int].1));
                let v: Value = match read_value(&fields[k].1, b, p) {
                    Some(v) => v,
                    None => {
                        proof {
                            dec_fields_fail(m, here, k + 1);
                        }
                        return None;
                    },
                };
                let ghost before = out@;
                out.push((fields[k].0.clone(), v));
                assert(named_model(out@) =~= named_model(before).push((m[k as int].0, v.model())));
                k += 1;
            }
            proof {
                dict_model(out);
            }
            Some(Value::Record(out))
        },
    }
}

proof fn dec_fields_fail(f: Seq<(Seq<char>, SchemaView)>, b: Seq<u8>, k: int)
    requires
        0 <= k <= f.len(),
        dec_fields(f, b, k) is None,
    ensures
        dec_fields(f, b, f.len() as int) is None,
    decreases f.len() - k,
{
    if k < f.len() {
        dec_fields_fail(f, b, k + 1);
    }
}

fn decode_array(i: &Schema, b: &[u8], p: &mut usize) -> (r: Option<Value>)
    requires
        *old(p) <= b@.len(),
    ensures
        *old(p) <= *final(p) <= b@.len(),
        match (r, dec_blocks(i.model(), b@.skip(*old(p) as int), Seq::empty())) {
            (Some(v), Some((m, rest))) => v.model() == ValueView::Array(m) && b@.skip(
                *final(p) as int,
            ) == rest,
            (None, None) => true,
            _ => false,
        },
    decreases i, 1int,
{
    let ghost whole = dec_blocks(i.model(), b@.skip(*p as int), Seq::empty());
    let mut out: Vec<Value> = Vec::new();
    assert(values_model(out@) =~= Seq::empty());
    loop
        invariant
            *old(p) <= *p <= b@.len(),
            whole == dec_blocks(i.model(), b@.skip(*old(p) as int), Seq::empty()),
            dec_blocks(i.model(), b@.skip(*p as int), values_model(out@)) == whole,
        decreases b@.len() - *p,
    {
        let ghost start = *p;
        let ghost acc = values_model(out@);
        let n: u64 = match get_count(b, p) {
            Some(n) => n,
            None => return None,
        };
        if n == 0 {
            proof {
                array_model(out);
            }
            return Some(Value::Array(out));
        }
        let ghost body = dec_items(i.model(), n as nat, b@.skip(*p as int), acc);
        let mut k: u64 = 0;
        while k < n
            invariant
                k <= n,
                *old(p) <= start < *p <= b@.len(),
                whole == dec_blocks(i.model(), b@.skip(*old(p) as int), Seq::empty()),
                body is None ==> whole is None,
                dec_items(i.model(), (n - k) as nat, b@.skip(*p as int), values_model(out@))
                    == body,
            decreases n - k,
        {
            let v: Value = match read_value(i, b, p) {
                Some(v) => v,
                None => return None,
            };
            let ghost before = out@;
            out.push(v);
            assert(values_model(out@) =~= values_model(before).push(v.model()));
            k += 1;
        }
    }
}

fn decode_dict(i: &Schema, b: &[u8], p: &mut usize) -> (r: Option<Value>)
    requires
        *old(p) <= b@.len(),
    ensures
        *old(p) <= *final(p) <= b@.len(),
        match (r, dec_entries(i.model(), b@.skip(*old(p) as int), Seq::empty())) {
            (Some(v), Some((m, rest))) => v.model() == ValueView::Dict(m) && b@.skip(
                *final(p) as int,
            ) == rest,
            (None, None) => true,
            _ => false,
        },
    decreases i, 1int,
{
    let ghost whole = dec_entries(i.model(), b@.skip(*p as int), Seq::empty());
    let mut out: Vec<(String, Value)> = Vec::new();
    assert(named_model(out@) =~= Seq::empty());
    loop
        invariant
            *old(p) <= *p <= b@.len(),
            whole == dec_entries(i.model(), b@.skip(*old(p) as int), Seq::empty()),
            dec_entries(i.model(), b@.skip(*p as int), named_model(out@)) == whole,
        decreases b@.len() - *p,
    {
        let ghost start = *p;
        let ghost acc = named_model(out@);
        let n: u64 = match get_count(b, p) {
            Some(n) => n,
            None => return None,
        };
        if n == 0 {
            proof {
                dict_model(out);
            }
            return Some(Value::Dict(out));
        }
        let ghost body = dec_pairs(i.model(), n as nat, b@.skip(*p as int), acc);
        let mut k: u64 = 0;
        while k < n
            invariant
                k <= n,
                *old(p) <= start < *p <= b@.len(),
                whole == dec_entries(i.model(), b@.skip(*old(p) as int), Seq::empty()),
                body is None ==> whole is None,
                dec_pairs(i.model(), (n - k) as nat, b@.skip(*p as int), named_model(out@)) == body,
            decreases n - k,
        {
            let run: Vec<u8> = match get_run(b, p) {
                Some(x) => x,
                None => return None,
            };
            let key: String = match string_from_utf8(run) {
                Some(t) => t,
                None => return None,
            };
            let v: Value = match read_value(i, b, p) {
                Some(v) => v,
                None => return None,
            };
            let ghost before = out@;
            out.push((key, v));
            assert(named_model(out@) =~= named_model(before).push((key@, v.model())));
            k += 1;
        }
    }
}

// ---------------------------------------------------------------------------
// What was encoded is decoded
// ---------------------------------------------------------------------------

/// Whether a value has the shape of a schema: a record its fields in order,
/// and nothing longer than a count can say.
pub open spec fn shaped(v: ValueView, s: SchemaView) -> bool
    decreases s,
{
    match (v, s) {
        (ValueView::Null, SchemaView::Null) => true,
        (ValueView::Boolean(_), SchemaView::Boolean) => true,
        (ValueView::Int(_), SchemaView::Int) => true,
        (ValueView::Long(_), SchemaView::Long) => true,
        (ValueView::Float(_), SchemaView::Float) => true,
        (ValueView::Double(_), SchemaView::Double) => true,
        (ValueView::Bytes(b), SchemaView::Bytes) => b.len() <= i64::MAX,
        (ValueView::String(t), SchemaView::String) => encode_utf8(t).len() <= i64::MAX,
        (ValueView::Record(fv), SchemaView::Record(_, f)) => f.len() == fv.len() && forall|k: int|
            #![trigger f[k]]
            #![trigger fv[k]]
            0 <= k < f.len() ==> f[k].0 == fv[k].0 && shaped(fv[k].1, f[k].1),
        (ValueView::Array(a), SchemaView::Array(i)) => a.len() <= i64::MAX && forall|k: int|
            #![trigger a[k]]
            0 <= k < a.len() ==> shaped(a[k], *i),
        (ValueView::Dict(m), SchemaView::Dict(i)) => m.len() <= i64::MAX && forall|k: int|
            #![trigger m[k]]
            0 <= k < m.len() ==> encode_utf8(m[k].0).len() <= i64::MAX && shaped(m[k].1, *i),
        (ValueView::Union(i, v), SchemaView::Union(b)) => i < b.len() <= i64::MAX && shaped(
            *v,
            b[i as int],
        ),
        _ => false,
    }
}

/// A value that has the shape of a schema fits it.
pub proof fn shaped_fits(v: ValueView, s: SchemaView)
    requires
        shaped(v, s),
    ensures
        fits(v, s),
    decreases s,
{
    match (v, s) {
        (ValueView::Record(fv), SchemaView::Record(_, f)) => {
            assert forall|k: int|
                #![trigger f[k]]
                #![trigger fv[k]]
                0 <= k < f.len() && k < fv.len() implies fits(fv[k].1, f[k].1) by {
                shaped_fits(fv[k].1, f[k].1);
            }
        },
        (ValueView::Array(a), SchemaView::Array(i)) => {
            assert forall|k: int| #![trigger a[k]] 0 <= k < a.len() implies fits(a[k], *i) by {
                shaped_fits(a[k], *i);
            }
        },
        (ValueView::Dict(m), SchemaView::Dict(i)) => {
            assert forall|k: int| #![trigger m[k]] 0 <= k < m.len() implies fits(m[k].1, *i) by {
                shaped_fits(m[k].1, *i);
            }
        },
        (ValueView::Union(i, w), SchemaView::Union(b)) => {
            shaped_fits(*w, b[i as int]);
        },
        _ => {},
    }
}

pub proof fn items_read(a: Seq<ValueView>, s: SchemaView, k: int, rest: Seq<u8>)
    requires
        0 <= k <= a.len(),
        forall|i: int| 0 <= i < a.len() ==> shaped(#[trigger] a[i], s),
    ensures
        dec_items(s, (a.len() - k) as nat, enc_items(a, s, k) + rest, a.take(k)) == Some((a, rest)),
    decreases s, 1int, a.len() - k,
{
    if k == a.len() {
        assert(a.take(k) =~= a);
        assert(enc_items(a, s, k) + rest =~= rest);
    } else {
        let t = enc_items(a, s, k + 1) + rest;
        value_read_back(a[k], s, t);
        assert(enc_items(a, s, k) + rest =~= enc(a[k], s) + t);
        assert(a.take(k).push(a[k]) =~= a.take(k + 1));
        items_read(a, s, k + 1, rest);
    }
}

proof fn entries_read(a: Seq<(Seq<char>, ValueView)>, s: SchemaView, k: int, rest: Seq<u8>)
    requires
        0 <= k <= a.len(),
        forall|i: int|
            #![trigger a[i]]
            0 <= i < a.len() ==> encode_utf8(a[i].0).len() <= i64::MAX && shaped(a[i].1, s),
    ensures
        dec_pairs(s, (a.len() - k) as nat, enc_entries(a, s, k) + rest, a.take(k)) == Some(
            (a, rest),
        ),
    decreases s, 1int, a.len() - k,
{
    if k == a.len() {
        assert(a.take(k) =~= a);
        assert(enc_entries(a, s, k) + rest =~= rest);
    } else {
        let t = enc_entries(a, s, k + 1) + rest;
        let key = encode_utf8(a[k].0);
        assert(encode_utf8(a[k].0).len() <= i64::MAX && shaped(a[k].1, s));
        value_read_back(a[k].1, s, t);
        let t0 = enc_entries(a, s, k + 1);
        let y0 = enc(a[k].1, s);
        let y = y0 + t;
        regroup(y0, t0, rest);
        regroup(wr_run(key), y0 + t0, rest);
        assert(enc_entries(a, s, k) + rest == wr_run(key) + y);
        run_read_back(key, y);
        vstd::utf8::encode_utf8_valid_utf8(a[k].0);
        vstd::utf8::encode_utf8_decode_utf8(a[k].0);
        assert(a.take(k).push((a[k].0, a[k].1)) =~= a.take(k + 1));
        entries_read(a, s, k + 1, rest);
    }
}

proof fn fields_read(
    fv: Seq<(Seq<char>, ValueView)>,
    f: Seq<(Seq<char>, SchemaView)>,
    k: int,
    rest: Seq<u8>,
)
    requires
        0 <= k <= f.len(),
        f.len() == fv.len(),
        forall|i: int|
            #![trigger f[i]]
            #![trigger fv[i]]
            0 <= i < f.len() ==> f[i].0 == fv[i].0 && shaped(fv[i].1, f[i].1),
    ensures
        dec_fields(f, enc_fields(fv, f, k) + rest, k) == Some((fv.take(k), rest)),
    decreases f, 1int, k,
{
    if k > 0 {
        assert(f[k - 1].0 == fv[k - 1].0 && shaped(fv[k - 1].1, f[k - 1].1));
        value_read_back(fv[k - 1].1, f[k - 1].1, rest);
        let y = enc(fv[k - 1].1, f[k - 1].1);
        fields_read(fv, f, k - 1, y + rest);
        let x = enc_fields(fv, f, k - 1);
        assert((x + y) + rest =~= x + (y + rest));
        assert(fv.take(k - 1).push((f[k - 1].0, fv[k - 1].1)) =~= fv.take(k));
    } else {
        assert(Seq::<u8>::empty() + rest =~= rest);
        assert(fv.take(0) =~= Seq::empty());
    }
}

/// A value that has the shape of a schema is decoded as it was encoded,
/// whatever follows it.
pub proof fn value_read_back(v: ValueView, s: SchemaView, rest: Seq<u8>)
    requires
        shaped(v, s),
    ensures
        dec_value(s, enc(v, s) + rest) == Some((v, rest)),
    decreases s, 0int, 0int,
{
    match (v, s) {
        (ValueView::Null, SchemaView::Null) => {
            assert(Seq::<u8>::empty() + rest =~= rest);
        },
        (ValueView::Boolean(b), SchemaView::Boolean) => {
            assert((enc(v, s) + rest).skip(1) =~= rest);
        },
        (ValueView::Int(n), SchemaView::Int) => {
            long_read_back(n as i64, rest);
        },
        (ValueView::Long(n), SchemaView::Long) => {
            long_read_back(n, rest);
        },
        (ValueView::Float(f), SchemaView::Float) => {
            le_read_back(f as nat, 4);
            assert((le(f as nat, 4) + rest).take(4) =~= le(f as nat, 4));
            assert((le(f as nat, 4) + rest).skip(4) =~= rest);
        },
        (ValueView::Double(f), SchemaView::Double) => {
            le_read_back(f as nat, 8);
            assert((le(f as nat, 8) + rest).take(8) =~= le(f as nat, 8));
            assert((le(f as nat, 8) + rest).skip(8) =~= rest);
        },
        (ValueView::Bytes(b), SchemaView::Bytes) => {
            run_read_back(b, rest);
        },
        (ValueView::String(t), SchemaView::String) => {
            run_read_back(encode_utf8(t), rest);
            vstd::utf8::encode_utf8_valid_utf8(t);
            vstd::utf8::encode_utf8_decode_utf8(t);
        },
        (ValueView::Record(fv), SchemaView::Record(_, f)) => {
            fields_read(fv, f, f.len() as int, rest);
            assert(fv.take(f.len() as int) =~= fv);
        },
        (ValueView::Array(a), SchemaView::Array(i)) => {
            array_read_back(a, *i, rest);
        },
        (ValueView::Dict(m), SchemaView::Dict(i)) => {
            dict_read_back(m, *i, rest);
        },
        (ValueView::Union(i, w), SchemaView::Union(b)) => {
            let x = enc(*w, b[i as int]);
            value_read_back(*w, b[i as int], rest);
            assert((wr_len(i as nat) + x) + rest =~= wr_len(i as nat) + (x + rest));
            len_read_back(i as nat, x + rest);
        },
        _ => {},
    }
}

proof fn array_read_back(a: Seq<ValueView>, i: SchemaView, rest: Seq<u8>)
    requires
        a.len() <= i64::MAX,
        forall|k: int| #![trigger a[k]] 0 <= k < a.len() ==> shaped(a[k], i),
    ensures
        dec_blocks(
            i,
            (if a.len() > 0 {
                wr_len(a.len())
            } else {
                Seq::empty()
            }) + enc_items(a, i, 0) + wr_long(0) + rest,
            Seq::empty(),
        ) == Some((a, rest)),
    decreases i, 2int, 0int,
{
    let body = enc_items(a, i, 0);
    let end = wr_long(0) + rest;
    long_read_back(0, rest);
    assert(dec_blocks(i, end, a) == Some((a, rest)));
    if a.len() == 0 {
        assert(Seq::<u8>::empty() + body + wr_long(0) + rest =~= end);
        assert(a =~= Seq::empty());
    } else {
        let b = wr_len(a.len()) + (body + end);
        assert(wr_len(a.len()) + body + wr_long(0) + rest =~= b);
        len_read_back(a.len(), body + end);
        items_read(a, i, 0, end);
        assert(a.take(0) =~= Seq::empty());
        long_shorter(b);
    }
}

proof fn dict_read_back(a: Seq<(Seq<char>, ValueView)>, i: SchemaView, rest: Seq<u8>)
    requires
        a.len() <= i64::MAX,
        forall|k: int|
            #![trigger a[k]]
            0 <= k < a.len() ==> encode_utf8(a[k].0).len() <= i64::MAX && shaped(a[k].1, i),
    ensures
        dec_entries(
            i,
            (if a.len() > 0 {
                wr_len(a.len())
            } else {
                Seq::empty()
            }) + enc_entries(a, i, 0) + wr_long(0) + rest,
            Seq::empty(),
        ) == Some((a, rest)),
    decreases i, 2int, 0int,
{
    let body = enc_entries(a, i, 0);
    let end = wr_long(0) + rest;
    long_read_back(0, rest);
    assert(dec_entries(i, end, a) == Some((a, rest)));
    if a.len() == 0 {
        assert(Seq::<u8>::empty() + body + wr_long(0) + rest =~= end);
        assert(a =~= Seq::empty());
    } else {
        let b = wr_len(a.len()) + (body + end);
        assert(wr_len(a.len()) + body + wr_long(0) + rest =~= b);
        len_read_back(a.len(), body + end);
        entries_read(a, i, 0, end);
        assert(a.take(0) =~= Seq::empty());
        long_shorter(b);
    }
}

} // verus!
