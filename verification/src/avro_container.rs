//! Avro container files: a header that carries the schema, and compressed
//! blocks of values.
use crate::avro::{
    dec_items, enc_items, encode, fits, get_count, get_long, get_run, items_read, len_read_back,
    long_read_back, long_shorter, put_len, put_long, put_run, rd_count, rd_long, rd_run, read_value, run_read_back, shaped,
    values_model, wr_len, wr_long, wr_run, Schema, SchemaView, Value, ValueView,
};
use crate::avro_file::{
    parse_schema, reads, schema_json, schema_of, schema_text_read_back, schema_to_json, spelled,
};
use crate::doc::{compact_json, json_compact, MAX_DEPTH};
use crate::iceberg::json::{parse, parsed, printed, rendered, Json};
use crate::text::str_eq;
use crate::wire::{copy_range, put_bytes, regroup, string_from_utf8};
use vstd::prelude::*;
use vstd::utf8::{decode_utf8, encode_utf8, valid_utf8};

verus! {

/// The raw deflate stream of some bytes at a level.
pub uninterp spec fn deflated(data: Seq<u8>, level: u8) -> Seq<u8>;

/// What a raw deflate stream holds, if it is one.
pub uninterp spec fn inflated(data: Seq<u8>) -> Option<Seq<u8>>;

/// `miniz_oxide::deflate::compress_to_vec`, and that
/// `miniz_oxide::inflate::decompress_to_vec` gives the bytes back.
#[verifier::external_body]
fn deflate(data: &[u8], level: u8) -> (r: Vec<u8>)
    requires
        level <= 10,
    ensures
        r@ == deflated(data@, level),
        inflated(r@) == Some(data@),
{
    miniz_oxide::deflate::compress_to_vec(data, level)
}

/// `miniz_oxide::inflate::decompress_to_vec`.
#[verifier::external_body]
fn inflate(data: &[u8]) -> (r: Option<Vec<u8>>)
    ensures
        match r {
            Some(v) => inflated(data@) == Some(v@),
            None => inflated(data@) is None,
        },
{
    miniz_oxide::inflate::decompress_to_vec(data).ok()
}

/// The level files are compressed at.
pub const LEVEL: u8 = 6;

pub open spec fn magic() -> Seq<u8> {
    seq![79u8, 98, 106, 1]
}

/// What parts the blocks of a file.
#[verifier::opaque]
pub open spec fn sync_bytes() -> Seq<u8> {
    seq![66u8, 76, 73, 84, 90, 65, 86, 82, 79, 95, 83, 89, 78, 67, 95, 95]
}

fn put_magic(out: &mut Vec<u8>)
    ensures
        final(out)@ == old(out)@ + magic(),
{
    out.push(79);
    out.push(98);
    out.push(106);
    out.push(1);
    assert(out@ =~= old(out)@ + magic());
}

fn put_sync(out: &mut Vec<u8>)
    ensures
        final(out)@ == old(out)@ + sync_bytes(),
{
    out.push(66);
    out.push(76);
    out.push(73);
    out.push(84);
    out.push(90);
    out.push(65);
    out.push(86);
    out.push(82);
    out.push(79);
    out.push(95);
    out.push(83);
    out.push(89);
    out.push(78);
    out.push(67);
    out.push(95);
    out.push(95);
    reveal(sync_bytes);
    assert(out@ =~= old(out)@ + sync_bytes());
}

/// The two entries of a header: the schema and the codec.
pub open spec fn wr_meta(text: Seq<char>) -> Seq<u8> {
    wr_run(encode_utf8("avro.schema"@)) + (wr_run(encode_utf8(text)) + (wr_run(
        encode_utf8("avro.codec"@),
    ) + wr_run(encode_utf8("deflate"@))))
}

pub open spec fn wr_header(text: Seq<char>) -> Seq<u8> {
    magic() + (wr_long(2) + (wr_meta(text) + (wr_long(0) + sync_bytes())))
}

/// A block of `n` values.
pub open spec fn wr_block(n: nat, comp: Seq<u8>) -> Seq<u8> {
    wr_len(n) + (wr_len(comp.len()) + (comp + sync_bytes()))
}

/// A file of one block.
pub open spec fn file_of(text: Seq<char>, n: nat, comp: Seq<u8>) -> Seq<u8> {
    wr_header(text) + wr_block(n, comp)
}

/// A file is longer than the schema's text and than the block in it.
pub proof fn file_is_longer(text: Seq<char>, n: nat, comp: Seq<u8>)
    ensures
        file_of(text, n, comp).len() >= encode_utf8(text).len(),
        file_of(text, n, comp).len() >= comp.len(),
{
}

/// The bytes of some values, one after another.
pub fn encode_rows(schema: &Schema, rows: &Vec<Value>) -> (out: Vec<u8>)
    requires
        forall|i: int| 0 <= i < rows@.len() ==> fits((#[trigger] rows@[i]).model(), schema.model()),
    ensures
        out@ == enc_items(values_model(rows@), schema.model(), 0),
{
    let ghost m = values_model(rows@);
    let ghost s = schema.model();
    let mut out: Vec<u8> = Vec::new();
    let mut k: usize = 0;
    assert(out@ + enc_items(m, s, 0) =~= enc_items(m, s, 0));
    while k < rows.len()
        invariant
            k <= rows@.len(),
            m == values_model(rows@),
            s == schema.model(),
            forall|i: int|
                0 <= i < rows@.len() ==> fits((#[trigger] rows@[i]).model(), schema.model()),
            out@ + enc_items(m, s, k as int) == enc_items(m, s, 0),
        decreases rows@.len() - k,
    {
        let ghost o = out@;
        assert(fits(rows@[k as int].model(), s));
        encode(&rows[k], schema, &mut out);
        proof {
            regroup(o, crate::avro::enc(m[k as int], s), enc_items(m, s, k + 1));
        }
        k += 1;
    }
    assert(out@ =~= enc_items(m, s, 0));
    out
}

/// The bytes of a file of one block.
pub fn container_bytes(text: &str, n: usize, comp: &[u8]) -> (out: Vec<u8>)
    ensures
        out@ == file_of(text@, n as nat, comp@),
{
    let mut out: Vec<u8> = Vec::new();
    put_magic(&mut out);
    put_long(&mut out, 2);
    let ghost o1 = out@;
    put_run(&mut out, "avro.schema".as_bytes());
    put_run(&mut out, text.as_bytes());
    put_run(&mut out, "avro.codec".as_bytes());
    put_run(&mut out, "deflate".as_bytes());
    assert(out@ =~= o1 + wr_meta(text@));
    put_long(&mut out, 0);
    put_sync(&mut out);
    assert(out@ =~= wr_header(text@));
    put_len(&mut out, n);
    put_len(&mut out, comp.len());
    put_bytes(&mut out, comp);
    put_sync(&mut out);
    assert(out@ =~= file_of(text@, n as nat, comp@));
    out
}

/// Whether some values can be read back from a file: the schema from its text,
/// each value under the schema, and no count too large to say.
pub open spec fn recoverable(s: SchemaView, rows: Seq<ValueView>) -> bool {
    &&& spelled(s, MAX_DEPTH as nat)
    &&& forall|i: int| 0 <= i < rows.len() ==> shaped(#[trigger] rows[i], s)
    &&& rows.len() <= i64::MAX
    &&& encode_utf8(printed(schema_json(s), true)).len() <= i64::MAX
    &&& deflated(enc_items(rows, s, 0), LEVEL).len() <= i64::MAX
}

/// Writes values under a schema. What can be read back from a file is.
pub fn write_container(schema: &Schema, rows: &Vec<Value>) -> (r: Option<Vec<u8>>)
    requires
        forall|i: int| 0 <= i < rows@.len() ==> fits((#[trigger] rows@[i]).model(), schema.model()),
    ensures
        match (r, json_compact(rendered(schema_json(schema.model())))) {
            (Some(b), Some(t)) => b@ == file_of(
                t,
                rows@.len(),
                deflated(enc_items(values_model(rows@), schema.model(), 0), LEVEL),
            ),
            (None, None) => true,
            _ => false,
        },
        spelled(schema.model(), MAX_DEPTH as nat) ==> r is Some && json_compact(
            rendered(schema_json(schema.model())),
        ) == Some(printed(schema_json(schema.model()), true)),
        recoverable(schema.model(), values_model(rows@)) ==> (r matches Some(b) && rd_container(b@)
            == Ok::<(SchemaView, Seq<ValueView>), ReadError>(
            (schema.model(), values_model(rows@)),
        )),
{
    let j: Json = schema_to_json(schema);
    let plain: String = j.render();
    let text: String = match compact_json(plain.as_str()) {
        Some(t) => t,
        None => {
            proof {
                if spelled(schema.model(), MAX_DEPTH as nat) {
                    schema_text_read_back(schema.model());
                }
            }
            return None;
        },
    };
    let payload: Vec<u8> = encode_rows(schema, rows);
    let comp: Vec<u8> = deflate(payload.as_slice(), LEVEL);
    let out: Vec<u8> = container_bytes(text.as_str(), rows.len(), comp.as_slice());
    proof {
        let s = schema.model();
        let m = values_model(rows@);
        if spelled(s, MAX_DEPTH as nat) {
            schema_text_read_back(s);
        }
        if recoverable(s, m) {
            container_read(s, text@, m, comp@);
        }
    }
    Some(out)
}

/// Why a file cannot be read.
#[derive(Clone, Copy, Debug, PartialEq, Eq, Structural)]
pub enum ReadError {
    /// It is no container file, or not a sound one.
    Malformed,
    /// A block does not decompress.
    Inflate,
}

/// What a header says: the schema's text and the codec.
#[verifier::ext_equal]
pub struct HeaderView {
    pub schema: Seq<char>,
    pub codec: Seq<char>,
}

pub open spec fn no_header() -> HeaderView {
    HeaderView { schema: Seq::empty(), codec: "null"@ }
}

/// `n` entries more of a header.
pub open spec fn rd_meta(n: nat, b: Seq<u8>, m: HeaderView) -> Option<(HeaderView, Seq<u8>)>
    decreases n,
{
    if n == 0 {
        Some((m, b))
    } else {
        match rd_run(b) {
            None => None,
            Some((k, r)) => if !valid_utf8(k) {
                None
            } else {
                match rd_run(r) {
                    None => None,
                    Some((v, r2)) => {
                        let n1 = (n - 1) as nat;
                        if decode_utf8(k) == "avro.schema"@ {
                            if valid_utf8(v) {
                                rd_meta(n1, r2, HeaderView { schema: decode_utf8(v), ..m })
                            } else {
                                None
                            }
                        } else if decode_utf8(k) == "avro.codec"@ {
                            if valid_utf8(v) {
                                rd_meta(n1, r2, HeaderView { codec: decode_utf8(v), ..m })
                            } else {
                                None
                            }
                        } else {
                            rd_meta(n1, r2, m)
                        }
                    },
                }
            },
        }
    }
}

/// The blocks of a header, to its end. What follows a block is shorter.
pub open spec fn rd_metas(b: Seq<u8>, m: HeaderView) -> Option<(HeaderView, Seq<u8>)>
    decreases b.len(),
{
    match rd_count(b) {
        None => None,
        Some((n, r)) => if n == 0 {
            Some((m, r))
        } else {
            match rd_meta(n, r, m) {
                None => None,
                Some((m2, r2)) => if r2.len() < b.len() {
                    rd_metas(r2, m2)
                } else {
                    None
                },
            }
        },
    }
}

/// The header of a file, and what follows it.
pub open spec fn rd_header(b: Seq<u8>) -> Option<(HeaderView, Seq<u8>)> {
    if b.len() < 4 || b.take(4) != magic() {
        None
    } else {
        rd_metas(b.skip(4), no_header())
    }
}

/// The schema of a JSON text.
pub open spec fn text_schema(text: Seq<char>) -> Option<SchemaView> {
    match json_compact(text) {
        None => None,
        Some(t) => compact_schema(t),
    }
}

/// The schema of a compact JSON text.
pub open spec fn compact_schema(t: Seq<char>) -> Option<SchemaView> {
    match parsed(t) {
        Err(_) => None,
        Ok(j) => schema_of(j),
    }
}

/// What a block holds under a codec.
pub open spec fn unpacked(codec: Seq<char>, block: Seq<u8>) -> Result<Seq<u8>, ReadError> {
    if codec == "null"@ {
        Ok(block)
    } else if codec == "deflate"@ {
        match inflated(block) {
            Some(raw) => Ok(raw),
            None => Err(ReadError::Inflate),
        }
    } else {
        Err(ReadError::Malformed)
    }
}

pub open spec fn at_least_zero(n: int) -> nat {
    if n < 0 {
        0
    } else {
        n as nat
    }
}

/// What follows `n` bytes, if anything does.
pub open spec fn behind(b: Seq<u8>, n: int) -> Seq<u8> {
    if n <= b.len() {
        b.skip(n)
    } else {
        Seq::empty()
    }
}

/// The blocks of a file, to its end.
pub open spec fn rd_blocks(
    s: SchemaView,
    codec: Seq<char>,
    b: Seq<u8>,
    acc: Seq<ValueView>,
) -> Result<Seq<ValueView>, ReadError>
    decreases b.len(),
{
    if b.len() == 0 {
        Ok(acc)
    } else {
        match rd_long(b) {
            None => Err(ReadError::Malformed),
            Some((count, r)) => match rd_long(r) {
                None => Err(ReadError::Malformed),
                Some((size, r2)) => if size < 0 || size > r2.len() || r2.len() >= b.len() {
                    Err(ReadError::Malformed)
                } else {
                    match unpacked(codec, r2.take(size as int)) {
                        Err(e) => Err(e),
                        Ok(raw) => match dec_items(s, at_least_zero(count as int), raw, acc) {
                            None => Err(ReadError::Malformed),
                            Some((all, _)) => rd_blocks(s, codec, behind(r2, size + 16), all),
                        },
                    }
                },
            },
        }
    }
}

/// What a file says: its schema and its values.
pub open spec fn rd_container(b: Seq<u8>) -> Result<(SchemaView, Seq<ValueView>), ReadError> {
    match rd_header(b) {
        None => Err(ReadError::Malformed),
        Some((m, r)) => match text_schema(m.schema) {
            None => Err(ReadError::Malformed),
            Some(s) => match rd_blocks(s, m.codec, behind(r, 16), Seq::empty()) {
                Err(e) => Err(e),
                Ok(v) => Ok((s, v)),
            },
        },
    }
}

/// The header of a file.
pub struct Header {
    pub schema: String,
    pub codec: String,
}

impl View for Header {
    type V = HeaderView;

    open spec fn view(&self) -> HeaderView {
        HeaderView { schema: self.schema@, codec: self.codec@ }
    }
}

fn same_start(a: &[u8], b: &Vec<u8>) -> (r: bool)
    requires
        b@.len() <= a@.len(),
    ensures
        r == (a@.take(b@.len() as int) == b@),
{
    let mut i: usize = 0;
    while i < b.len()
        invariant
            i <= b@.len() <= a@.len(),
            forall|k: int| 0 <= k < i ==> a@[k] == #[trigger] b@[k],
        decreases b@.len() - i,
    {
        if a[i] != b[i] {
            assert(a@.take(b@.len() as int)[i as int] != b@[i as int]);
            return false;
        }
        i += 1;
    }
    assert(a@.take(b@.len() as int) =~= b@);
    true
}

/// Reads the header of a file and moves behind it.
pub fn read_header(b: &[u8], p: &mut usize) -> (r: Option<Header>)
    requires
        *old(p) == 0,
    ensures
        *final(p) <= b@.len(),
        match (r, rd_header(b@)) {
            (Some(h), Some((v, rest))) => h@ == v && b@.skip(*final(p) as int) == rest,
            (None, None) => true,
            _ => false,
        },
{
    let mut head: Vec<u8> = Vec::new();
    put_magic(&mut head);
    assert(head@ =~= magic());
    if b.len() < 4 || !same_start(b, &head) {
        return None;
    }
    *p = 4;
    let ghost whole = rd_metas(b@.skip(4), no_header());
    let mut m: Header = Header { schema: String::new(), codec: "null".to_owned() };
    assert(m@ =~= no_header());
    loop
        invariant
            4 <= *p <= b@.len(),
            rd_header(b@) == whole,
            rd_metas(b@.skip(*p as int), m@) == whole,
        decreases b@.len() - *p,
    {
        let ghost start = *p;
        let ghost m0 = m@;
        let n: u64 = match get_count(b, p) {
            Some(n) => n,
            None => return None,
        };
        if n == 0 {
            return Some(m);
        }
        let ghost body = rd_meta(n as nat, b@.skip(*p as int), m0);
        let mut k: u64 = 0;
        while k < n
            invariant
                k <= n,
                4 <= start < *p <= b@.len(),
                rd_header(b@) == whole,
                body is None ==> whole is None,
                rd_meta((n - k) as nat, b@.skip(*p as int), m@) == body,
            decreases n - k,
        {
            let run: Vec<u8> = match get_run(b, p) {
                Some(x) => x,
                None => return None,
            };
            let key: String = match string_from_utf8(run) {
                Some(t) => t,
                None => return None,
            };
            let v: Vec<u8> = match get_run(b, p) {
                Some(x) => x,
                None => return None,
            };
            if str_eq(key.as_str(), "avro.schema") {
                match string_from_utf8(v) {
                    Some(t) => m.schema = t,
                    None => return None,
                }
            } else if str_eq(key.as_str(), "avro.codec") {
                match string_from_utf8(v) {
                    Some(t) => m.codec = t,
                    None => return None,
                }
            }
            k += 1;
        }
    }
}

/// Reads a schema from compact JSON text.
pub fn schema_of_compact(text: &str) -> (r: Option<Schema>)
    ensures
        reads(r, compact_schema(text@)),
{
    match parse(text) {
        Ok(j) => parse_schema(&j),
        Err(_) => None,
    }
}

/// Reads a schema from JSON text.
pub fn schema_of_text(text: &str) -> (r: Option<Schema>)
    ensures
        reads(r, text_schema(text@)),
{
    match compact_json(text) {
        Some(t) => schema_of_compact(t.as_str()),
        None => None,
    }
}

fn unpack(codec: &str, block: Vec<u8>) -> (r: Result<Vec<u8>, ReadError>)
    ensures
        match (r, unpacked(codec@, block@)) {
            (Ok(x), Ok(v)) => x@ == v,
            (Err(a), Err(b)) => a == b,
            _ => false,
        },
{
    if str_eq(codec, "null") {
        Ok(block)
    } else if str_eq(codec, "deflate") {
        match inflate(block.as_slice()) {
            Some(raw) => Ok(raw),
            None => Err(ReadError::Inflate),
        }
    } else {
        Err(ReadError::Malformed)
    }
}

/// Reads `n` values from the bytes of a block and appends them.
pub fn decode_rows(schema: &Schema, n: u64, raw: &[u8], out: &mut Vec<Value>) -> (r: bool)
    ensures
        match dec_items(schema.model(), n as nat, raw@, values_model(old(out)@)) {
            Some((all, _)) => r && values_model(final(out)@) == all,
            None => !r,
        },
{
    let ghost s = schema.model();
    let ghost want = dec_items(s, n as nat, raw@, values_model(out@));
    let mut p: usize = 0;
    let mut k: u64 = 0;
    assert(raw@.skip(0) =~= raw@);
    while k < n
        invariant
            k <= n,
            p <= raw@.len(),
            s == schema.model(),
            want == dec_items(s, n as nat, raw@, values_model(old(out)@)),
            dec_items(s, (n - k) as nat, raw@.skip(p as int), values_model(out@)) == want,
        decreases n - k,
    {
        match read_value(schema, raw, &mut p) {
            Some(v) => {
                let ghost before = out@;
                out.push(v);
                assert(values_model(out@) =~= values_model(before).push(v.model()));
            },
            None => return false,
        }
        k += 1;
    }
    true
}

fn read_blocks(schema: &Schema, codec: &str, b: &[u8], from: usize) -> (r: Result<
    Vec<Value>,
    ReadError,
>)
    requires
        from <= b@.len(),
    ensures
        match (r, rd_blocks(schema.model(), codec@, b@.skip(from as int), Seq::empty())) {
            (Ok(v), Ok(m)) => values_model(v@) == m,
            (Err(a), Err(b)) => a == b,
            _ => false,
        },
{
    let n: usize = b.len();
    let ghost s = schema.model();
    let ghost whole = rd_blocks(s, codec@, b@.skip(from as int), Seq::empty());
    let mut out: Vec<Value> = Vec::new();
    let mut q: usize = from;
    assert(values_model(out@) =~= Seq::empty());
    while q < n
        invariant
            n == b@.len(),
            q <= n,
            s == schema.model(),
            whole == rd_blocks(s, codec@, b@.skip(from as int), Seq::empty()),
            rd_blocks(s, codec@, b@.skip(q as int), values_model(out@)) == whole,
        decreases n - q,
    {
        proof {
            long_shorter(b@.skip(q as int));
        }
        let count: i64 = match get_long(b, &mut q) {
            Some(v) => v,
            None => return Err(ReadError::Malformed),
        };
        let size: i64 = match get_long(b, &mut q) {
            Some(v) => v,
            None => return Err(ReadError::Malformed),
        };
        let ghost r2 = b@.skip(q as int);
        let left: usize = n - q;
        if size < 0 || size as u64 > left as u64 {
            return Err(ReadError::Malformed);
        }
        let end: usize = q + size as usize;
        let block: Vec<u8> = copy_range(b, q, end);
        assert(r2.take(size as int) =~= block@);
        let raw: Vec<u8> = match unpack(codec, block) {
            Ok(raw) => raw,
            Err(e) => return Err(e),
        };
        let many: u64 = if count < 0 { 0 } else { count as u64 };
        if !decode_rows(schema, many, raw.as_slice(), &mut out) {
            return Err(ReadError::Malformed);
        }
        q = if n - end >= 16 { end + 16 } else { n };
        assert(b@.skip(q as int) =~= behind(r2, size + 16));
    }
    assert(b@.skip(q as int).len() == 0);
    Ok(out)
}

/// Reads a file: its schema and its values.
pub fn read_container(b: &[u8]) -> (r: Result<(Schema, Vec<Value>), ReadError>)
    ensures
        match (r, rd_container(b@)) {
            (Ok((s, v)), Ok((sm, vm))) => s.model() == sm && values_model(v@) == vm,
            (Err(x), Err(y)) => x == y,
            _ => false,
        },
{
    let mut p: usize = 0;
    let h: Header = match read_header(b, &mut p) {
        Some(h) => h,
        None => return Err(ReadError::Malformed),
    };
    let s: Schema = match schema_of_text(h.schema.as_str()) {
        Some(s) => s,
        None => return Err(ReadError::Malformed),
    };
    let n: usize = b.len();
    let from: usize = if n - p >= 16 { p + 16 } else { n };
    assert(b@.skip(from as int) =~= behind(b@.skip(p as int), 16));
    match read_blocks(&s, h.codec.as_str(), b, from) {
        Ok(v) => Ok((s, v)),
        Err(e) => Err(e),
    }
}

// ---------------------------------------------------------------------------
// What was written is read back
// ---------------------------------------------------------------------------

proof fn header_words()
    ensures
        encode_utf8("avro.schema"@).len() == 11,
        encode_utf8("avro.codec"@).len() == 10,
        encode_utf8("deflate"@).len() == 7,
        "avro.schema"@ != "avro.codec"@,
        "deflate"@ != "null"@,
{
    reveal_strlit("avro.schema");
    reveal_strlit("avro.codec");
    reveal_strlit("deflate");
    reveal_strlit("null");
    vstd::utf8::is_ascii_chars_encode_utf8("avro.schema"@);
    vstd::utf8::is_ascii_chars_encode_utf8("avro.codec"@);
    vstd::utf8::is_ascii_chars_encode_utf8("deflate"@);
    assert("avro.schema"@.len() != "avro.codec"@.len());
    assert("deflate"@.len() != "null"@.len());
}

/// One entry of a header is read.
proof fn entry_read(n: nat, key: Seq<char>, val: Seq<char>, rest: Seq<u8>, m: HeaderView)
    requires
        n > 0,
        encode_utf8(key).len() <= i64::MAX,
        encode_utf8(val).len() <= i64::MAX,
    ensures
        rd_meta(n, wr_run(encode_utf8(key)) + (wr_run(encode_utf8(val)) + rest), m) == rd_meta(
            (n - 1) as nat,
            rest,
            if key == "avro.schema"@ {
                HeaderView { schema: val, ..m }
            } else if key == "avro.codec"@ {
                HeaderView { codec: val, ..m }
            } else {
                m
            },
        ),
{
    let t = wr_run(encode_utf8(val)) + rest;
    run_read_back(encode_utf8(key), t);
    run_read_back(encode_utf8(val), rest);
    vstd::utf8::encode_utf8_valid_utf8(key);
    vstd::utf8::encode_utf8_decode_utf8(key);
    vstd::utf8::encode_utf8_valid_utf8(val);
    vstd::utf8::encode_utf8_decode_utf8(val);
}

proof fn metas_read(text: Seq<char>, rest: Seq<u8>)
    requires
        encode_utf8(text).len() <= i64::MAX,
    ensures
        rd_metas(wr_long(2) + (wr_meta(text) + (wr_long(0) + rest)), no_header()) == Some(
            (HeaderView { schema: text, codec: "deflate"@ }, rest),
        ),
{
    header_words();
    let one = HeaderView { schema: text, codec: "null"@ };
    let two = HeaderView { schema: text, codec: "deflate"@ };
    let r1 = wr_long(0) + rest;
    let a = wr_run(encode_utf8("avro.schema"@));
    let b = wr_run(encode_utf8(text));
    let c = wr_run(encode_utf8("avro.codec"@));
    let d = wr_run(encode_utf8("deflate"@));
    let t2 = c + (d + r1);
    let t0 = a + (b + t2);
    regroup(c, d, r1);
    regroup(b, c + d, r1);
    regroup(a, b + (c + d), r1);
    assert(wr_meta(text) + r1 == t0);
    entry_read(2, "avro.schema"@, text, t2, no_header());
    entry_read(1, "avro.codec"@, "deflate"@, r1, one);
    assert(rd_meta(0, r1, two) == Some((two, r1)));
    long_read_back(2, t0);
    long_read_back(0, rest);
    long_shorter(wr_long(2) + t0);
    assert(rd_metas(r1, two) == Some((two, rest)));
    assert(r1.len() <= t0.len());
}

proof fn header_split(text: Seq<char>, block: Seq<u8>)
    ensures
        (wr_header(text) + block).len() >= 4,
        (wr_header(text) + block).take(4) == magic(),
        (wr_header(text) + block).skip(4) == wr_long(2) + (wr_meta(text) + (wr_long(0) + (
        sync_bytes() + block))),
{
    let m = wr_meta(text);
    let tail = wr_long(2) + (m + (wr_long(0) + sync_bytes()));
    let b = wr_header(text) + block;
    assert(b.take(4) =~= magic());
    assert(b.skip(4) =~= tail + block);
    regroup(wr_long(2), m + (wr_long(0) + sync_bytes()), block);
    regroup(m, wr_long(0) + sync_bytes(), block);
    regroup(wr_long(0), sync_bytes(), block);
}

proof fn sync_split(block: Seq<u8>)
    ensures
        sync_bytes().len() == 16,
        behind(sync_bytes() + block, 16) == block,
{
    reveal(sync_bytes);
    assert((sync_bytes() + block).skip(16) =~= block);
}

proof fn block_read(s: SchemaView, rows: Seq<ValueView>, comp: Seq<u8>)
    requires
        forall|i: int| 0 <= i < rows.len() ==> shaped(#[trigger] rows[i], s),
        rows.len() <= i64::MAX,
        comp.len() <= i64::MAX,
        inflated(comp) == Some(enc_items(rows, s, 0)),
    ensures
        rd_blocks(s, "deflate"@, wr_block(rows.len(), comp), Seq::empty()) == Ok::<
            Seq<ValueView>,
            ReadError,
        >(rows),
{
    header_words();
    let block = wr_block(rows.len(), comp);
    sync_split(block);
    let e2 = comp + sync_bytes();
    let e1 = wr_len(comp.len()) + e2;
    len_read_back(rows.len(), e1);
    len_read_back(comp.len(), e2);
    long_shorter(block);
    long_shorter(e1);
    let raw = enc_items(rows, s, 0);
    items_read(rows, s, 0, Seq::empty());
    assert(raw + Seq::<u8>::empty() =~= raw);
    assert(rows.take(0) =~= Seq::empty());
    let n = comp.len() as int;
    assert(e2.take(n) =~= comp);
    assert(behind(e2, n + 16) =~= Seq::<u8>::empty());
    assert(rd_blocks(s, "deflate"@, Seq::empty(), rows) == Ok::<Seq<ValueView>, ReadError>(rows));
    assert(at_least_zero((rows.len() as i64) as int) == rows.len());
    assert(rd_long(block) == Some((rows.len() as i64, e1)));
    assert(rd_long(e1) == Some((n as i64, e2)));
}

proof fn container_read(s: SchemaView, text: Seq<char>, rows: Seq<ValueView>, comp: Seq<u8>)
    requires
        text_schema(text) == Some(s),
        forall|i: int| 0 <= i < rows.len() ==> shaped(#[trigger] rows[i], s),
        rows.len() <= i64::MAX,
        encode_utf8(text).len() <= i64::MAX,
        comp.len() <= i64::MAX,
        inflated(comp) == Some(enc_items(rows, s, 0)),
    ensures
        rd_container(file_of(text, rows.len(), comp)) == Ok::<
            (SchemaView, Seq<ValueView>),
            ReadError,
        >((s, rows)),
{
    let block = wr_block(rows.len(), comp);
    header_split(text, block);
    metas_read(text, sync_bytes() + block);
    sync_split(block);
    block_read(s, rows, comp);
}

} // verus!
