//! Iceberg tables: JSON, Avro, manifests, metadata and pruning.
use blitz::avro;
use blitz::avro_container::{
    container_bytes, decode_rows, encode_rows, read_container, read_header, schema_of_compact,
    schema_of_text, write_container, ReadError,
};
use blitz::avro_file::{parse_schema, schema_to_json};
use blitz::format::meta::{CmpOp, ColumnData, DataType, Literal};
use blitz::format::reader::Reader;
use blitz::iceberg::avro as plain_avro;
use blitz::iceberg::avro::{decode, encode, vr, Schema, Value};
use blitz::iceberg::container;
use blitz::iceberg::json::{obj, parse, Json};
use blitz::iceberg::manifest::{plan_files, write_manifest, write_manifest_list};
use blitz::iceberg::metadata::{
    commit_append, metadata_key, open_warehouse, read_compact, read_metadata, write_metadata,
    MetaError,
};
use blitz::iceberg::single::{to_double, to_single};
use blitz::iceberg::table::{
    de_long, file_prunes, metadata_path, ser_long, DataFile, Field, TableMeta,
};
use blitz::iceberg::warehouse::{append_epoch_sink, create_table, i64_bounds, write_data_file};
use blitz::store::Warehouse;
use std::collections::HashMap;

#[test]
fn json_reads_back() {
    let text = "{\"a\":[1,-2.5e3,true,null],\"b\":\"x\\n\\u00e9\"}";
    let j = parse(text).unwrap();
    assert_eq!(j.get("a").unwrap().arr().unwrap().len(), 4);
    assert_eq!(j.get("a").unwrap().arr().unwrap()[1].num(), Some("-2.5e3"));
    assert_eq!(j.get("a").unwrap().arr().unwrap()[2].b(), Some(true));
    assert_eq!(j.get("b").unwrap().s(), Some("x\n\u{e9}"));
    let again = parse(&j.render()).unwrap();
    assert_eq!(again.render(), j.render());
    assert!(j.get("c").is_none());
    assert_eq!(
        obj(vec![("k".to_string(), Json::Null)]).render(),
        "{\"k\":null}"
    );
}

#[test]
fn json_says_what_is_wrong() {
    assert!(parse("").is_err());
    assert!(parse("[1,").is_err());
    assert!(parse("{\"a\" 1}").is_err());
    assert!(parse("nul").is_err());
    assert!(parse("\"abc").is_err());
}

fn pair_schema() -> avro::Schema {
    avro::Schema::Record {
        name: "p".to_string(),
        fields: vec![
            ("n".to_string(), avro::Schema::Long),
            (
                "s".to_string(),
                avro::Schema::Union(vec![avro::Schema::Null, avro::Schema::String]),
            ),
            (
                "l".to_string(),
                avro::Schema::Array(Box::new(avro::Schema::Int)),
            ),
        ],
    }
}

fn pair_value(n: i64) -> avro::Value {
    avro::Value::Record(vec![
        ("n".to_string(), avro::Value::Long(n)),
        (
            "s".to_string(),
            avro::Value::Union(1, Box::new(avro::Value::String("x".to_string()))),
        ),
        (
            "l".to_string(),
            avro::Value::Array(vec![avro::Value::Int(-1), avro::Value::Int(300)]),
        ),
    ])
}

#[test]
fn avro_bytes_are_exact() {
    let mut out = Vec::new();
    avro::encode(&pair_value(-3), &pair_schema(), &mut out);
    assert_eq!(out, vec![5, 2, 2, b'x', 4, 1, 0xd8, 4, 0]);
    let mut p = 0;
    let v = avro::decode(&pair_schema(), &out, &mut p).unwrap();
    assert_eq!(p, out.len());
    assert_eq!(v.field("n").unwrap().as_long(), Some(-3));
    assert_eq!(v.field("s").unwrap().as_str(), Some("x"));
    assert!(v.field("zz").is_none());
    let mut q = 0;
    assert!(avro::decode(&pair_schema(), &out[..3], &mut q).is_none());
}

#[test]
fn avro_schemas_read_back() {
    let j = schema_to_json(&pair_schema());
    assert_eq!(
        j.render(),
        "{\"fields\":[{\"name\":\"n\",\"type\":\"long\"},{\"name\":\"s\",\"type\":[\"null\",\"string\"]},{\"name\":\"l\",\"type\":{\"items\":\"int\",\"type\":\"array\"}}],\"name\":\"p\",\"type\":\"record\"}"
    );
    let s = parse_schema(&j).unwrap();
    assert_eq!(schema_to_json(&s).render(), j.render());
    let spaced = schema_of_text(" { \"type\" : \"long\" } ").unwrap();
    assert!(matches!(spaced, avro::Schema::Long));
    assert!(schema_of_text("{").is_none());
    assert!(schema_of_compact("\"nope\"").is_none());
}

#[test]
fn avro_containers_read_back() {
    let rows = vec![pair_value(1), pair_value(2), pair_value(3)];
    let file = write_container(&pair_schema(), &rows).unwrap();
    assert_eq!(&file[..4], b"Obj\x01");
    let (schema, back) = read_container(&file).unwrap();
    assert!(matches!(schema, avro::Schema::Record { .. }));
    assert_eq!(back.len(), 3);
    assert_eq!(back[2].field("n").unwrap().as_long(), Some(3));
    let raw = encode_rows(&pair_schema(), &rows);
    let mut out = Vec::new();
    assert!(decode_rows(&pair_schema(), 3, &raw, &mut out));
    assert_eq!(out.len(), 3);
    let packed = miniz_oxide::deflate::compress_to_vec(&raw, 6);
    assert_ne!(packed, raw);
    let text = schema_to_json(&pair_schema()).render();
    assert_eq!(container_bytes(&text, 3, &packed), file);
    let mut p = 0;
    let h = read_header(&file, &mut p).unwrap();
    assert_eq!(h.codec, "deflate");
    assert_eq!(h.schema, text);
}

#[test]
fn damaged_containers_are_refused() {
    let file = write_container(&pair_schema(), &vec![pair_value(1)]).unwrap();
    assert_eq!(read_container(b"nope").unwrap_err(), ReadError::Malformed);
    let text = schema_to_json(&pair_schema()).render();
    let junk = container_bytes(&text, 1, &[0xff, 0xff, 0xff]);
    assert_eq!(read_container(&junk).unwrap_err(), ReadError::Inflate);
    assert!(read_container(&file[..file.len() - 20]).is_err());
}

#[test]
fn plain_avro_containers_read_back() {
    let schema = "{\"type\":\"record\",\"name\":\"r\",\"fields\":[{\"name\":\"a\",\"type\":\"long\"}]}";
    let rows = vec![plain_avro::Value::Record(vec![(
        "a".to_string(),
        plain_avro::Value::Long(41),
    )])];
    let file = container::write_container(schema, &rows).unwrap();
    let (_, back) = container::read_container(&file).unwrap();
    assert_eq!(back[0].field("a").unwrap().long(), Some(41));
    assert!(container::read_container(b"x").is_err());
    assert!(container::write_container("{", &rows).is_err());
    assert_eq!(plain_avro::zz_dec(plain_avro::zz_enc(-5)), -5);
    let mut v = Vec::new();
    plain_avro::vw(&mut v, 300);
    assert_eq!(v, vec![0xac, 2]);
    let mut p = 0;
    assert_eq!(plain_avro::vr(&v, &mut p), Ok(300));
}

#[test]
fn a_failed_read_stands_behind_what_was_read() {
    let short = [0x80u8, 0x80];
    let mut p = 0;
    assert_eq!(vr(&short, &mut p), Err("varint eof".to_string()));
    assert_eq!(p, 2);
    let long = [0xffu8; 12];
    let mut p = 1;
    assert_eq!(vr(&long, &mut p), Err("varint too long".to_string()));
    assert_eq!(p, 11);
    let mut p = 13;
    assert_eq!(vr(&long, &mut p), Err("varint eof".to_string()));
    assert_eq!(p, 13);

    // A run that is cut off, or not text: behind its length.
    let mut p = 0;
    assert_eq!(decode(&Schema::Bytes, &[8, 1, 2], &mut p).unwrap_err(), "eof");
    assert_eq!(p, 1);
    let mut p = 0;
    assert_eq!(decode(&Schema::String, &[4, 0xff, 0xff, 7], &mut p).unwrap_err(), "bad utf8");
    assert_eq!(p, 1);
    let dict = Schema::Dict(Box::new(Schema::Long));
    let mut p = 0;
    assert_eq!(decode(&dict, &[2, 2, 0xff, 6, 0], &mut p).unwrap_err(), "k");
    assert_eq!(p, 2);
    let union = Schema::Union(vec![Schema::Null]);
    let mut p = 0;
    assert_eq!(decode(&union, &[6, 9], &mut p).unwrap_err(), "bad union index");
    assert_eq!(p, 1);
    let pair = Schema::Record {
        name: "r".to_string(),
        fields: vec![("a".to_string(), Schema::Long), ("b".to_string(), Schema::Boolean)],
    };
    let mut p = 0;
    assert_eq!(decode(&pair, &[2], &mut p).unwrap_err(), "eof");
    assert_eq!(p, 1);

    // Past the end only what takes no bytes is there.
    let mut p = 5;
    assert!(matches!(decode(&Schema::Null, &[], &mut p), Ok(Value::Null)));
    assert_eq!(decode(&Schema::Fixed(0), &[], &mut p).unwrap_err(), "eof");
    assert_eq!(decode(&Schema::Long, &[], &mut p).unwrap_err(), "varint eof");
    assert_eq!(decode(&union, &[], &mut p).unwrap_err(), "varint eof");
    assert_eq!(decode(&pair, &[], &mut p).unwrap_err(), "varint eof");
    assert_eq!(p, 5);
    assert!(avro::decode(&avro::Schema::Long, &[], &mut p).is_none());
    assert!(matches!(
        avro::decode(&avro::Schema::Null, &[], &mut p),
        Some(avro::Value::Null)
    ));
    assert_eq!(p, 5);
}

#[test]
fn a_failed_write_leaves_what_was_written() {
    let items = Schema::Array(Box::new(Schema::Long));
    let bad = Value::Arr(vec![Value::Long(1), Value::Bool(true)]);
    let mut out = vec![9u8];
    assert_eq!(encode(&items, &bad, &mut out).unwrap_err(), "encode mismatch Long");
    assert_eq!(out, vec![9, 4, 2]);
    let dict = Schema::Dict(Box::new(Schema::Long));
    let bad = Value::Dict(vec![("k".to_string(), Value::Null)]);
    let mut out = vec![9u8];
    assert!(encode(&dict, &bad, &mut out).is_err());
    assert_eq!(out, vec![9, 2, 2, 107]);
    let union = Schema::Union(vec![Schema::Null, Schema::Fixed(2)]);
    let mut out = vec![9u8];
    assert!(encode(&union, &Value::Bytes(vec![1]), &mut out).is_err());
    assert_eq!(out, vec![9, 2]);
    let mut out = vec![9u8];
    assert!(encode(&union, &Value::Long(1), &mut out).is_err());
    assert_eq!(out, vec![9]);
}

#[test]
fn a_failed_schema_keeps_the_names_before_it() {
    let text = "[{\"type\":\"record\",\"name\":\"a\",\"fields\":[]},\"b\"]";
    let mut reg = Vec::new();
    let r = container::schema_from_json(&parse(text).unwrap(), &mut reg);
    assert_eq!(r.unwrap_err(), "unknown named type b");
    assert_eq!(reg.len(), 1);
    assert_eq!(reg[0].0, "a");
}

fn fixed(size: &str) -> Result<usize, String> {
    let text = format!("{{\"type\":\"fixed\",\"size\":{size}}}");
    match container::schema_from_json(&parse(&text).unwrap(), &mut Vec::new())? {
        plain_avro::Schema::Fixed(n) => Ok(n),
        _ => panic!("a fixed type"),
    }
}

#[test]
fn sizes_are_integer_parts() {
    assert_eq!(fixed("16"), Ok(16));
    assert_eq!(fixed("16.0"), Ok(16));
    assert_eq!(fixed("1.6e1"), Ok(16));
    assert_eq!(fixed("16.9"), Ok(16));
    assert_eq!(fixed("160000e-4"), Ok(16));
    assert_eq!(fixed("0.999"), Ok(0));
    assert_eq!(fixed("15.99999999999999999999"), Ok(16));
    assert_eq!(fixed("9007199254740993"), Ok(9007199254740992));
    assert_eq!(fixed("1e300"), Ok(i64::MAX as usize));
    assert_eq!(fixed("-1"), Ok(usize::MAX));
    assert_eq!(fixed("\"16\""), Err("fixed w/o size".to_string()));
}

#[test]
fn integer_parts_are_those_of_doubles() {
    let spelled = [
        "0", "-0", "0.0", "1", "-1", "7.5", "-7.5", "0.99999999999999994", "0.99999999999999995",
        "0.999999999999999944488848768742172978818416595458984375",
        "0.99999999999999994448884876874217297881841659545898437499",
        "1.9999999999999998", "1.9999999999999999", "1.999999999999999888", "1.99999999999999989",
        "4503599627370495.75", "4503599627370495.7499999", "4503599627370495.5",
        "4503599627370496.5", "4503599627370497.5", "4503599627370497.50001",
        "4503599627370496.49999", "9007199254740991.5", "9007199254740991.4",
        "9007199254740992", "9007199254740993", "9007199254740993.0000000001",
        "9007199254740994", "9007199254740995", "-9007199254740995.9",
        "18014398509481990", "18014398509481986", "18014398509481986.5",
        "9223372036854775807", "9223372036854775808", "9223372036854774784",
        "9223372036854775295", "9223372036854775296", "-9223372036854775808",
        "-9223372036854775809", "99999999999999999999", "1e18", "1e19", "123e17", "1e400",
        "-1e400", "1e-400", "12345678901234567890e-5", "0.0000001e7", "0.00000012345e12",
        "1e99999999999999999999999", "1e-99999999999999999999999", "0e99999999999999999999999",
        "5e-1", "9999999999999999e-16", "99999999999999999e-17", "+3.7", "3.", ".7",
    ];
    for t in spelled {
        let want = t.parse::<f64>().unwrap() as i64;
        assert_eq!(Json::Num(t.to_string()).i(), Some(want), "{t}");
    }
    assert_eq!(Json::Null.i(), None);
    assert_eq!(Json::Num("x".to_string()).i(), None);
}

#[test]
fn singles_are_rounded_doubles() {
    let mut doubles: Vec<u64> = vec![
        0, 1, 1 << 63, 0x7ff0_0000_0000_0000, 0xfff0_0000_0000_0000, 0x000f_ffff_ffff_ffff,
        0x0010_0000_0000_0000, 0x7fef_ffff_ffff_ffff, 0x47ef_ffff_e000_0000,
        0x47ef_ffff_efff_ffff, 0x47ef_ffff_f000_0000, 0x3690_0000_0000_0000,
        0x3690_0000_0000_0001, 0x368f_ffff_ffff_ffff, 0x36a0_0000_0000_0000,
        0x3810_0000_0000_0000, 0x380f_ffff_ffff_ffff, 0x380f_ffff_e000_0000,
        0x3ff0_0000_1000_0000, 0x3ff0_0000_1000_0001, 0x3ff0_0000_3000_0000,
        0x3ff0_0000_0fff_ffff, 0x3fff_ffff_f000_0000,
    ];
    let mut x: u64 = 0x9e37_79b9_7f4a_7c15;
    for _ in 0..20_000 {
        x ^= x << 13;
        x ^= x >> 7;
        x ^= x << 17;
        doubles.push(x);
        // Around the exponents that a single has.
        doubles.push((x & 0x800f_ffff_ffff_ffff) | ((860 + (x >> 52) % 310) << 52));
    }
    for d in doubles {
        if !f64::from_bits(d).is_nan() {
            assert_eq!(to_single(d), (f64::from_bits(d) as f32).to_bits(), "{d:x}");
        } else {
            assert!(f32::from_bits(to_single(d)).is_nan());
        }
        let s = (d >> 17) as u32;
        for s in [s, s & 0x807f_ffff, d as u32] {
            if !f32::from_bits(s).is_nan() {
                assert_eq!(to_double(s), (f32::from_bits(s) as f64).to_bits(), "{s:x}");
                assert_eq!(to_single(to_double(s)), s);
            } else {
                assert!(f64::from_bits(to_double(s)).is_nan());
            }
        }
    }
}

#[test]
fn a_double_fits_a_float_field() {
    let mut out = Vec::new();
    encode(&Schema::Float, &Value::Double(0.1f64.to_bits()), &mut out).unwrap();
    assert_eq!(out, 0.1f32.to_le_bytes().to_vec());
    let mut p = 0;
    match decode(&Schema::Float, &out, &mut p) {
        Ok(Value::Double(d)) => assert_eq!(f64::from_bits(d), 0.1f32 as f64),
        _ => panic!("a double"),
    }
    let union = Schema::Union(vec![Schema::Null, Schema::Float]);
    let mut out = Vec::new();
    encode(&union, &Value::Double(1.5f64.to_bits()), &mut out).unwrap();
    assert_eq!(out, [vec![2u8], 1.5f32.to_le_bytes().to_vec()].concat());
}

fn table() -> TableMeta {
    TableMeta {
        uuid: "u-1".to_string(),
        location: "/w/t".to_string(),
        fields: vec![
            Field { id: 1, name: "id".to_string(), dtype: DataType::Int64 },
            Field { id: 2, name: "na\"me".to_string(), dtype: DataType::Utf8 },
        ],
        current_snapshot: None,
        snapshots: vec![],
        last_sequence_number: 0,
    }
}

#[test]
fn metadata_reads_back() {
    let mut t = table();
    let (path, text) = write_metadata(&t, 1);
    assert_eq!(path, "/w/t/metadata/v1.metadata.json");
    assert!(text.starts_with("{\n  \"current-schema-id\": 0,\n  \"current-snapshot-id\": null,"));
    let back = read_metadata(&text).unwrap();
    assert_eq!(back.current_snapshot, None);
    let (path, text) = commit_append(&mut t, 77, "/w/t/list.avro", 2);
    assert_eq!(path, "/w/t/metadata/v2.metadata.json");
    let back = read_metadata(&text).unwrap();
    assert_eq!(back.uuid, "u-1");
    assert_eq!(back.location, "/w/t");
    assert_eq!(back.fields.len(), 2);
    assert_eq!(back.fields[1].name, "na\"me");
    assert_eq!(back.fields[1].dtype, DataType::Utf8);
    assert_eq!(back.current_snapshot, Some(77));
    assert_eq!(back.snapshots, vec![(77, "/w/t/list.avro".to_string())]);
    assert_eq!(back.last_sequence_number, 1);
    assert_eq!(metadata_path("/w/t", 3), "/w/t/metadata/v3.metadata.json");
    assert_eq!(metadata_key(3), "metadata/v3.metadata.json");
}

#[test]
fn metadata_that_is_no_table() {
    assert_eq!(read_metadata("{").unwrap_err(), MetaError::Json);
    assert_eq!(
        read_metadata("{\"format-version\":1}").unwrap_err(),
        MetaError::Unsupported
    );
    let odd = "{\"format-version\":2,\"location\":\"x\",\"current-schema-id\":0,\"schemas\":[{\"schema-id\":0,\"fields\":[{\"id\":1,\"name\":\"a\",\"type\":\"double\"}]}]}";
    assert_eq!(read_compact(odd).unwrap_err(), MetaError::Unsupported);
    let good = odd.replace("double", "long");
    let t = read_compact(&good).unwrap();
    assert_eq!(t.uuid, "");
    assert_eq!(t.snapshots.len(), 0);
    assert_eq!(t.last_sequence_number, 0);
}

fn data_file(path: &str, lo: i64, hi: i64) -> DataFile {
    DataFile {
        path: path.to_string(),
        file_size: 10,
        record_count: 5,
        bounds: vec![(1, ser_long(lo), ser_long(hi))],
    }
}

#[test]
fn written_files_are_planned() {
    let mut t = table();
    assert!(plan_files(&t).unwrap().wanted().is_none());
    let m1 = write_manifest(9, &vec![data_file("f1", 0, 4), data_file("f2", 5, 9)]);
    let m2 = write_manifest(9, &vec![data_file("f3", -3, -1)]);
    let list = write_manifest_list(
        9,
        1,
        &vec![
            ("m1".to_string(), m1.len() as i64, 10),
            ("m2".to_string(), m2.len() as i64, 5),
        ],
    );
    commit_append(&mut t, 9, "list", 2);
    let disk: HashMap<&str, Vec<u8>> = HashMap::from([("m1", m1), ("m2", m2), ("list", list)]);
    let mut w = plan_files(&t).unwrap();
    while let Some(p) = w.wanted().map(|p| p.to_string()) {
        w.feed(&disk[p.as_str()]).unwrap();
    }
    let paths: Vec<&str> = w.files.iter().map(|f| f.path.as_str()).collect();
    assert_eq!(paths, vec!["f1", "f2", "f3"]);
    assert_eq!(w.files[1].record_count, 5);
    assert_eq!(w.files[1].bounds, vec![(1, ser_long(5), ser_long(9))]);
    t.current_snapshot = Some(8);
    assert!(plan_files(&t).is_none());
}

#[test]
fn walks_refuse_what_is_no_manifest() {
    let mut t = table();
    commit_append(&mut t, 9, "list", 2);
    let mut w = plan_files(&t).unwrap();
    assert_eq!(w.feed(b"junk"), Err(ReadError::Malformed));
}

#[test]
fn bounds_prune_files() {
    let f = data_file("f", 10, 20);
    let int = DataType::Int64;
    let lit = |n: i64| Literal::Int(n);
    assert!(file_prunes(&f, 1, int, CmpOp::Gt, &lit(20)));
    assert!(!file_prunes(&f, 1, int, CmpOp::Ge, &lit(20)));
    assert!(file_prunes(&f, 1, int, CmpOp::Lt, &lit(10)));
    assert!(file_prunes(&f, 1, int, CmpOp::Eq, &lit(21)));
    assert!(!file_prunes(&f, 1, int, CmpOp::Eq, &lit(15)));
    assert!(!file_prunes(&f, 2, int, CmpOp::Eq, &lit(99)));
    let s = DataFile {
        path: "s".to_string(),
        file_size: 1,
        record_count: 1,
        bounds: vec![(3, b"bee".to_vec(), b"cat".to_vec())],
    };
    let text = |t: &str| Literal::Str(t.to_string());
    assert!(file_prunes(&s, 3, DataType::Utf8, CmpOp::Eq, &text("ant")));
    assert!(!file_prunes(&s, 3, DataType::Utf8, CmpOp::Eq, &text("bug")));
    assert_eq!(de_long(&ser_long(-7)), -7);
}

#[test]
fn data_files_hold_their_columns() {
    let ids: Vec<i64> = (0..10).collect();
    let names: Vec<String> = (0..10).map(|i| format!("n{i}")).collect();
    let schema = vec![
        ("id".to_string(), DataType::Int64),
        ("name".to_string(), DataType::Utf8),
    ];
    let cols = vec![ColumnData::Int64(ids), ColumnData::Utf8(names)];
    let (bytes, f) = write_data_file("/d/f", schema, &vec![1, 2], &cols, 4);
    assert_eq!(f.file_size as usize, bytes.len());
    assert_eq!(f.record_count, 10);
    assert_eq!(f.bounds, vec![(1, ser_long(0), ser_long(9))]);
    let mut r = Reader::open(bytes).unwrap();
    assert_eq!(r.meta.rowgroups.len(), 3);
    assert_eq!(r.read_chunk(2, 0).unwrap().as_i64(), &[8, 9]);
    assert_eq!(i64_bounds(&[]), (ser_long(0), ser_long(0)));
}

#[test]
fn tables_are_made_whole() {
    let fields = vec![Field { id: 1, name: "id".to_string(), dtype: DataType::Int64 }];
    let (files, meta) = create_table("/w", "t", fields, &vec![data_file("f", 0, 1)]);
    let paths: Vec<&str> = files.iter().map(|f| f.path.as_str()).collect();
    assert_eq!(
        paths,
        vec![
            "/w/t/metadata/v1.metadata.json",
            "/w/t/metadata/manifest-1.avro",
            "/w/t/metadata/snap-1001-manifest-list.avro",
            "/w/t/metadata/v2.metadata.json",
        ]
    );
    assert_eq!(meta.current_snapshot, Some(1001));
    let back = read_metadata(std::str::from_utf8(&files[3].bytes).unwrap()).unwrap();
    assert_eq!(back.snapshots, meta.snapshots);
}

#[test]
fn epochs_are_appended() {
    let mut t = table();
    let mut version = 0u32;
    let none = append_epoch_sink("/w", &mut t, &mut version, 1, &vec![(0, vec![], vec![])]);
    assert_eq!(none.len(), 0);
    assert_eq!(version, 0);
    let batches = vec![(3, vec![1, 2], vec![10, 20]), (4, vec![], vec![])];
    let files = append_epoch_sink("/w", &mut t, &mut version, 2, &batches);
    let paths: Vec<&str> = files.iter().map(|f| f.path.as_str()).collect();
    assert_eq!(
        paths,
        vec![
            "/w/data/epoch2_p3.blitz",
            "/w/metadata/snap-1002-m0.avro",
            "/w/metadata/snap-1002-ml.avro",
            "/w/t/metadata/v1.metadata.json",
        ]
    );
    assert_eq!(version, 1);
    assert_eq!(t.current_snapshot, Some(1002));
}

#[test]
fn warehouses_open_by_address() {
    assert!(matches!(open_warehouse("s3://b/p"), Warehouse::S3(_)));
    assert!(matches!(open_warehouse("/w"), Warehouse::Local(_)));
}

#[test]
fn whole_numbers_are_written_as_integers() {
    let shown = |t: &str| parse(t).unwrap().render();
    assert_eq!(shown("[1.0,+5,1e2,-0,-0.0,007]"), "[1,5,100,0,0,7]");
    assert_eq!(shown("[120e-1,-2.5e3,12.50E+1,0e99]"), "[12,-2500,125,0]");
    assert_eq!(
        shown("[8999999999999999,8.999999999999999e15]"),
        "[8999999999999999,8999999999999999]"
    );
    assert_eq!(shown("[0.5,-1.25]"), "[0.5,-1.25]");
    assert_eq!(shown("0e400000000000000000000000000"), "0");
    assert_eq!(shown("9000000000000000"), "9000000000000000");
    assert_eq!(parse("1.0").unwrap().num(), Some("1.0"));
}

#[test]
fn other_numbers_are_written_plainly() {
    let shown = |t: &str| Json::Num(t.to_string()).render();
    assert_eq!(shown("1.50"), "1.5");
    assert_eq!(shown("1e-7"), "0.0000001");
    assert_eq!(shown("-12.5e20"), "-1250000000000000000000");
    let spelled = [
        "0.5", "-0.50", "+1.25", ".75", "00.10", "123456.789", "123456789012345e-3", "1.5e-300",
        "9.99999999999999e307", "1e300", "1e22", "1e23", "12e20", "0.1e-5", "3.14159265358979",
        "-2.5E-10", "10000000000000000", "9000000000000000", "1234567890.00001", "7e15", "9e15",
        "99999999999999.9", "0.000123", "1e-306", "5.00000000000001",
    ];
    for t in spelled {
        let n: f64 = t.parse().unwrap();
        let want = if n.fract() == 0.0 && n.abs() < 9e15 {
            format!("{}", n as i64)
        } else {
            format!("{n}")
        };
        assert_eq!(shown(t), want, "{t}");
    }
    // More digits than a double keeps apart.
    assert_eq!(shown("9223372036854775807"), "9223372036854775807");
}

#[test]
fn any_text_is_kept_in_metadata() {
    let mut t = table();
    t.uuid = "a\u{8}b\u{c}c\u{1}\u{7f}\u{1f980}".to_string();
    t.fields[0].name = "tab\tbell\u{7}\u{8}".to_string();
    let (_, text) = write_metadata(&t, 1);
    assert!(text.contains("a\\bb\\fc\\u0001\u{7f}\u{1f980}"));
    let back = read_metadata(&text).unwrap();
    assert_eq!(back.uuid, t.uuid);
    assert_eq!(back.fields[0].name, t.fields[0].name);
    let (_, text) = commit_append(&mut t, 5, "list\u{c}\u{8}", 2);
    let back = read_metadata(&text).unwrap();
    assert_eq!(back.snapshots, vec![(5, "list\u{c}\u{8}".to_string())]);
}

#[test]
fn a_made_table_is_planned_to_its_files() {
    let fields = vec![Field { id: 1, name: "id".to_string(), dtype: DataType::Int64 }];
    let files = vec![data_file("f", 0, 1), data_file("g", 2, 7)];
    let (written, meta) = create_table("/w", "t", fields, &files);
    let disk: HashMap<String, Vec<u8>> =
        written.into_iter().map(|w| (w.path, w.bytes)).collect();
    let mut w = plan_files(&meta).unwrap();
    while let Some(p) = w.wanted().map(|p| p.to_string()) {
        w.feed(&disk[&p]).unwrap();
    }
    assert_eq!(w.files.len(), 2);
    assert_eq!(w.files[1].path, "g");
    assert_eq!(w.files[1].file_size, 10);
    assert_eq!(w.files[1].bounds, vec![(1, ser_long(2), ser_long(7))]);
}
