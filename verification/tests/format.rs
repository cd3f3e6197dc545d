//! The column format: compression, pages, Parquet pages and whole files.
use blitz::format::lz4::{compress_prepend_size, decompress_size_prepended, try_decompress};
use blitz::format::meta::{CmpOp, ColumnData, DataType, Literal};
use blitz::format::page::{decode_i64_page, encode_i64_page};
use blitz::format::parquet::{Compression, ParquetError, ParquetReader};
use blitz::format::reader::{reset_counters, Reader};
use blitz::format::writer::Writer;
use std::io::Write;

#[test]
fn roundtrip() {
    for data in [
        b"".to_vec(),
        b"abc".to_vec(),
        b"aaaaaaaaaaaaaaaaaaaaaaaaaaaaaaaaaaaaaa".to_vec(),
        (0..10_000u32)
            .flat_map(|x| (x % 97).to_le_bytes())
            .collect::<Vec<u8>>(),
    ] {
        let c = compress_prepend_size(&data);
        assert_eq!(decompress_size_prepended(&c).unwrap(), data);
    }
}

#[test]
fn lz4_bytes_are_exact() {
    assert_eq!(compress_prepend_size(b""), vec![0, 0, 0, 0, 0]);
    assert_eq!(
        compress_prepend_size(b"abc"),
        vec![3, 0, 0, 0, 0x30, b'a', b'b', b'c']
    );
    let run = compress_prepend_size(&[b'a'; 38]);
    assert!(run.len() < 20);
}

#[test]
fn lz4_refuses_what_it_did_not_write() {
    assert!(decompress_size_prepended(&[1, 0, 0]).is_err());
    assert!(matches!(try_decompress(&[]), Some(Err(_)) | None));
}

#[test]
fn test_is_parquet() {
    let valid = b"PAR1\x00\x00\x00\x00PAR1";
    assert!(ParquetReader::is_parquet(valid));
}

#[test]
fn short_or_unframed_bytes_are_not_parquet() {
    assert!(!ParquetReader::is_parquet(b"PAR1PAR"));
    assert!(!ParquetReader::is_parquet(b"PAR1\x00\x00\x00\x00PAR2"));
}

#[test]
fn test_decode_plain_i64() {
    let data = (0i64..5i64)
        .flat_map(|i| i.to_le_bytes())
        .collect::<Vec<_>>();
    let result = ParquetReader::decode_plain_i64(&data);
    assert_eq!(result, vec![0, 1, 2, 3, 4]);
}

#[test]
fn plain_i64_leaves_a_rest_out() {
    let mut data = (-2i64).to_le_bytes().to_vec();
    data.push(7);
    assert_eq!(ParquetReader::decode_plain_i64(&data), vec![-2]);
}

#[test]
fn test_decompress_uncompressed() {
    let d = b"abc";
    assert_eq!(
        ParquetReader::decompress(d, Compression::Uncompressed).unwrap(),
        d
    );
}

#[test]
fn parquet_pages_decompress() {
    let text = b"hello hello hello hello hello".to_vec();
    let snappy = snap::raw::Encoder::new().compress_vec(&text).unwrap();
    assert_ne!(snappy, text);
    assert_eq!(
        ParquetReader::decompress(&snappy, Compression::Snappy).unwrap(),
        text
    );
    let mut gz = flate2::write::GzEncoder::new(Vec::new(), flate2::Compression::default());
    gz.write_all(&text).unwrap();
    let gzip = gz.finish().unwrap();
    assert_eq!(
        ParquetReader::decompress(&gzip, Compression::Gzip).unwrap(),
        text
    );
    let zs = zstd::encode_all(&text[..], 3).unwrap();
    assert_eq!(
        ParquetReader::decompress(&zs, Compression::Zstd).unwrap(),
        text
    );
    assert!(ParquetReader::decompress(b"\xff\xff\xff", Compression::Snappy).is_err());
}

#[test]
fn plain_texts_decode() {
    let mut data = Vec::new();
    for s in ["ab", "", "xyz"] {
        data.extend_from_slice(&(s.len() as u32).to_le_bytes());
        data.extend_from_slice(s.as_bytes());
    }
    assert_eq!(
        ParquetReader::decode_plain_utf8(&data).unwrap(),
        vec!["ab".to_string(), "".to_string(), "xyz".to_string()]
    );
}

#[test]
fn dictionary_indices_decode() {
    assert_eq!(
        ParquetReader::decode_dict_i64(&[1, 0, 1], &[10, 20]).unwrap(),
        vec![20, 10, 20]
    );
    assert!(ParquetReader::decode_dict_i64(&[9], &[10]).is_err());
}

#[test]
fn parquet_errors_say_what_failed() {
    let e: ParquetError = ParquetReader::from_bytes(b"nope").unwrap_err();
    assert!(!e.message().is_empty());
}

#[test]
fn pages_read_back() {
    let vals: Vec<i64> = vec![5, -7, i64::MAX, i64::MIN, 0];
    let page = encode_i64_page(&vals);
    assert_eq!(decode_i64_page(&page, vals.len()).unwrap(), vals);
}

fn sample_file() -> Vec<u8> {
    let schema = vec![
        ("k".to_string(), DataType::Int64),
        ("name".to_string(), DataType::Utf8),
    ];
    let (mut w, mut file) = Writer::create(schema);
    for g in 0..2i64 {
        let k: Vec<i64> = (0..5000).map(|i| g * 100_000 + i).collect();
        let n: Vec<String> = (0..5000).map(|i| format!("n{}", i % 3)).collect();
        let cols = [ColumnData::Int64(k), ColumnData::Utf8(n)];
        file.extend(w.write_rowgroup(&cols));
    }
    let (tail, meta) = w.finish();
    file.extend(tail);
    assert_eq!(meta.file_size as usize, file.len());
    file
}

#[test]
fn written_files_open_and_read_back() {
    let mut r = Reader::open(sample_file()).unwrap();
    match r.read_chunk(1, 0).unwrap() {
        ColumnData::Int64(v) => {
            assert_eq!(v.len(), 5000);
            assert_eq!(v[0], 100_000);
            assert_eq!(v[4999], 104_999);
        }
        ColumnData::Utf8(_) => panic!("integers"),
    }
    match r.gather(0, 1, &[0, 1, 4999]).unwrap() {
        ColumnData::Utf8(v) => assert_eq!(v, vec!["n0", "n1", "n1"]),
        ColumnData::Int64(_) => panic!("texts"),
    }
}

#[test]
fn predicates_find_rows_and_prune_groups() {
    let mut r = Reader::open(sample_file()).unwrap();
    let lit = Literal::Int(4_997);
    assert_eq!(
        r.eval_pred(0, 0, CmpOp::Gt, &lit).unwrap(),
        vec![4998u32, 4999]
    );
    assert!(r.rg_prunes(0, 0, CmpOp::Gt, &Literal::Int(4_999)));
    assert!(!r.rg_prunes(0, 0, CmpOp::Ge, &Literal::Int(4_999)));
    let s = Literal::Str("n2".to_string());
    let found = r.eval_pred(0, 1, CmpOp::Eq, &s).unwrap();
    assert_eq!(found[0], 2);
    assert_eq!(found.len(), 1666);
    reset_counters(&mut r.counters);
    assert_eq!(r.counters.pages_decoded, 0);
}

#[test]
fn damaged_files_do_not_open() {
    let mut f = sample_file();
    let n = f.len();
    f[n - 1] = 0;
    assert!(Reader::open(f).is_none());
    assert!(Reader::open(vec![1, 2, 3]).is_none());
}

#[test]
fn counters_rise_by_the_pages_touched() {
    let schema = vec![
        ("k".to_string(), DataType::Int64),
        ("name".to_string(), DataType::Utf8),
    ];
    let (mut w, mut file) = Writer::create(schema);
    let k: Vec<i64> = (0..20_000).collect();
    let n: Vec<String> = (0..20_000).map(|i| format!("n{}", i % 3)).collect();
    file.extend(w.write_rowgroup(&[ColumnData::Int64(k), ColumnData::Utf8(n)]));
    let (tail, _) = w.finish();
    file.extend(tail);
    let mut r = Reader::open(file).unwrap();
    let pages = r.meta.rowgroups[0].chunks[0].pages.clone();
    assert_eq!(pages.len(), 3);

    r.gather(0, 0, &[0, 8191, 16_384]).unwrap();
    let touched = (pages[0].comp_len + pages[2].comp_len) as u64;
    assert_eq!((r.counters.pages_decoded, r.counters.pages_skipped), (2, 1));
    assert_eq!(r.counters.bytes_decoded, touched);
    assert_eq!(r.counters.bytes_skipped, pages[1].comp_len as u64);

    reset_counters(&mut r.counters);
    let found = r.eval_pred(0, 0, CmpOp::Ge, &Literal::Int(16_000)).unwrap();
    assert_eq!(found.len(), 4000);
    assert_eq!((r.counters.pages_decoded, r.counters.pages_skipped), (2, 1));

    reset_counters(&mut r.counters);
    let absent = Literal::Str("n3".to_string());
    assert_eq!(r.eval_pred(0, 1, CmpOp::Eq, &absent).unwrap().len(), 0);
    assert_eq!((r.counters.pages_decoded, r.counters.pages_skipped), (0, 3));
}
