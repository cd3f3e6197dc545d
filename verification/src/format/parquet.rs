//! Parquet files: recognising them, page decompression and plain decoding of
//! integer and text columns.
use crate::wire::{copy_range, from_le, le_i64, rd_u32, string_from_utf8, u32_at, u64_at};
use crate::text::{strs, strs_push};
use vstd::prelude::*;
use vstd::utf8::{decode_utf8, valid_utf8};

verus! {

#[derive(Clone, Copy, Debug, PartialEq, Eq, Structural)]
pub enum Encoding {
    Plain,
    RunLengthEncoded,
    PlainDictionary,
    ByteStreamSplit,
}

#[derive(Clone, Copy, Debug, PartialEq, Eq, Structural)]
pub enum Compression {
    Uncompressed,
    Snappy,
    Gzip,
    Zstd,
}

/// Why a Parquet file or page was refused. A codec's own message goes with
/// its variant.
#[derive(Clone, Debug)]
pub enum ParquetError {
    NotParquet,
    TooShort,
    BadFooterLength,
    Truncated,
    NotUtf8,
    BadIndex,
    Snappy(String),
    Gzip(String),
    Zstd(String),
}

impl ParquetError {
    pub open spec fn text(self) -> Seq<char> {
        match self {
            ParquetError::NotParquet => "not a Parquet file"@,
            ParquetError::TooShort => "file too short"@,
            ParquetError::BadFooterLength => "bad footer length"@,
            ParquetError::Truncated => "truncated"@,
            ParquetError::NotUtf8 => "utf8"@,
            ParquetError::BadIndex => "bad index"@,
            ParquetError::Snappy(m) => m@,
            ParquetError::Gzip(m) => m@,
            ParquetError::Zstd(m) => m@,
        }
    }

    /// The error in words.
    pub fn message(&self) -> (r: String)
        ensures
            r@ == self.text(),
    {
        match self {
            ParquetError::NotParquet => "not a Parquet file".to_owned(),
            ParquetError::TooShort => "file too short".to_owned(),
            ParquetError::BadFooterLength => "bad footer length".to_owned(),
            ParquetError::Truncated => "truncated".to_owned(),
            ParquetError::NotUtf8 => "utf8".to_owned(),
            ParquetError::BadIndex => "bad index".to_owned(),
            ParquetError::Snappy(m) => m.clone(),
            ParquetError::Gzip(m) => m.clone(),
            ParquetError::Zstd(m) => m.clone(),
        }
    }
}

// ---------------------------------------------------------------------------
// Codecs
// ---------------------------------------------------------------------------

/// What `snap::raw::Decoder::decompress_vec` makes of a raw Snappy block: the
/// bytes, or its error's message.
pub uninterp spec fn snappy_plain(data: Seq<u8>) -> Result<Seq<u8>, Seq<char>>;

/// What reading `flate2::read::GzDecoder` to its end gives: the bytes, or the
/// error's message.
pub uninterp spec fn gzip_plain(data: Seq<u8>) -> Result<Seq<u8>, Seq<char>>;

/// What `zstd::stream::decode_all` makes of Zstandard frames: the bytes, or
/// its error's message.
pub uninterp spec fn zstd_plain(data: Seq<u8>) -> Result<Seq<u8>, Seq<char>>;

/// Whether a codec's outcome is the named one.
pub open spec fn codec_gives(
    r: Result<Vec<u8>, String>,
    want: Result<Seq<u8>, Seq<char>>,
) -> bool {
    match (r, want) {
        (Ok(v), Ok(s)) => v@ == s,
        (Err(e), Err(m)) => e@ == m,
        _ => false,
    }
}

/// `snap::raw::Decoder::decompress_vec` on a fresh decoder; its result is
/// named by `snappy_plain`.
#[verifier::external_body]
fn snappy_decompress(data: &[u8]) -> (r: Result<Vec<u8>, String>)
    ensures
        codec_gives(r, snappy_plain(data@)),
{
    snap::raw::Decoder::new().decompress_vec(data).map_err(|e| e.to_string())
}

/// `flate2::read::GzDecoder` read to its end; the result is named by
/// `gzip_plain`.
#[verifier::external_body]
fn gzip_decompress(data: &[u8]) -> (r: Result<Vec<u8>, String>)
    ensures
        codec_gives(r, gzip_plain(data@)),
{
    let mut decoder = flate2::read::GzDecoder::new(data);
    let mut out = Vec::new();
    match std::io::Read::read_to_end(&mut decoder, &mut out) {
        Ok(_) => Ok(out),
        Err(e) => Err(e.to_string()),
    }
}

/// `zstd::stream::decode_all`; the result is named by `zstd_plain`.
#[verifier::external_body]
fn zstd_decompress(data: &[u8]) -> (r: Result<Vec<u8>, String>)
    ensures
        codec_gives(r, zstd_plain(data@)),
{
    zstd::stream::decode_all(data).map_err(|e| e.to_string())
}

/// What a page decompresses to.
pub open spec fn page_plain(data: Seq<u8>, compression: Compression) -> Result<
    Seq<u8>,
    Seq<char>,
> {
    match compression {
        Compression::Uncompressed => Ok(data),
        Compression::Snappy => snappy_plain(data),
        Compression::Gzip => gzip_plain(data),
        Compression::Zstd => zstd_plain(data),
    }
}

// ---------------------------------------------------------------------------
// Layout
// ---------------------------------------------------------------------------

pub open spec fn par1() -> Seq<u8> {
    seq![0x50u8, 0x41u8, 0x52u8, 0x31u8]
}

/// At least eight bytes, with the magic at both ends.
pub open spec fn framed(data: Seq<u8>) -> bool {
    &&& data.len() >= 8
    &&& data.take(4) == par1()
    &&& data.skip(data.len() - 4) == par1()
}

/// The length field before the closing magic.
pub open spec fn footer_len(data: Seq<u8>) -> nat {
    from_le(data.subrange(data.len() - 8, data.len() - 4))
}

/// The whole 64-bit words in `data`.
pub open spec fn plain_i64s(data: Seq<u8>) -> Seq<i64> {
    Seq::new(data.len() / 8, |i: int| from_le(data.subrange(8 * i, 8 * i + 8)) as u64 as i64)
}

/// Length-prefixed texts up to the end of `s`.
pub open spec fn plain_texts(s: Seq<u8>) -> Result<Seq<Seq<char>>, ParquetError>
    decreases s.len(),
{
    if s.len() == 0 {
        Ok(Seq::empty())
    } else {
        match rd_u32(s) {
            None => Err(ParquetError::Truncated),
            Some((n, rest)) => if rest.len() < n {
                Err(ParquetError::Truncated)
            } else if !valid_utf8(rest.take(n as int)) {
                Err(ParquetError::NotUtf8)
            } else {
                match plain_texts(rest.skip(n as int)) {
                    Err(e) => Err(e),
                    Ok(more) => Ok(seq![decode_utf8(rest.take(n as int))] + more),
                }
            },
        }
    }
}

pub struct ParquetReader;

impl ParquetReader {
    pub fn is_parquet(data: &[u8]) -> (r: bool)
        ensures
            r == framed(data@),
    {
        let n: usize = data.len();
        if n < 8 {
            return false;
        }
        let head: bool = data[0] == 0x50 && data[1] == 0x41 && data[2] == 0x52 && data[3] == 0x31;
        let tail: bool = data[n - 4] == 0x50 && data[n - 3] == 0x41 && data[n - 2] == 0x52 && data[n
            - 1] == 0x31;
        proof {
            let h = data@.take(4);
            let t = data@.skip(n - 4);
            assert(h[0] == data@[0] && h[1] == data@[1] && h[2] == data@[2] && h[3] == data@[3]);
            assert(t[0] == data@[n - 4] && t[1] == data@[n - 3] && t[2] == data@[n - 2] && t[3]
                == data@[n - 1]);
            if head {
                assert(h =~= par1());
            }
            if tail {
                assert(t =~= par1());
            }
        }
        head && tail
    }

    /// The integer columns of a file. Footers are checked for their length
    /// and not decoded, so that a sound file yields no columns.
    pub fn from_bytes(data: &[u8]) -> (r: Result<Vec<Vec<i64>>, ParquetError>)
        ensures
            !framed(data@) ==> r == Err::<Vec<Vec<i64>>, ParquetError>(ParquetError::NotParquet),
            framed(data@) && data@.len() < 12 ==> r == Err::<Vec<Vec<i64>>, ParquetError>(
                ParquetError::TooShort,
            ),
            framed(data@) && data@.len() >= 12 && footer_len(data@) + 8 > data@.len() ==> r == Err::<
                Vec<Vec<i64>>,
                ParquetError,
            >(ParquetError::BadFooterLength),
            framed(data@) && data@.len() >= 12 && footer_len(data@) + 8 <= data@.len() ==> (
            r matches Ok(cols) && cols@.len() == 0),
    {
        if !Self::is_parquet(data) {
            return Err(ParquetError::NotParquet);
        }
        let n: usize = data.len();
        if n < 12 {
            return Err(ParquetError::TooShort);
        }
        let len: usize = u32_at(data, n - 8) as usize;
        assert(data@.subrange(n - 8, n - 8 + 4) == data@.subrange(n - 8, n - 4));
        if len > n - 8 {
            return Err(ParquetError::BadFooterLength);
        }
        match Self::try_arrow_parquet(data) {
            Some(cols) => Ok(cols),
            None => Ok(Vec::new()),
        }
    }

    /// Decoding of footers is left out of this build.
    fn try_arrow_parquet(_data: &[u8]) -> (r: Option<Vec<Vec<i64>>>)
        ensures
            r is None,
    {
        None
    }

    pub fn decompress(data: &[u8], compression: Compression) -> (r: Result<Vec<u8>, ParquetError>)
        ensures
            match (r, page_plain(data@, compression)) {
                (Ok(v), Ok(s)) => v@ == s,
                (Err(e), Err(m)) => e.text() == m && (compression == Compression::Snappy
                    <==> e is Snappy) && (compression == Compression::Gzip <==> e is Gzip) && (
                compression == Compression::Zstd <==> e is Zstd),
                _ => false,
            },
    {
        match compression {
            Compression::Uncompressed => Ok(copy_range(data, 0, data.len())),
            Compression::Snappy => match snappy_decompress(data) {
                Ok(v) => Ok(v),
                Err(m) => Err(ParquetError::Snappy(m)),
            },
            Compression::Gzip => match gzip_decompress(data) {
                Ok(v) => Ok(v),
                Err(m) => Err(ParquetError::Gzip(m)),
            },
            Compression::Zstd => match zstd_decompress(data) {
                Ok(v) => Ok(v),
                Err(m) => Err(ParquetError::Zstd(m)),
            },
        }
    }

    pub fn decode_plain_i64(data: &[u8]) -> (r: Vec<i64>)
        ensures
            r@ == plain_i64s(data@),
    {
        let len: usize = data.len();
        let n: usize = len / 8;
        let mut out: Vec<i64> = Vec::new();
        let mut i: usize = 0;
        while i < n
            invariant
                i <= n,
                n == len / 8,
                len == data@.len(),
                out@.len() == i,
                forall|j: int| 0 <= j < i ==> out@[j] == plain_i64s(data@)[j],
            decreases n - i,
        {
            let u: u64 = u64_at(data, 8 * i);
            out.push(#[verifier::truncate] (u as i64));
            i += 1;
        }
        assert(out@ =~= plain_i64s(data@));
        out
    }

    pub fn decode_plain_utf8(data: &[u8]) -> (r: Result<Vec<String>, ParquetError>)
        ensures
            match (r, plain_texts(data@)) {
                (Ok(v), Ok(s)) => strs(v@) == s,
                (Err(e), Err(f)) => e == f,
                _ => false,
            },
    {
        let mut strings: Vec<String> = Vec::new();
        let mut pos: usize = 0;
        let ghost want = plain_texts(data@);
        proof {
            assert(data@.skip(0) =~= data@);
            if let Ok(more) = want {
                assert(strs(strings@) + more =~= more);
            }
        }
        while pos < data.len()
            invariant
                pos <= data@.len(),
                want == plain_texts(data@),
                match plain_texts(data@.skip(pos as int)) {
                    Err(e) => want == Err::<Seq<Seq<char>>, ParquetError>(e),
                    Ok(more) => want == Ok::<Seq<Seq<char>>, ParquetError>(strs(strings@) + more),
                },
            decreases data@.len() - pos,
        {
            let ghost s = data@.skip(pos as int);
            let ghost before = strings@;
            if data.len() - pos < 4 {
                return Err(ParquetError::Truncated);
            }
            let len: usize = u32_at(data, pos) as usize;
            assert(s.take(4) =~= data@.subrange(pos as int, pos + 4));
            pos += 4;
            let ghost rest = data@.skip(pos as int);
            assert(s.skip(4) =~= rest);
            if len > data.len() - pos {
                return Err(ParquetError::Truncated);
            }
            let bytes: Vec<u8> = copy_range(data, pos, pos + len);
            assert(bytes@ =~= rest.take(len as int));
            pos += len;
            assert(rest.skip(len as int) =~= data@.skip(pos as int));
            match string_from_utf8(bytes) {
                None => {
                    return Err(ParquetError::NotUtf8);
                },
                Some(t) => {
                    strings.push(t);
                    proof {
                        strs_push(before, t);
                        if let Ok(more) = plain_texts(data@.skip(pos as int)) {
                            assert(strs(before) + (seq![t@] + more) =~= strs(strings@) + more);
                        }
                    }
                },
            }
        }
        assert(strs(strings@) + Seq::<Seq<char>>::empty() =~= strs(strings@));
        Ok(strings)
    }

    /// The dictionary values that some one-byte indices stand for.
    pub fn decode_dict_i64(indices: &[u8], dictionary: &[i64]) -> (r: Result<
        Vec<i64>,
        ParquetError,
    >)
        ensures
            match r {
                Ok(v) => v@.len() == indices@.len() && forall|i: int|
                    #![trigger v@[i]]
                    #![trigger indices@[i]]
                    0 <= i < v@.len() ==> indices@[i] < dictionary@.len() && v@[i]
                        == dictionary@[indices@[i] as int],
                Err(e) => e == ParquetError::BadIndex && exists|i: int|
                    0 <= i < indices@.len() && #[trigger] indices@[i] >= dictionary@.len(),
            },
    {
        let mut out: Vec<i64> = Vec::new();
        let mut i: usize = 0;
        while i < indices.len()
            invariant
                i <= indices@.len(),
                out@.len() == i,
                forall|j: int|
                    #![trigger out@[j]]
                    #![trigger indices@[j]]
                    0 <= j < i ==> indices@[j] < dictionary@.len() && out@[j]
                        == dictionary@[indices@[j] as int],
            decreases indices@.len() - i,
        {
            let idx: usize = indices[i] as usize;
            if idx >= dictionary.len() {
                assert(indices@[i as int] >= dictionary@.len());
                return Err(ParquetError::BadIndex);
            }
            out.push(dictionary[idx]);
            i += 1;
        }
        Ok(out)
    }
}

/// Plain integers are read back from their little-endian encodings.
pub proof fn plain_i64_read_back(vals: Seq<i64>)
    ensures
        plain_i64s(crate::wire::wr_list(vals, |v: i64| le_i64(v))) == vals,
    decreases vals.len(),
{
    let enc = |v: i64| le_i64(v);
    let raw = crate::wire::wr_list(vals, enc);
    plain_len(vals);
    if vals.len() > 0 {
        let t = vals.skip(1);
        let rest = crate::wire::wr_list(t, enc);
        plain_i64_read_back(t);
        plain_len(t);
        crate::wire::le_read_back(vals[0] as u64 as nat, 8);
        crate::wire::signed_pattern(vals[0], 0);
        assert forall|i: int| 0 <= i < vals.len() implies plain_i64s(raw)[i] == vals[i] by {
            if i == 0 {
                assert(raw.subrange(0, 8) =~= le_i64(vals[0]));
            } else {
                assert(raw.subrange(8 * i, 8 * i + 8) =~= rest.subrange(
                    8 * (i - 1),
                    8 * (i - 1) + 8,
                ));
                assert(plain_i64s(rest)[i - 1] == t[i - 1]);
            }
        }
    }
    assert(plain_i64s(raw) =~= vals);
}

proof fn plain_len(vals: Seq<i64>)
    ensures
        crate::wire::wr_list(vals, |v: i64| le_i64(v)).len() == 8 * vals.len(),
    decreases vals.len(),
{
    if vals.len() > 0 {
        plain_len(vals.skip(1));
        crate::wire::le_len(vals[0] as u64 as nat, 8);
    }
}

} // verus!
