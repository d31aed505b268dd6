//! Calls into the outside encoding, compression and hashing crates.
//!
//! Each function here makes one outside call and states what the crate's
//! source and documentation show of it; everything built on top is verified.

use vstd::prelude::*;

use base64::Engine as _;
use sha2::Digest as _;
use std::io::{Read, Write};

verus! {

/// A byte of the standard Base64 alphabet, or the padding byte `=`.
pub open spec fn is_base64_symbol(b: u8) -> bool {
    (0x41 <= b <= 0x5a) || (0x61 <= b <= 0x7a) || (0x30 <= b <= 0x39) || b == 0x2b || b == 0x2f
        || b == 0x3d
}

/// The symbol of the standard Base64 alphabet for a value below 64.
pub open spec fn b64_symbol(v: int) -> u8 {
    if v < 26 {
        (0x41 + v) as u8
    } else if v < 52 {
        (0x61 + v - 26) as u8
    } else if v < 62 {
        (0x30 + v - 52) as u8
    } else if v == 62 {
        0x2bu8
    } else {
        0x2fu8
    }
}

/// The padded standard Base64 encoding of `data` (RFC 4648): each group of
/// three bytes becomes four symbols of six bits each, and a last group of one
/// or two bytes is completed with zero bits and padded with `=`.
pub open spec fn spec_base64_encode(data: Seq<u8>) -> Seq<u8>
    decreases data.len(),
{
    if data.len() == 0 {
        Seq::empty()
    } else if data.len() == 1 {
        seq![b64_symbol((data[0] / 4) as int), b64_symbol((data[0] % 4) * 16), 0x3du8, 0x3du8]
    } else if data.len() == 2 {
        seq![
            b64_symbol((data[0] / 4) as int),
            b64_symbol((data[0] % 4) * 16 + data[1] / 16),
            b64_symbol((data[1] % 16) * 4),
            0x3du8,
        ]
    } else {
        seq![
            b64_symbol((data[0] / 4) as int),
            b64_symbol((data[0] % 4) * 16 + data[1] / 16),
            b64_symbol((data[1] % 16) * 4 + data[2] / 64),
            b64_symbol((data[2] % 64) as int),
        ] + spec_base64_encode(data.skip(3))
    }
}

/// Every byte of an encoding is an alphabet symbol or `=`.
pub proof fn lemma_base64_symbols(data: Seq<u8>)
    ensures
        forall|i: int| 0 <= i < spec_base64_encode(data).len() ==> is_base64_symbol(#[trigger] spec_base64_encode(data)[i]),
    decreases data.len(),
{
    if data.len() >= 3 {
        lemma_base64_symbols(data.skip(3));
        let head = seq![
            b64_symbol((data[0] / 4) as int),
            b64_symbol((data[0] % 4) * 16 + data[1] / 16),
            b64_symbol((data[1] % 16) * 4 + data[2] / 64),
            b64_symbol((data[2] % 64) as int),
        ];
        let rest = spec_base64_encode(data.skip(3));
        assert forall|i: int| 0 <= i < (head + rest).len() implies is_base64_symbol(#[trigger] (head + rest)[i]) by {
            if i >= 4 {
                assert((head + rest)[i] == rest[i - 4]);
            }
        }
    }
}

proof fn lemma_b64_symbol_injective(u: int, v: int)
    requires
        0 <= u < 64,
        0 <= v < 64,
    ensures
        b64_symbol(u) != 0x3du8,
        b64_symbol(u) == b64_symbol(v) ==> u == v,
{
}

proof fn lemma_b64_head(d: Seq<u8>)
    requires
        d.len() > 0,
    ensures
        spec_base64_encode(d).len() >= 4,
        spec_base64_encode(d)[0] == b64_symbol((d[0] / 4) as int),
        d.len() == 1 ==> spec_base64_encode(d)[1] == b64_symbol(((d[0] % 4) * 16) as int)
            && spec_base64_encode(d)[2] == 0x3du8 && spec_base64_encode(d)[3] == 0x3du8,
        d.len() == 2 ==> spec_base64_encode(d)[1] == b64_symbol(((d[0] % 4) * 16 + d[1] / 16) as int)
            && spec_base64_encode(d)[2] == b64_symbol(((d[1] % 16) * 4) as int) && spec_base64_encode(d)[3] == 0x3du8,
        d.len() >= 3 ==> spec_base64_encode(d)[1] == b64_symbol(((d[0] % 4) * 16 + d[1] / 16) as int)
            && spec_base64_encode(d)[2] == b64_symbol(((d[1] % 16) * 4 + d[2] / 64) as int)
            && spec_base64_encode(d)[3] == b64_symbol((d[2] % 64) as int)
            && spec_base64_encode(d).skip(4) == spec_base64_encode(d.skip(3)),
{
    let e = spec_base64_encode(d);
    if d.len() >= 3 {
        let head = seq![
            b64_symbol((d[0] / 4) as int),
            b64_symbol((d[0] % 4) * 16 + d[1] / 16),
            b64_symbol((d[1] % 16) * 4 + d[2] / 64),
            b64_symbol((d[2] % 64) as int),
        ];
        assert(e == head + spec_base64_encode(d.skip(3)));
        assert(e.skip(4) =~= spec_base64_encode(d.skip(3)));
    }
}

/// No two byte strings have the same encoding.
pub proof fn lemma_base64_injective(x: Seq<u8>, y: Seq<u8>)
    requires
        spec_base64_encode(x) == spec_base64_encode(y),
    ensures
        x == y,
    decreases x.len(),
{
    if y.len() > 0 {
        lemma_b64_head(y);
    }
    if x.len() == 0 {
        assert(y.len() == 0);
        assert(x =~= y);
    } else {
        lemma_b64_head(x);
        assert(y.len() > 0);
        let a = x[0];
        let a2 = y[0];
        lemma_b64_symbol_injective((a / 4) as int, (a2 / 4) as int);
        assert(a / 4 == a2 / 4);
        if x.len() == 1 {
            if y.len() == 2 {
                lemma_b64_symbol_injective(((y[1] % 16) * 4) as int, 0);
            } else if y.len() >= 3 {
                lemma_b64_symbol_injective(((y[2] % 64)) as int, 0);
            }
            assert(y.len() == 1);
            lemma_b64_symbol_injective(((a % 4) * 16) as int, ((a2 % 4) * 16) as int);
            assert(x =~= y);
        } else if x.len() == 2 {
            lemma_b64_symbol_injective(((x[1] % 16) * 4) as int, 0);
            if y.len() >= 3 {
                lemma_b64_symbol_injective(((y[2] % 64)) as int, 0);
            }
            assert(y.len() == 2);
            let b = x[1];
            let b2 = y[1];
            lemma_b64_symbol_injective(((a % 4) * 16 + b / 16) as int, ((a2 % 4) * 16 + b2 / 16) as int);
            lemma_b64_symbol_injective(((b % 16) * 4) as int, ((b2 % 16) * 4) as int);
            assert(a == a2);
            assert(b == b2);
            assert(x =~= y);
        } else {
            lemma_b64_symbol_injective(((x[2] % 64)) as int, 0);
            if y.len() == 2 {
                lemma_b64_symbol_injective(((y[1] % 16) * 4) as int, 0);
            }
            assert(y.len() >= 3);
            let b = x[1];
            let b2 = y[1];
            let c = x[2];
            let c2 = y[2];
            lemma_b64_symbol_injective(((a % 4) * 16 + b / 16) as int, ((a2 % 4) * 16 + b2 / 16) as int);
            lemma_b64_symbol_injective(((b % 16) * 4 + c / 64) as int, ((b2 % 16) * 4 + c2 / 64) as int);
            lemma_b64_symbol_injective((c % 64) as int, (c2 % 64) as int);
            assert(a == a2);
            assert(b == b2);
            assert(c == c2);
            lemma_base64_injective(x.skip(3), y.skip(3));
            assert(x =~= seq![a, b, c] + x.skip(3));
            assert(y =~= seq![a2, b2, c2] + y.skip(3));
        }
    }
}

/// Calls `base64::engine::general_purpose::STANDARD.encode`, which produces the
/// padded standard encoding of `data`.
#[verifier::external_body]
pub(crate) fn base64_encode(data: &[u8]) -> (res: Vec<u8>)
    ensures
        res@ == spec_base64_encode(data@),
{
    base64::engine::general_purpose::STANDARD.encode(data).into_bytes()
}

/// The byte string whose standard encoding is `input`, if there is one (there
/// is at most one: the encoding is injective).
pub open spec fn spec_base64_decode(input: Seq<u8>) -> Option<Seq<u8>> {
    if exists|x: Seq<u8>| spec_base64_encode(x) == input {
        Some(choose|x: Seq<u8>| spec_base64_encode(x) == input)
    } else {
        None
    }
}

/// The error type of Base64 decoding.
#[verifier::external_type_specification]
#[verifier::external_body]
pub struct ExBase64DecodeError(base64::DecodeError);

/// Calls `base64::engine::general_purpose::STANDARD.decode`. That engine
/// requires canonical padding and rejects non-zero trailing bits, so it accepts
/// exactly the canonical encodings: it succeeds on `input` if and only if `input`
/// is the encoding of some byte string, and then returns that byte string.
#[verifier::external_body]
pub(crate) fn base64_decode(input: &[u8]) -> (res: Result<Vec<u8>, base64::DecodeError>)
    ensures
        res matches Ok(v) ==> spec_base64_encode(v@) == input@,
        res is Err ==> forall|x: Seq<u8>| #[trigger] spec_base64_encode(x) != input@,
{
    base64::engine::general_purpose::STANDARD.decode(input)
}

/// The text of a Base64 decoding error (its `Display` output).
#[verifier::external_body]
pub(crate) fn base64_error_text(e: &base64::DecodeError) -> String {
    format!("{}", e)
}


/// The LZ4 block compression of `data`, prefixed with its length.
pub uninterp spec fn spec_lz4_compress(data: Seq<u8>) -> Seq<u8>;

/// What LZ4 decompression with a length prefix yields for `input`, if it succeeds.
pub uninterp spec fn spec_lz4_decompress(input: Seq<u8>) -> Option<Seq<u8>>;

/// Calls `lz4_flex::compress_prepend_size`. Its output starts with the input
/// length as a 32-bit little-endian number, so for inputs of at most
/// `u32::MAX` bytes decompression gives the input back.
#[verifier::external_body]
pub(crate) fn lz4_compress(data: &[u8]) -> (res: Vec<u8>)
    ensures
        res@ == spec_lz4_compress(data@),
        data@.len() <= u32::MAX ==> spec_lz4_decompress(res@) == Some(data@),
{
    lz4_flex::compress_prepend_size(data)
}

/// The error type of LZ4 decompression.
#[verifier::external_type_specification]
#[verifier::external_body]
pub struct ExLz4DecompressError(lz4_flex::block::DecompressError);

/// Calls `lz4_flex::decompress_size_prepended`.
#[verifier::external_body]
pub(crate) fn lz4_decompress(input: &[u8]) -> (res: Result<Vec<u8>, lz4_flex::block::DecompressError>)
    ensures
        res is Ok <==> spec_lz4_decompress(input@) is Some,
        res matches Ok(v) ==> v@ == spec_lz4_decompress(input@)->0,
{
    lz4_flex::decompress_size_prepended(input)
}

/// The text of an LZ4 decompression error (its `Display` output).
#[verifier::external_body]
pub(crate) fn lz4_error_text(e: &lz4_flex::block::DecompressError) -> String {
    format!("{}", e)
}

/// The Zstandard frame compressing `data` at `level`.
pub uninterp spec fn spec_zstd_compress(data: Seq<u8>, level: i32) -> Seq<u8>;

/// What Zstandard decompression yields for `input`, if it succeeds.
pub uninterp spec fn spec_zstd_decompress(input: Seq<u8>) -> Option<Seq<u8>>;

/// Calls `zstd::encode_all` on the bytes at `level`. Its output is a Zstandard
/// frame that decompresses to the input. It reads from an in-memory cursor and
/// writes into a vector, and zstd clamps the level into its range (0 meaning
/// its default), so it succeeds.
#[verifier::external_body]
pub(crate) fn zstd_compress(data: &[u8], level: i32) -> (res: Result<Vec<u8>, std::io::Error>)
    ensures
        res is Ok,
        res matches Ok(v) ==> v@ == spec_zstd_compress(data@, level),
        res matches Ok(v) ==> spec_zstd_decompress(v@) == Some(data@),
{
    zstd::encode_all(std::io::Cursor::new(data), level)
}

/// Calls `zstd::decode_all` on the bytes.
#[verifier::external_body]
pub(crate) fn zstd_decompress(input: &[u8]) -> (res: Result<Vec<u8>, std::io::Error>)
    ensures
        res is Ok <==> spec_zstd_decompress(input@) is Some,
        res matches Ok(v) ==> v@ == spec_zstd_decompress(input@)->0,
{
    zstd::decode_all(std::io::Cursor::new(input))
}

/// The gzip stream compressing `data` at `level`.
pub uninterp spec fn spec_gzip_compress(data: Seq<u8>, level: u32) -> Seq<u8>;

/// What gzip decompression of the first member of `input` yields, if it succeeds.
pub uninterp spec fn spec_gzip_decompress(input: Seq<u8>) -> Option<Seq<u8>>;

/// Writes the bytes through a `flate2::write::GzEncoder` at `level` into a
/// vector and finishes the stream. Its output decompresses to the input. The
/// level must be a valid one (the encoder asserts that it is at most 10).
/// Writing into a vector never fails, so it succeeds.
#[verifier::external_body]
pub(crate) fn gzip_compress(data: &[u8], level: u32) -> (res: Result<Vec<u8>, std::io::Error>)
    requires
        level <= 9,
    ensures
        res is Ok,
        res matches Ok(v) ==> v@ == spec_gzip_compress(data@, level),
        res matches Ok(v) ==> spec_gzip_decompress(v@) == Some(data@),
{
    let mut encoder = flate2::write::GzEncoder::new(Vec::new(), flate2::Compression::new(level));
    encoder.write_all(data)?;
    encoder.finish()
}

/// Reads the bytes to the end through a `flate2::read::GzDecoder`.
#[verifier::external_body]
pub(crate) fn gzip_decompress(input: &[u8]) -> (res: Result<Vec<u8>, std::io::Error>)
    ensures
        res is Ok <==> spec_gzip_decompress(input@) is Some,
        res matches Ok(v) ==> v@ == spec_gzip_decompress(input@)->0,
{
    let mut decoder = flate2::read::GzDecoder::new(input);
    let mut decompressed = Vec::new();
    decoder.read_to_end(&mut decompressed)?;
    Ok(decompressed)
}

/// The SHA-256 digest of `data`.
pub uninterp spec fn spec_sha256(data: Seq<u8>) -> Seq<u8>;

/// Calls `sha2::Sha256` (new, update, finalize) on the bytes: a 32-byte digest.
#[verifier::external_body]
pub(crate) fn sha256_digest(data: &[u8]) -> (res: Vec<u8>)
    ensures
        res@ == spec_sha256(data@),
        res@.len() == 32,
{
    let mut hasher = sha2::Sha256::new();
    hasher.update(data);
    hasher.finalize().to_vec()
}

} // verus!
