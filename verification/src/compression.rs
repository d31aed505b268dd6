//! Compression, decompression and hashing of part bodies.

use vstd::prelude::*;

use crate::algorithm::{CompressionAlgorithm, EmailCompressor};
use crate::codec::{
    gzip_compress, gzip_decompress, lz4_compress, lz4_decompress, lz4_error_text, sha256_digest,
    spec_gzip_compress, spec_gzip_decompress, spec_lz4_compress, spec_lz4_decompress, spec_sha256,
    spec_zstd_compress, spec_zstd_decompress, zstd_compress, zstd_decompress,
};
use crate::error::{io_error_text, MailCrushError};
use crate::text::concat;

verus! {

/// The compressed form of `data` under `algorithm` at `level`.
pub open spec fn spec_compressed(data: Seq<u8>, algorithm: CompressionAlgorithm, level: u8) -> Seq<u8> {
    match algorithm {
        CompressionAlgorithm::NoCompression => data,
        CompressionAlgorithm::Lz4 => spec_lz4_compress(data),
        CompressionAlgorithm::Zstd => spec_zstd_compress(data, level as i32),
        CompressionAlgorithm::Gzip => spec_gzip_compress(data, level as u32),
    }
}

/// What decompressing `data` under `algorithm` yields, if it succeeds.
pub open spec fn spec_decompressed(data: Seq<u8>, algorithm: CompressionAlgorithm) -> Option<Seq<u8>> {
    match algorithm {
        CompressionAlgorithm::NoCompression => Some(data),
        CompressionAlgorithm::Lz4 => spec_lz4_decompress(data),
        CompressionAlgorithm::Zstd => spec_zstd_decompress(data),
        CompressionAlgorithm::Gzip => spec_gzip_decompress(data),
    }
}

/// A lowercase hexadecimal digit for a value below 16.
pub open spec fn lower_hex_char(v: u8) -> char {
    if v < 10 {
        ((0x30 + v) as u8) as char
    } else {
        ((0x61 + v - 10) as u8) as char
    }
}

/// The lowercase hexadecimal rendering of bytes, two digits per byte.
pub open spec fn hex_lower(bytes: Seq<u8>) -> Seq<char>
    decreases bytes.len(),
{
    if bytes.len() == 0 {
        Seq::empty()
    } else {
        let b = bytes.last();
        hex_lower(bytes.drop_last()) + seq![lower_hex_char(b / 16), lower_hex_char(b % 16)]
    }
}

/// The SHA-256 of `data` in lowercase hexadecimal.
pub open spec fn spec_hash_hex(data: Seq<u8>) -> Seq<char> {
    hex_lower(spec_sha256(data))
}

/// Two digits per byte.
pub proof fn lemma_hex_lower_len(bytes: Seq<u8>)
    ensures
        hex_lower(bytes).len() == 2 * bytes.len(),
    decreases bytes.len(),
{
    if bytes.len() > 0 {
        lemma_hex_lower_len(bytes.drop_last());
    }
}

fn lower_hex(v: u8) -> (res: char)
    requires
        v < 16,
    ensures
        res == lower_hex_char(v),
{
    if v < 10 {
        (0x30 + v) as char
    } else {
        (0x61 + v - 10) as char
    }
}

/// The lowercase hexadecimal rendering of bytes.
pub fn to_hex_lower(bytes: &[u8]) -> (res: String)
    ensures
        res@ == hex_lower(bytes@),
{
    let mut s = String::new();
    let mut i: usize = 0;
    while i < bytes.len()
        invariant
            0 <= i <= bytes.len(),
            s@ == hex_lower(bytes@.take(i as int)),
        decreases bytes.len() - i,
    {
        let b = bytes[i];
        s.push(lower_hex(b / 16));
        s.push(lower_hex(b % 16));
        assert(bytes@.take(i + 1).drop_last() =~= bytes@.take(i as int));
        i = i + 1;
    }
    assert(bytes@.take(bytes@.len() as int) =~= bytes@);
    s
}

impl EmailCompressor {
    /// Compresses `data` with `algorithm` at this compressor's level.
    pub fn compress(&self, data: &[u8], algorithm: CompressionAlgorithm) -> (res: Result<Vec<u8>, MailCrushError>)
        ensures
            res matches Ok(v) ==> v@ == spec_compressed(data@, algorithm, self.level()),
            res matches Ok(v) ==> (data@.len() <= u32::MAX || algorithm != CompressionAlgorithm::Lz4
                ==> spec_decompressed(v@, algorithm) == Some(data@)),
            res is Ok,
    {
        match algorithm {
            CompressionAlgorithm::NoCompression => {
                let mut v: Vec<u8> = Vec::new();
                crate::text::extend_bytes(&mut v, data);
                assert(v@ =~= data@);
                Ok(v)
            },
            CompressionAlgorithm::Lz4 => Ok(lz4_compress(data)),
            CompressionAlgorithm::Zstd => {
                let level = self.compression_level() as i32;
                match zstd_compress(data, level) {
                    Ok(v) => Ok(v),
                    Err(e) => {
                        let t = io_error_text(&e);
                        Err(MailCrushError::ConfigError(concat("Zstd compression failed: ", t.as_str())))
                    },
                }
            },
            CompressionAlgorithm::Gzip => {
                let level = self.compression_level() as u32;
                match gzip_compress(data, level) {
                    Ok(v) => Ok(v),
                    Err(e) => Err(MailCrushError::IoError(e)),
                }
            },
        }
    }

    /// Decompresses `data` that was compressed with `algorithm`.
    pub fn decompress(&self, data: &[u8], algorithm: CompressionAlgorithm) -> (res: Result<Vec<u8>, MailCrushError>)
        ensures
            res is Ok <==> spec_decompressed(data@, algorithm) is Some,
            res matches Ok(v) ==> v@ == spec_decompressed(data@, algorithm)->0,
            algorithm == CompressionAlgorithm::Gzip ==> (res matches Err(e) ==> e is IoError),
            algorithm != CompressionAlgorithm::Gzip ==> (res matches Err(e) ==> e is ConfigError),
    {
        match algorithm {
            CompressionAlgorithm::NoCompression => {
                let mut v: Vec<u8> = Vec::new();
                crate::text::extend_bytes(&mut v, data);
                assert(v@ =~= data@);
                Ok(v)
            },
            CompressionAlgorithm::Lz4 => match lz4_decompress(data) {
                Ok(v) => Ok(v),
                Err(e) => {
                    let t = lz4_error_text(&e);
                    Err(MailCrushError::ConfigError(concat("LZ4 decompression failed: ", t.as_str())))
                },
            },
            CompressionAlgorithm::Zstd => match zstd_decompress(data) {
                Ok(v) => Ok(v),
                Err(e) => {
                    let t = io_error_text(&e);
                    Err(MailCrushError::ConfigError(concat("Zstd decompression failed: ", t.as_str())))
                },
            },
            CompressionAlgorithm::Gzip => match gzip_decompress(data) {
                Ok(v) => Ok(v),
                Err(e) => Err(MailCrushError::IoError(e)),
            },
        }
    }

    /// The SHA-256 of `data` as 64 lowercase hexadecimal digits.
    pub fn hash_data(data: &[u8]) -> (res: String)
        ensures
            res@ == spec_hash_hex(data@),
            res@.len() == 64,
    {
        let digest = sha256_digest(data);
        proof {
            lemma_hex_lower_len(digest@);
        }
        to_hex_lower(digest.as_slice())
    }
}

} // verus!
