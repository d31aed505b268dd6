//! Compression algorithms and their selection by content type.

use vstd::prelude::*;

use crate::text::{
    chars_contain, chars_start_with, is_ascii_chars, lemma_ascii_lower_idempotent, seq_contains, seq_starts_with,
    spec_ascii_lower, spec_to_lowercase, str_chars, to_lowercase,
};

verus! {

/// Compression algorithm applied to one part.
#[derive(Debug, Clone, Copy, PartialEq, Eq, Structural)]
pub enum CompressionAlgorithm {
    /// No compression (already compressed or small data).
    NoCompression,
    /// LZ4: fast compression, good for text.
    Lz4,
    /// Zstd: balanced ratio and speed.
    Zstd,
    /// Gzip: general purpose.
    Gzip,
}


impl CompressionAlgorithm {
    /// The display name of the algorithm.
    pub fn name(&self) -> (res: &'static str)
        ensures
            res@ == spec_algorithm_name(*self),
    {
        match self {
            CompressionAlgorithm::NoCompression => "None",
            CompressionAlgorithm::Lz4 => "LZ4",
            CompressionAlgorithm::Zstd => "Zstd",
            CompressionAlgorithm::Gzip => "Gzip",
        }
    }
}

/// The display name of each algorithm.
pub open spec fn spec_algorithm_name(a: CompressionAlgorithm) -> Seq<char> {
    match a {
        CompressionAlgorithm::NoCompression => "None"@,
        CompressionAlgorithm::Lz4 => "LZ4"@,
        CompressionAlgorithm::Zstd => "Zstd"@,
        CompressionAlgorithm::Gzip => "Gzip"@,
    }
}

/// Content types (lowercased) whose data is already compressed by its format.
pub open spec fn is_compressed_format(ct: Seq<char>) -> bool {
    seq_contains(ct, "zip"@) || seq_contains(ct, "gzip"@) || seq_contains(ct, "compressed"@)
        || seq_contains(ct, "rar"@) || seq_contains(ct, "7z"@) || seq_contains(ct, "bz2"@)
        || seq_contains(ct, "xz"@)
}

/// Image subtypes that are already compressed.
pub open spec fn is_compressed_image(ct: Seq<char>) -> bool {
    seq_contains(ct, "png"@) || seq_contains(ct, "jpeg"@) || seq_contains(ct, "jpg"@)
        || seq_contains(ct, "gif"@) || seq_contains(ct, "webp"@)
}

/// Textual content: `text/*`, JSON or XML.
pub open spec fn is_textual(ct: Seq<char>) -> bool {
    seq_starts_with(ct, "text/"@) || seq_contains(ct, "json"@) || seq_contains(ct, "xml"@)
}

/// The algorithm chosen for data of length `len` whose lowercased content type
/// is `ct`, at compression level `level`.
pub open spec fn spec_select_algorithm(ct: Seq<char>, len: int, level: u8) -> CompressionAlgorithm {
    if len < 100 {
        CompressionAlgorithm::NoCompression
    } else if seq_starts_with(ct, "multipart/"@) {
        CompressionAlgorithm::NoCompression
    } else if is_compressed_format(ct) {
        CompressionAlgorithm::NoCompression
    } else if seq_starts_with(ct, "image/"@) {
        if is_compressed_image(ct) {
            CompressionAlgorithm::NoCompression
        } else {
            CompressionAlgorithm::Zstd
        }
    } else if seq_starts_with(ct, "video/"@) || seq_starts_with(ct, "audio/"@) {
        CompressionAlgorithm::NoCompression
    } else if is_textual(ct) {
        if level <= 3 {
            CompressionAlgorithm::Lz4
        } else {
            CompressionAlgorithm::Zstd
        }
    } else {
        // PDF, office documents and everything else
        CompressionAlgorithm::Zstd
    }
}

/// Chooses the algorithm for data of length `len` whose content type, already
/// lowercased, is `ct_lower`.
pub fn select_for_lowercase(ct_lower: &str, len: usize, level: u8) -> (res: CompressionAlgorithm)
    ensures
        res == spec_select_algorithm(ct_lower@, len as int, level),
{
    if len < 100 {
        return CompressionAlgorithm::NoCompression;
    }
    let ct = str_chars(ct_lower);
    if chars_start_with(&ct, "multipart/") {
        return CompressionAlgorithm::NoCompression;
    }
    if chars_contain(&ct, "zip") || chars_contain(&ct, "gzip") || chars_contain(&ct, "compressed")
        || chars_contain(&ct, "rar") || chars_contain(&ct, "7z") || chars_contain(&ct, "bz2")
        || chars_contain(&ct, "xz") {
        return CompressionAlgorithm::NoCompression;
    }
    if chars_start_with(&ct, "image/") {
        if chars_contain(&ct, "png") || chars_contain(&ct, "jpeg") || chars_contain(&ct, "jpg")
            || chars_contain(&ct, "gif") || chars_contain(&ct, "webp") {
            return CompressionAlgorithm::NoCompression;
        }
        return CompressionAlgorithm::Zstd;
    }
    if chars_start_with(&ct, "video/") || chars_start_with(&ct, "audio/") {
        return CompressionAlgorithm::NoCompression;
    }
    if chars_start_with(&ct, "text/") || chars_contain(&ct, "json") || chars_contain(&ct, "xml") {
        if level <= 3 {
            return CompressionAlgorithm::Lz4;
        }
        return CompressionAlgorithm::Zstd;
    }
    CompressionAlgorithm::Zstd
}

/// Email compressor holding the compression level used for every part.
pub struct EmailCompressor {
    compression_level: u8,
}

/// `level` clamped to the range 1..=9.
pub open spec fn clamp_level(level: u8) -> u8 {
    if level < 1 {
        1
    } else if level > 9 {
        9
    } else {
        level
    }
}

impl EmailCompressor {
    /// The level always lies within 1..=9.
    #[verifier::type_invariant]
    spec fn level_in_range(self) -> bool {
        1 <= self.compression_level <= 9
    }

    /// The compression level in use (always within 1..=9).
    pub closed spec fn level(&self) -> u8 {
        self.compression_level
    }

    /// A compressor with the given level, clamped to 1..=9.
    pub fn new(compression_level: u8) -> (res: Self)
        ensures
            res.level() == clamp_level(compression_level),
            1 <= res.level() <= 9,
    {
        let level = if compression_level < 1 {
            1
        } else if compression_level > 9 {
            9
        } else {
            compression_level
        };
        EmailCompressor { compression_level: level }
    }

    /// The compression level in use.
    pub fn compression_level(&self) -> (res: u8)
        ensures
            res == self.level(),
            1 <= res <= 9,
    {
        proof {
            use_type_invariant(self);
        }
        self.compression_level
    }

    /// The best compression algorithm for data with the given content type.
    pub fn select_algorithm(&self, content_type: &str, data: &[u8]) -> (res: CompressionAlgorithm)
        ensures
            res == spec_select_algorithm(spec_to_lowercase(content_type@), data@.len() as int, self.level()),
            is_ascii_chars(content_type@) ==> res == spec_select_algorithm(
                spec_ascii_lower(content_type@),
                data@.len() as int,
                self.level(),
            ),
            data@.len() < 100 ==> res == CompressionAlgorithm::NoCompression,
    {
        if data.len() < 100 {
            return CompressionAlgorithm::NoCompression;
        }
        let lower = to_lowercase(content_type);
        select_for_lowercase(lower.as_str(), data.len(), self.compression_level)
    }
}

/// Choosing an algorithm for an ASCII content type already made lowercase
/// gives the same choice as for the content type itself: lowering is done once
/// and for all.
pub proof fn lemma_select_on_lowered_type(ct: Seq<char>, len: int, level: u8)
    requires
        is_ascii_chars(ct),
    ensures
        is_ascii_chars(spec_ascii_lower(ct)),
        spec_select_algorithm(spec_ascii_lower(spec_ascii_lower(ct)), len, level) == spec_select_algorithm(
            spec_ascii_lower(ct),
            len,
            level,
        ),
{
    lemma_ascii_lower_idempotent(ct);
}

/// The level decides only between LZ4 and Zstandard for textual content; for
/// every other content type the choice is the same at every level, and Gzip
/// is never chosen.
pub proof fn lemma_level_only_for_text(ct: Seq<char>, len: int, l1: u8, l2: u8)
    ensures
        !is_textual(ct) ==> spec_select_algorithm(ct, len, l1) == spec_select_algorithm(ct, len, l2),
        spec_select_algorithm(ct, len, l1) != CompressionAlgorithm::Gzip,
{
}

/// Audio and video data is stored as it is: its formats are already
/// compressed, so for every length and every level a content type that starts
/// with `audio/` or `video/` selects no compression.
pub proof fn lemma_media_is_stored_uncompressed(ct: Seq<char>, len: int, level: u8)
    requires
        seq_starts_with(ct, "audio/"@) || seq_starts_with(ct, "video/"@),
    ensures
        spec_select_algorithm(ct, len, level) == CompressionAlgorithm::NoCompression,
{
    reveal_strlit("audio/");
    reveal_strlit("video/");
    reveal_strlit("multipart/");
    reveal_strlit("image/");
    assert(ct[0] == 'a' || ct[0] == 'v') by {
        if seq_starts_with(ct, "audio/"@) {
            assert(ct.subrange(0, 6)[0] == 'a');
        } else {
            assert(ct.subrange(0, 6)[0] == 'v');
        }
    }
    if seq_starts_with(ct, "multipart/"@) {
        assert(ct.subrange(0, 10)[0] == 'm');
    }
    if seq_starts_with(ct, "image/"@) {
        assert(ct.subrange(0, 6)[0] == 'i');
    }
}

} // verus!
