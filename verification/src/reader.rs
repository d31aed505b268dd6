//! Reading stored messages back: the `MCR5` archive layout and the
//! reassembly of a message from its structure and stored bodies.

use vstd::prelude::*;

use crate::algorithm::{CompressionAlgorithm, EmailCompressor};
use crate::archive::{
    algorithm_byte, algorithm_from_code, algorithm_of_byte, asc_order, encoding_byte, encoding_from_code,
    encoding_of_byte, lemma_asc_order_sorted_keys, lemma_codes_roundtrip, spec_hash_field, spec_meta_field,
    spec_part_record,
    lemma_placeholders_sorted, lemma_structure_roundtrip, lemma_u32_le_roundtrip, read_u32_le, spec_asc_order,
    spec_line_entries, spec_line_entry, spec_meta_bytes, spec_placeholders, spec_range_bodies, spec_ranges_chained,
    spec_read_u32, spec_reassemble, spec_structure, spec_u16_le, spec_u32_le, BodyRange, spec_records, spec_archive_of,
    spec_storage_ranges, spec_parts_rebuildable, lemma_archive_restores_message, spec_rebuilt_bodies, lemma_chain_within,
    Archive,
};
use crate::pipeline::{bytes_equal, spec_parts_sliceable, spec_reencoded, spec_stored_part};
use crate::mime::ParsedMail;
use crate::base64_lines::{byte_lists, spec_encode_base64, spec_encode_base64_with_meta, Base64Meta, MetaView};
use crate::codec::{spec_zstd_compress, spec_zstd_decompress, zstd_decompress};
use crate::compression::spec_decompressed;
use crate::error::MailCrushError;
use crate::mime::TransferEncoding;
use crate::quoted_printable::spec_encode_qp;
use crate::report::CompressedPart;
use vstd::utf8::encode_utf8;
use crate::text::{
    decimal, extend_bytes, push_decimal, push_str, spec_utf8_lossy, str_chars, string_from_chars, to_owned_string,
    utf8_lossy,
};

verus! {

/// One stored body as read from an archive.
#[derive(Debug)]
pub struct StoredPart {
    /// Where the body goes in the structure.
    pub placeholder_offset: usize,
    /// The algorithm the body was compressed with.
    pub algorithm: CompressionAlgorithm,
    /// The body's transfer encoding in the message.
    pub original_encoding: TransferEncoding,
    /// Whether the body was Base64-decoded before compression.
    pub was_base64_decoded: bool,
    /// The body's length in the message.
    pub original_body_len: usize,
    /// The compressed body.
    pub compressed_data: Vec<u8>,
    /// The recorded hash, with trailing NUL padding removed.
    pub hash: String,
    /// The line layout of a Base64 body, when one was recorded.
    pub base64_meta: Option<Base64Meta>,
    /// The archive layout the record was read from.
    pub layout: ArchiveLayout,
}

/// The two archive layouts: `MCR3`, with the structure stored as it is and
/// no Base64 line layouts, and `MCR5`, with the structure compressed and the
/// line layout of each Base64 body recorded.
#[derive(Debug, Clone, Copy, PartialEq, Eq, Structural)]
pub enum ArchiveLayout {
    Mcr3,
    Mcr5,
}

/// The mathematical content of a [`StoredPart`].
#[verifier::ext_equal]
pub struct StoredPartView {
    pub placeholder_offset: usize,
    pub algorithm: CompressionAlgorithm,
    pub original_encoding: TransferEncoding,
    pub was_base64_decoded: bool,
    pub original_body_len: usize,
    pub compressed_data: Seq<u8>,
    pub hash: Seq<char>,
    pub base64_meta: Option<MetaView>,
    pub layout: ArchiveLayout,
}

/// The view of an optional layout.
pub open spec fn meta_view(m: Option<Base64Meta>) -> Option<MetaView> {
    match m {
        Some(x) => Some(x@),
        None => None,
    }
}

impl View for StoredPart {
    type V = StoredPartView;

    open spec fn view(&self) -> StoredPartView {
        StoredPartView {
            placeholder_offset: self.placeholder_offset,
            algorithm: self.algorithm,
            original_encoding: self.original_encoding,
            was_base64_decoded: self.was_base64_decoded,
            original_body_len: self.original_body_len,
            compressed_data: self.compressed_data@,
            hash: self.hash@,
            base64_meta: meta_view(self.base64_meta),
            layout: self.layout,
        }
    }
}

/// A stored message as read from an archive.
#[derive(Debug)]
pub struct StoredMail {
    /// The size of the original message.
    pub original_size: usize,
    /// The message with its stored bodies cut out.
    pub structure: Vec<u8>,
    /// The stored bodies, in archive order.
    pub parts: Vec<StoredPart>,
}

/// The views of a list of stored parts.
pub open spec fn part_views(v: Seq<StoredPart>) -> Seq<StoredPartView> {
    v.map_values(|p: StoredPart| p@)
}

/// `s` without its trailing NUL characters.
pub open spec fn spec_trim_nul(s: Seq<char>) -> Seq<char>
    decreases s.len(),
{
    if s.len() > 0 && s.last() == '\0' {
        spec_trim_nul(s.drop_last())
    } else {
        s
    }
}

/// `s` without its trailing NUL characters.
fn trim_nul(s: &String) -> (res: String)
    ensures
        res@ == spec_trim_nul(s@),
{
    let chars = str_chars(s.as_str());
    let mut end: usize = chars.len();
    assert(chars@.take(chars@.len() as int) =~= chars@);
    while end > 0 && chars[end - 1] == '\0'
        invariant
            0 <= end <= chars@.len(),
            chars@ == s@,
            spec_trim_nul(chars@.take(end as int)) == spec_trim_nul(s@),
        decreases end,
    {
        assert(chars@.take(end as int).drop_last() =~= chars@.take(end - 1));
        end = end - 1;
    }
    let mut out: Vec<char> = Vec::new();
    let mut i: usize = 0;
    while i < end
        invariant
            0 <= i <= end <= chars@.len(),
            out@ == chars@.take(i as int),
        decreases end - i,
    {
        out.push(chars[i]);
        assert(out@ =~= chars@.take(i + 1));
        i = i + 1;
    }
    assert(spec_trim_nul(chars@.take(end as int)) == chars@.take(end as int));
    string_from_chars(&out)
}

/// The number whose little-endian bytes are `b[i..i + 2]`.
pub open spec fn spec_read_u16(b: Seq<u8>, i: int) -> int {
    b[i] + 256 * b[i + 1]
}

/// Reading `k` line entries of a serialized Base64 layout from `off` on: the
/// line lengths, endings and trailing whitespace, and the offset after them.
pub open spec fn spec_parse_lines(f: Seq<u8>, off: int, k: nat) -> Option<(Seq<usize>, Seq<bool>, Seq<Seq<u8>>, int)>
    decreases k,
{
    if k == 0 {
        Some((Seq::empty(), Seq::empty(), Seq::empty(), off))
    } else if off < 0 || off + 4 > f.len() {
        None
    } else {
        let wl = f[off + 3] as int;
        if off + 4 + wl > f.len() {
            None
        } else {
            match spec_parse_lines(f, off + 4 + wl, (k - 1) as nat) {
                None => None,
                Some((l, e, w, next)) => Some(
                    (
                        seq![spec_read_u16(f, off) as usize] + l,
                        seq![f[off + 2] != 0] + e,
                        seq![f.subrange(off + 4, off + 4 + wl)] + w,
                        next,
                    ),
                ),
            }
        }
    }
}

/// Reading a serialized Base64 layout: the number of lines, their entries, and
/// the byte that says whether a line ending follows the last line.
pub open spec fn spec_parse_meta(f: Seq<u8>) -> Option<MetaView> {
    if f.len() < 4 {
        None
    } else {
        match spec_parse_lines(f, 4, spec_read_u32(f, 0) as nat) {
            None => None,
            Some((l, e, w, next)) => if next + 1 > f.len() {
                None
            } else {
                Some(
                    MetaView { line_lengths: l, line_endings: e, has_trailing_newline: f[next] != 0, trailing_whitespace: w },
                )
            },
        }
    }
}

/// The part a record at `off` describes, with its algorithm, encoding,
/// recorded line layout and archive layout.
pub open spec fn spec_part_view(
    data: Seq<u8>,
    off: int,
    algorithm: CompressionAlgorithm,
    encoding: TransferEncoding,
    meta: Option<MetaView>,
    layout: ArchiveLayout,
) -> StoredPartView {
    let hstart = off + 15 + spec_read_u32(data, off + 11);
    StoredPartView {
        placeholder_offset: spec_read_u32(data, off) as usize,
        algorithm,
        original_encoding: encoding,
        was_base64_decoded: data[off + 6] != 0,
        original_body_len: spec_read_u32(data, off + 7) as usize,
        compressed_data: data.subrange(off + 15, hstart),
        hash: spec_trim_nul(spec_utf8_lossy(data.subrange(hstart, hstart + 64))),
        base64_meta: meta,
        layout,
    }
}

/// Reading one part record at `off` in the given layout: the part and the
/// offset after it, or the message of the error. An `MCR3` record ends with
/// its hash; an `MCR5` record goes on with its Base64 line layout.
pub open spec fn spec_parse_part(data: Seq<u8>, off: int, layout: ArchiveLayout) -> Result<(StoredPartView, int), Seq<char>> {
    if off + 15 > data.len() {
        Err("File truncated: part header extends beyond file"@)
    } else {
        let algo_byte = data[off + 4];
        let enc_byte = data[off + 5];
        let clen = spec_read_u32(data, off + 11);
        let dstart = off + 15;
        let hstart = dstart + clen;
        let mstart = hstart + 64;
        match algorithm_of_byte(algo_byte) {
            None => Err("Unknown compression algorithm: "@ + decimal(algo_byte as nat)),
            Some(algorithm) => match encoding_of_byte(enc_byte) {
                None => Err("Unknown encoding: "@ + decimal(enc_byte as nat)),
                Some(encoding) => {
                    if hstart > data.len() {
                        Err("File truncated: compressed data extends beyond file"@)
                    } else if mstart > data.len() {
                        Err("File truncated: hash extends beyond file"@)
                    } else if layout == ArchiveLayout::Mcr3 {
                        Ok((spec_part_view(data, off, algorithm, encoding, None, layout), mstart))
                    } else if mstart + 4 > data.len() {
                        Err("File truncated: layout size extends beyond file"@)
                    } else {
                        let mlen = spec_read_u32(data, mstart);
                        let mend = mstart + 4 + mlen;
                        if mend > data.len() {
                            Err("File truncated: layout extends beyond file"@)
                        } else if mlen == 0 {
                            Ok((spec_part_view(data, off, algorithm, encoding, None, layout), mend))
                        } else {
                            match spec_parse_meta(data.subrange(mstart + 4, mend)) {
                                Some(m) => Ok((spec_part_view(data, off, algorithm, encoding, Some(m), layout), mend)),
                                None => Err("Invalid Base64 layout"@),
                            }
                        }
                    }
                },
            },
        }
    }
}

/// Reading `k` part records of the given layout from `off` on.
pub open spec fn spec_parse_parts(data: Seq<u8>, off: int, k: nat, layout: ArchiveLayout) -> Result<Seq<StoredPartView>, Seq<char>>
    decreases k,
{
    if k == 0 {
        Ok(Seq::empty())
    } else {
        match spec_parse_part(data, off, layout) {
            Err(m) => Err(m),
            Ok((p, next)) => match spec_parse_parts(data, next, (k - 1) as nat, layout) {
                Err(m) => Err(m),
                Ok(rest) => Ok(seq![p] + rest),
            },
        }
    }
}

/// The view of a stored message.
#[verifier::ext_equal]
pub struct StoredMailView {
    pub original_size: usize,
    pub structure: Seq<u8>,
    pub parts: Seq<StoredPartView>,
}

/// The magic bytes `MCR5` that open an archive.
pub open spec fn spec_magic() -> Seq<u8> {
    seq![0x4du8, 0x43u8, 0x52u8, 0x35u8]
}

/// The magic bytes `MCR3` of the earlier layout.
pub open spec fn spec_magic3() -> Seq<u8> {
    seq![0x4du8, 0x43u8, 0x52u8, 0x33u8]
}

/// Reading an archive. Both layouts open with a 16-byte header: the magic,
/// the message size, the number of parts and the structure size. In `MCR3`
/// the structure follows as it is; in `MCR5` the size of the compressed
/// structure comes next, then the compressed structure, which must decompress
/// to the recorded size. The part records follow. Any other magic, or missing
/// bytes, gives the message of the error.
pub open spec fn spec_parse_stored(data: Seq<u8>) -> Result<StoredMailView, Seq<char>> {
    if data.len() < 16 {
        Err("File too small to be a valid MCR file"@)
    } else if data.take(4) == spec_magic3() {
        let structure_len = spec_read_u32(data, 12);
        if 16 + structure_len > data.len() {
            Err("File truncated: structure data extends beyond file"@)
        } else {
            match spec_parse_parts(data, 16 + structure_len, spec_read_u32(data, 8) as nat, ArchiveLayout::Mcr3) {
                Err(m) => Err(m),
                Ok(parts) => Ok(
                    StoredMailView {
                        original_size: spec_read_u32(data, 4) as usize,
                        structure: data.subrange(16, 16 + structure_len),
                        parts,
                    },
                ),
            }
        }
    } else if data.take(4) != spec_magic() {
        Err("Invalid magic number: expected 'MCR3' or 'MCR5', got '"@ + spec_utf8_lossy(data.take(4)) + "'"@)
    } else if data.len() < 20 {
        Err("File too small to be a valid MCR file"@)
    } else {
        let cs_len = spec_read_u32(data, 16);
        if 20 + cs_len > data.len() {
            Err("File truncated: structure data extends beyond file"@)
        } else {
            match spec_zstd_decompress(data.subrange(20, 20 + cs_len)) {
                None => Err("Failed to decompress structure"@),
                Some(st) => if st.len() != spec_read_u32(data, 12) {
                    Err("Structure size does not match the header"@)
                } else {
                    match spec_parse_parts(data, 20 + cs_len, spec_read_u32(data, 8) as nat, ArchiveLayout::Mcr5) {
                        Err(m) => Err(m),
                        Ok(parts) => Ok(
                            StoredMailView { original_size: spec_read_u32(data, 4) as usize, structure: st, parts },
                        ),
                    }
                },
            }
        }
    }
}

impl StoredMail {
    /// The view of a stored message.
    pub open spec fn view_of(&self) -> StoredMailView {
        StoredMailView {
            original_size: self.original_size,
            structure: self.structure@,
            parts: part_views(self.parts@),
        }
    }
}

/// A parse error with the given message.
fn parse_error(msg: &str) -> (res: MailCrushError)
    ensures
        res matches MailCrushError::ParseError(s) && s@ == msg@,
{
    MailCrushError::ParseError(to_owned_string(msg))
}

/// A copy of the bytes `data[start..end]`.
fn copy_bytes(data: &[u8], start: usize, end: usize) -> (res: Vec<u8>)
    requires
        start <= end <= data@.len(),
    ensures
        res@ == data@.subrange(start as int, end as int),
{
    let mut v: Vec<u8> = Vec::new();
    extend_bytes(&mut v, &data[start..end]);
    v
}

/// Reads a serialized Base64 layout (see [`spec_parse_meta`]).
pub fn parse_meta(f: &[u8]) -> (res: Option<Base64Meta>)
    ensures
        meta_view(res) == spec_parse_meta(f@),
{
    if f.len() < 4 {
        return None;
    }
    let n = read_u32_le(f, 0);
    let ghost total = spec_parse_lines(f@, 4, n as nat);
    let mut lens: Vec<usize> = Vec::new();
    let mut ends: Vec<bool> = Vec::new();
    let mut wss: Vec<Vec<u8>> = Vec::new();
    let mut off: usize = 4;
    let mut i: u32 = 0;
    while i < n
        invariant
            0 <= i <= n,
            4 <= off <= f@.len(),
            n as int == spec_read_u32(f@, 0),
            total == spec_parse_lines(f@, 4, n as nat),
            total == match spec_parse_lines(f@, off as int, (n - i) as nat) {
                Some((l, e, w, next)) => Some((lens@ + l, ends@ + e, byte_lists(wss@) + w, next)),
                None => None,
            },
        decreases n - i,
    {
        if off > f.len() - 4 {
            assert(spec_parse_lines(f@, off as int, (n - i) as nat) is None);
            assert(total is None);
            assert(spec_parse_lines(f@, 4, spec_read_u32(f@, 0) as nat) is None);
            assert(spec_parse_meta(f@) is None);
            return None;
        }
        let len = f[off] as usize + 256 * (f[off + 1] as usize);
        let crlf = f[off + 2] != 0;
        let wl = f[off + 3] as usize;
        if wl > f.len() - off - 4 {
            assert(spec_parse_lines(f@, off as int, (n - i) as nat) is None);
            assert(total is None);
            assert(spec_parse_lines(f@, 4, spec_read_u32(f@, 0) as nat) is None);
            assert(spec_parse_meta(f@) is None);
            return None;
        }
        let ws = copy_bytes(f, off + 4, off + 4 + wl);
        let ghost before = (lens@, ends@, byte_lists(wss@));
        lens.push(len);
        ends.push(crlf);
        wss.push(ws);
        assert(byte_lists(wss@) =~= before.2.push(ws@));
        proof {
            match spec_parse_lines(f@, (off + 4 + wl) as int, (n - i - 1) as nat) {
                Some((l, e, w, next)) => {
                    assert(before.0 + (seq![len] + l) =~= lens@ + l);
                    assert(before.1 + (seq![crlf] + e) =~= ends@ + e);
                    assert(before.2 + (seq![ws@] + w) =~= byte_lists(wss@) + w);
                },
                None => {},
            }
        }
        off = off + 4 + wl;
        i = i + 1;
    }
    if off >= f.len() {
        return None;
    }
    let trailing = f[off] != 0;
    assert(lens@ + Seq::<usize>::empty() =~= lens@);
    assert(ends@ + Seq::<bool>::empty() =~= ends@);
    assert(byte_lists(wss@) + Seq::<Seq<u8>>::empty() =~= byte_lists(wss@));
    let meta = Base64Meta { line_lengths: lens, line_endings: ends, has_trailing_newline: trailing, trailing_whitespace: wss };
    assert(meta@ =~= spec_parse_meta(f@)->0);
    Some(meta)
}

/// Reads the part record at `off` in the given layout.
fn parse_part(data: &[u8], off: usize, layout: ArchiveLayout) -> (res: Result<(StoredPart, usize), MailCrushError>)
    ensures
        match spec_parse_part(data@, off as int, layout) {
            Ok((p, next)) => res matches Ok((q, n)) && q@ == p && n == next,
            Err(m) => res matches Err(MailCrushError::ParseError(s)) && s@ == m,
        },
{
    if data.len() < 15 || off > data.len() - 15 {
        return Err(parse_error("File truncated: part header extends beyond file"));
    }
    let placeholder = read_u32_le(data, off);
    let algo_byte = data[off + 4];
    let enc_byte = data[off + 5];
    let was_base64_decoded = data[off + 6] != 0;
    let body_len = read_u32_le(data, off + 7);
    let clen = read_u32_le(data, off + 11) as usize;
    let algorithm = match algorithm_from_code(algo_byte) {
        Some(a) => a,
        None => {
            let mut m = to_owned_string("Unknown compression algorithm: ");
            push_decimal(&mut m, algo_byte as usize);
            return Err(MailCrushError::ParseError(m));
        },
    };
    let original_encoding = match encoding_from_code(enc_byte) {
        Some(e) => e,
        None => {
            let mut m = to_owned_string("Unknown encoding: ");
            push_decimal(&mut m, enc_byte as usize);
            return Err(MailCrushError::ParseError(m));
        },
    };
    let dstart = off + 15;
    if clen > data.len() - dstart {
        return Err(parse_error("File truncated: compressed data extends beyond file"));
    }
    let hstart = dstart + clen;
    if 64 > data.len() - hstart {
        return Err(parse_error("File truncated: hash extends beyond file"));
    }
    let mstart = hstart + 64;
    let (base64_meta, next) = if layout == ArchiveLayout::Mcr3 {
        (None, mstart)
    } else {
        if 4 > data.len() - mstart {
            return Err(parse_error("File truncated: layout size extends beyond file"));
        }
        let mlen = read_u32_le(data, mstart) as usize;
        if mlen > data.len() - mstart - 4 {
            return Err(parse_error("File truncated: layout extends beyond file"));
        }
        let mend = mstart + 4 + mlen;
        if mlen == 0 {
            (None, mend)
        } else {
            match parse_meta(&data[mstart + 4..mend]) {
                Some(m) => (Some(m), mend),
                None => {
                    return Err(parse_error("Invalid Base64 layout"));
                },
            }
        }
    };
    let compressed_data = copy_bytes(data, dstart, hstart);
    let lossy = utf8_lossy(&data[hstart..mstart]);
    let hash = trim_nul(&lossy);
    let part = StoredPart {
        placeholder_offset: placeholder as usize,
        algorithm,
        original_encoding,
        was_base64_decoded,
        original_body_len: body_len as usize,
        compressed_data,
        hash,
        base64_meta,
        layout,
    };
    proof {
        let sp = spec_parse_part(data@, off as int, layout);
        assert(sp matches Ok((p, n)) && part@ =~= p && n == next);
    }
    Ok((part, next))
}

/// Reads `num_parts` part records of the given layout from `start` on.
fn parse_parts(data: &[u8], start: usize, num_parts: usize, layout: ArchiveLayout) -> (res: Result<Vec<StoredPart>, MailCrushError>)
    ensures
        match spec_parse_parts(data@, start as int, num_parts as nat, layout) {
            Ok(v) => res matches Ok(ps) && part_views(ps@) == v,
            Err(m) => res matches Err(MailCrushError::ParseError(s)) && s@ == m,
        },
{
    let ghost total = spec_parse_parts(data@, start as int, num_parts as nat, layout);
    let mut parts: Vec<StoredPart> = Vec::new();
    let mut offset = start;
    let mut i: usize = 0;
    assert(part_views(parts@) =~= Seq::<StoredPartView>::empty());
    while i < num_parts
        invariant
            0 <= i <= num_parts,
            total == spec_parse_parts(data@, start as int, num_parts as nat, layout),
            total == match spec_parse_parts(data@, offset as int, (num_parts - i) as nat, layout) {
                Ok(rest) => Ok(part_views(parts@) + rest),
                Err(m) => Err(m),
            },
        decreases num_parts - i,
    {
        let ghost before = part_views(parts@);
        let (part, next) = match parse_part(data, offset, layout) {
            Ok(pn) => pn,
            Err(e) => {
                proof {
                    match spec_parse_part(data@, offset as int, layout) {
                        Err(m) => {
                            assert(spec_parse_parts(data@, offset as int, (num_parts - i) as nat, layout)
                                == Err::<Seq<StoredPartView>, Seq<char>>(m));
                        },
                        Ok(_) => {},
                    }
                }
                return Err(e);
            },
        };
        parts.push(part);
        assert(part_views(parts@) =~= before.push(part@));
        proof {
            match spec_parse_parts(data@, next as int, (num_parts - i - 1) as nat, layout) {
                Ok(rest) => {
                    assert(before + (seq![part@] + rest) =~= part_views(parts@) + rest);
                },
                Err(m) => {},
            }
        }
        offset = next;
        i = i + 1;
    }
    assert(part_views(parts@) + Seq::<StoredPartView>::empty() =~= part_views(parts@));
    Ok(parts)
}

/// Reads an archive of either layout (see [`spec_parse_stored`]); every error
/// is a parse error whose message says what is wrong.
#[verifier::rlimit(60)]
#[verifier::spinoff_prover]
pub fn parse_stored_mail(data: &[u8]) -> (res: Result<StoredMail, MailCrushError>)
    ensures
        match spec_parse_stored(data@) {
            Ok(v) => res matches Ok(m) && m.view_of() == v,
            Err(msg) => res matches Err(MailCrushError::ParseError(s)) && s@ == msg,
        },
{
    if data.len() < 16 {
        return Err(parse_error("File too small to be a valid MCR file"));
    }
    proof {
        assert(data@.take(4)[0] == data@[0]);
        assert(data@.take(4)[1] == data@[1]);
        assert(data@.take(4)[2] == data@[2]);
        assert(data@.take(4)[3] == data@[3]);
    }
    let original_size = read_u32_le(data, 4) as usize;
    let num_parts = read_u32_le(data, 8) as usize;
    let structure_len = read_u32_le(data, 12) as usize;
    if data[0] == 0x4d && data[1] == 0x43 && data[2] == 0x52 && data[3] == 0x33 {
        assert(data@.take(4) =~= spec_magic3());
        if structure_len > data.len() - 16 {
            return Err(parse_error("File truncated: structure data extends beyond file"));
        }
        let structure_end = 16 + structure_len;
        let structure = copy_bytes(data, 16, structure_end);
        let parts = parse_parts(data, structure_end, num_parts, ArchiveLayout::Mcr3)?;
        let mail = StoredMail { original_size, structure, parts };
        assert(mail.view_of() =~= spec_parse_stored(data@)->Ok_0);
        return Ok(mail);
    }
    assert(data@.take(4) != spec_magic3());
    if !(data[0] == 0x4d && data[1] == 0x43 && data[2] == 0x52 && data[3] == 0x35) {
        assert(data@.take(4) != spec_magic());
        let got = utf8_lossy(&data[0..4]);
        assert(data@.subrange(0, 4) =~= data@.take(4));
        let mut m = to_owned_string("Invalid magic number: expected 'MCR3' or 'MCR5', got '");
        push_str(&mut m, got.as_str());
        push_str(&mut m, "'");
        return Err(MailCrushError::ParseError(m));
    }
    assert(data@.take(4) =~= spec_magic());
    if data.len() < 20 {
        return Err(parse_error("File too small to be a valid MCR file"));
    }
    let cs_len = read_u32_le(data, 16) as usize;
    if cs_len > data.len() - 20 {
        return Err(parse_error("File truncated: structure data extends beyond file"));
    }
    let cs_end = 20 + cs_len;
    let structure = match zstd_decompress(&data[20..cs_end]) {
        Ok(s) => s,
        Err(_) => {
            return Err(parse_error("Failed to decompress structure"));
        },
    };
    if structure.len() != structure_len {
        return Err(parse_error("Structure size does not match the header"));
    }
    let parts = parse_parts(data, cs_end, num_parts, ArchiveLayout::Mcr5)?;
    let mail = StoredMail { original_size, structure, parts };
    assert(mail.view_of() =~= spec_parse_stored(data@)->Ok_0);
    Ok(mail)
}


/// A body encoded again as a stored part says it was encoded. From an `MCR5`
/// record: Base64 along its recorded layout (or in standard lines when none
/// was recorded), quoted-printable, or left as it is. From an `MCR3` record:
/// Base64 in standard lines when it was decoded for storage, else as it is.
pub open spec fn spec_stored_reencoded(p: StoredPartView, d: Seq<u8>) -> Seq<u8> {
    if p.layout == ArchiveLayout::Mcr3 {
        if p.was_base64_decoded {
            spec_encode_base64(d)
        } else {
            d
        }
    } else if p.original_encoding == TransferEncoding::Base64 && p.was_base64_decoded {
        match p.base64_meta {
            Some(m) => spec_encode_base64_with_meta(d, m),
            None => spec_encode_base64(d),
        }
    } else if p.original_encoding == TransferEncoding::QuotedPrintable {
        spec_encode_qp(d)
    } else {
        d
    }
}

/// The body a stored part gives back: its data decompressed and encoded again.
pub open spec fn spec_stored_body(p: StoredPartView) -> Option<Seq<u8>> {
    match spec_decompressed(p.compressed_data, p.algorithm) {
        Some(d) => Some(spec_stored_reencoded(p, d)),
        None => None,
    }
}

/// The body a stored part gives back, or nothing when it cannot be decompressed.
pub open spec fn spec_body_or_empty(p: StoredPartView) -> Seq<u8> {
    match spec_stored_body(p) {
        Some(b) => b,
        None => Seq::empty(),
    }
}

/// The placeholder positions of the parts.
pub open spec fn spec_placeholder_keys(parts: Seq<StoredPartView>) -> Seq<usize> {
    parts.map_values(|p: StoredPartView| p.placeholder_offset)
}

/// The parts sorted by placeholder position, stably.
pub open spec fn spec_by_placeholder(parts: Seq<StoredPartView>) -> Seq<StoredPartView> {
    spec_asc_order(spec_placeholder_keys(parts), parts.len() as int).map_values(|k: usize| parts[k as int])
}

/// Every placeholder lies within the structure.
pub open spec fn spec_placeholders_within(m: StoredMailView) -> bool {
    forall|i: int| 0 <= i < m.parts.len() ==> (#[trigger] m.parts[i]).placeholder_offset <= m.structure.len()
}

/// The message rebuilt from a stored message: the parts taken in order of
/// their placeholders, each body put back at its placeholder.
pub open spec fn spec_reassembled(m: StoredMailView) -> Seq<u8> {
    let sorted = spec_by_placeholder(m.parts);
    spec_reassemble(
        m.structure,
        spec_placeholder_keys(sorted),
        sorted.map_values(|p: StoredPartView| spec_body_or_empty(p)),
        0,
        0,
    )
}

/// Whether every placeholder lies within the structure.
pub fn placeholders_within(mail: &StoredMail) -> (res: bool)
    ensures
        res == spec_placeholders_within(mail.view_of()),
{
    let mut i: usize = 0;
    while i < mail.parts.len()
        invariant
            0 <= i <= mail.parts@.len(),
            forall|j: int| 0 <= j < i ==> (#[trigger] mail.parts@[j]).placeholder_offset <= mail.structure@.len(),
        decreases mail.parts.len() - i,
    {
        if mail.parts[i].placeholder_offset > mail.structure.len() {
            assert(part_views(mail.parts@)[i as int] == mail.parts@[i as int]@);
            return false;
        }
        i = i + 1;
    }
    assert forall|j: int| 0 <= j < mail.parts@.len() implies (#[trigger] part_views(mail.parts@)[j]).placeholder_offset
        <= mail.structure@.len() by {
        assert(part_views(mail.parts@)[j] == mail.parts@[j]@);
    }
    true
}

/// Rebuilds the message from a stored message (see [`spec_reassembled`]).
///
/// Fails with the decompression error of the first part, in placeholder
/// order, whose data does not decompress.
pub fn reassemble(mail: &StoredMail) -> (res: Result<Vec<u8>, MailCrushError>)
    requires
        spec_placeholders_within(mail.view_of()),
    ensures
        res is Ok <==> forall|k: int| #![trigger spec_by_placeholder(part_views(mail.parts@))[k]] 0 <= k < mail.parts@.len()
            ==> spec_stored_body(spec_by_placeholder(part_views(mail.parts@))[k]) is Some,
        res matches Ok(v) ==> v@ == spec_reassembled(mail.view_of()),
        res matches Err(e) ==> e is ConfigError || e is IoError,
{
    let ghost views = part_views(mail.parts@);
    let ghost sorted = spec_by_placeholder(views);
    let ghost phs = spec_placeholder_keys(sorted);
    let ghost bodies = sorted.map_values(|p: StoredPartView| spec_body_or_empty(p));
    let ghost structure = mail.structure@;
    let ghost total = spec_reassemble(structure, phs, bodies, 0, 0);
    let mut keys: Vec<usize> = Vec::new();
    let mut i: usize = 0;
    while i < mail.parts.len()
        invariant
            0 <= i <= mail.parts@.len(),
            views == part_views(mail.parts@),
            keys@ == spec_placeholder_keys(views).take(i as int),
        decreases mail.parts.len() - i,
    {
        keys.push(mail.parts[i].placeholder_offset);
        assert(keys@ =~= spec_placeholder_keys(views).take(i + 1));
        i = i + 1;
    }
    assert(keys@ =~= spec_placeholder_keys(views));
    let order = asc_order(&keys);
    assert(sorted.len() == order@.len());
    let compressor = EmailCompressor::new(6);
    let mut out: Vec<u8> = Vec::new();
    let mut pos: usize = 0;
    let mut k: usize = 0;
    assert(out@ + spec_reassemble(structure, phs, bodies, 0, 0) =~= total);
    while k < order.len()
        invariant
            0 <= k <= order@.len(),
            views == part_views(mail.parts@),
            structure == mail.structure@,
            order@ == spec_asc_order(spec_placeholder_keys(views), views.len() as int),
            order@.len() == views.len(),
            forall|j: int| 0 <= j < order@.len() ==> order@[j] < views.len(),
            sorted == spec_by_placeholder(views),
            phs == spec_placeholder_keys(sorted),
            bodies == sorted.map_values(|p: StoredPartView| spec_body_or_empty(p)),
            spec_placeholders_within(mail.view_of()),
            pos <= structure.len(),
            out@ + spec_reassemble(structure, phs, bodies, k as int, pos as int) == total,
            forall|j: int| #![trigger sorted[j]] 0 <= j < k ==> spec_stored_body(sorted[j]) is Some,
        decreases order.len() - k,
    {
        let part = &mail.parts[order[k]];
        assert(sorted[k as int] == views[order@[k as int] as int]);
        assert(views[order@[k as int] as int] == part@);
        let ph = part.placeholder_offset;
        assert(phs[k as int] == ph);
        assert(ph <= structure.len()) by {
            assert(views[order@[k as int] as int].placeholder_offset <= structure.len());
        }
        let ghost before = out@;
        if ph > pos {
            extend_bytes(&mut out, &mail.structure.as_slice()[pos..ph]);
        }
        let decompressed = match compressor.decompress(part.compressed_data.as_slice(), part.algorithm) {
            Ok(d) => d,
            Err(e) => {
                assert(spec_stored_body(sorted[k as int]) is None);
                return Err(e);
            },
        };
        let body = if part.layout == ArchiveLayout::Mcr3 {
            if part.was_base64_decoded {
                EmailCompressor::encode_base64(decompressed.as_slice())
            } else {
                decompressed
            }
        } else if part.original_encoding == TransferEncoding::Base64 && part.was_base64_decoded {
            match &part.base64_meta {
                Some(meta) => EmailCompressor::encode_base64_with_meta(decompressed.as_slice(), meta),
                None => EmailCompressor::encode_base64(decompressed.as_slice()),
            }
        } else if part.original_encoding == TransferEncoding::QuotedPrintable {
            EmailCompressor::encode_quoted_printable(decompressed.as_slice())
        } else {
            decompressed
        };
        assert(bodies[k as int] == body@);
        extend_bytes(&mut out, body.as_slice());
        assert(out@ + spec_reassemble(structure, phs, bodies, k + 1, ph as int) =~= before + spec_reassemble(
            structure,
            phs,
            bodies,
            k as int,
            pos as int,
        ));
        pos = ph;
        k = k + 1;
    }
    if pos < mail.structure.len() {
        extend_bytes(&mut out, &mail.structure.as_slice()[pos..mail.structure.len()]);
    }
    assert(out@ =~= total);
    Ok(out)
}


/// Whether `data` reads back as `raw`: it parses, every placeholder lies
/// within its structure, every stored body decompresses, and reassembling it
/// gives `raw`.
#[verifier::opaque]
pub open spec fn spec_reads_back(data: Seq<u8>, raw: Seq<u8>) -> bool {
    match spec_parse_stored(data) {
        Ok(v) => {
            &&& spec_placeholders_within(v)
            &&& forall|k: int| 0 <= k < v.parts.len() ==> spec_stored_body(#[trigger] spec_by_placeholder(v.parts)[k]) is Some
            &&& spec_reassembled(v) == raw
        },
        Err(_) => false,
    }
}

/// Reads `data` back as an archive and tells whether it gives `raw` (see
/// [`spec_reads_back`]).
pub fn reads_back(data: &[u8], raw: &[u8]) -> (res: bool)
    ensures
        res == spec_reads_back(data@, raw@),
{
    reveal(spec_reads_back);
    let stored = match parse_stored_mail(data) {
        Ok(m) => m,
        Err(_) => return false,
    };
    if !placeholders_within(&stored) {
        return false;
    }
    match reassemble(&stored) {
        Ok(v) => bytes_equal(v.as_slice(), raw),
        Err(_) => false,
    }
}

/// A stored message whose structure is a message with bodies cut out along
/// `r`, whose placeholders are where those bodies stood, and whose parts give
/// the cut-out bodies back, is reassembled into the message.
pub proof fn lemma_stored_split_roundtrip(raw: Seq<u8>, r: Seq<BodyRange>, m: StoredMailView)
    requires
        spec_ranges_chained(r, raw.len() as int),
        raw.len() <= usize::MAX,
        r.len() <= usize::MAX,
        m.structure == spec_structure(raw, r, 0, 0),
        m.parts.len() == r.len(),
        forall|i: int| #![trigger m.parts[i]] 0 <= i < r.len() ==> m.parts[i].placeholder_offset == spec_placeholders(r, 0, 0, 0)[i]
            && spec_stored_body(m.parts[i]) == Some(raw.subrange(r[i].offset_body as int, r[i].offset_end as int)),
    ensures
        spec_reassembled(m) == raw,
        spec_by_placeholder(m.parts) == m.parts,
{
    let phs = spec_placeholders(r, 0, 0, 0);
    let keys = spec_placeholder_keys(m.parts);
    assert(keys =~= phs) by {
        lemma_placeholders_sorted(raw.len() as int, r, 0, 0, 0);
        assert forall|i: int| 0 <= i < keys.len() implies keys[i] == phs[i] by {
            assert(keys[i] == m.parts[i].placeholder_offset);
        }
    }
    let sorted = spec_by_placeholder(m.parts);
    assert(sorted =~= m.parts) by {
        lemma_placeholders_sorted(raw.len() as int, r, 0, 0, 0);
        lemma_asc_order_sorted_keys(keys, m.parts.len() as int);
        let o = spec_asc_order(keys, m.parts.len() as int);
        assert forall|i: int| 0 <= i < sorted.len() implies sorted[i] == m.parts[i] by {
            assert(o[i] as int == i);
        }
    }
    let bodies = sorted.map_values(|p: StoredPartView| spec_body_or_empty(p));
    assert(bodies =~= spec_range_bodies(raw, r)) by {
        assert forall|i: int| 0 <= i < bodies.len() implies bodies[i] == spec_range_bodies(raw, r)[i] by {
            assert(bodies[i] == spec_body_or_empty(m.parts[i]));
        }
    }
    assert(spec_placeholder_keys(sorted) =~= phs);
    lemma_structure_roundtrip(raw, r);
}


/// A layout that its serialized form holds without loss: one ending and one
/// run of trailing whitespace per line, line lengths that fit two bytes, runs
/// of whitespace that fit one, and a count and total size that fit four.
pub open spec fn spec_meta_storable(m: MetaView) -> bool {
    &&& m.line_endings.len() == m.line_lengths.len()
    &&& m.trailing_whitespace.len() == m.line_lengths.len()
    &&& m.line_lengths.len() <= u32::MAX
    &&& forall|i: int| 0 <= i < m.line_lengths.len() ==> #[trigger] m.line_lengths[i] <= 0xffff
        && m.trailing_whitespace[i].len() <= 0xff
    &&& spec_meta_bytes(m).len() <= u32::MAX
}

proof fn lemma_read_u32_at(data: Seq<u8>, off: int, v: u32)
    requires
        0 <= off,
        off + 4 <= data.len(),
        data.subrange(off, off + 4) == spec_u32_le(v),
    ensures
        spec_read_u32(data, off) == v as int,
{
    lemma_u32_le_roundtrip(v);
    let b = spec_u32_le(v);
    assert(data[off] == b[0]) by { assert(data.subrange(off, off + 4)[0] == data[off]); }
    assert(data[off + 1] == b[1]) by { assert(data.subrange(off, off + 4)[1] == data[off + 1]); }
    assert(data[off + 2] == b[2]) by { assert(data.subrange(off, off + 4)[2] == data[off + 2]); }
    assert(data[off + 3] == b[3]) by { assert(data.subrange(off, off + 4)[3] == data[off + 3]); }
}

/// `x` followed by `y` stands at `off` in `data`: so do `x` and, after it, `y`.
proof fn lemma_split_at(data: Seq<u8>, off: int, x: Seq<u8>, y: Seq<u8>)
    requires
        0 <= off,
        off + x.len() + y.len() <= data.len(),
        data.subrange(off, off + x.len() + y.len()) == x + y,
    ensures
        data.subrange(off, off + x.len()) == x,
        data.subrange(off + x.len(), off + x.len() + y.len()) == y,
{
    let w = data.subrange(off, off + x.len() + y.len());
    assert forall|k: int| 0 <= k < x.len() implies data.subrange(off, off + x.len())[k] == x[k] by {
        assert(w[k] == (x + y)[k]);
    }
    assert forall|k: int| 0 <= k < y.len() implies data.subrange(off + x.len(), off + x.len() + y.len())[k] == y[k] by {
        assert(w[x.len() + k] == (x + y)[x.len() + k]);
    }
    assert(data.subrange(off, off + x.len()) =~= x);
    assert(data.subrange(off + x.len(), off + x.len() + y.len()) =~= y);
}

proof fn lemma_line_entries_prefix(m: MetaView, j: int, n: int)
    requires
        0 <= j <= n,
    ensures
        spec_line_entries(m, j).len() <= spec_line_entries(m, n).len(),
        spec_line_entries(m, n).subrange(0, spec_line_entries(m, j).len() as int) == spec_line_entries(m, j),
    decreases n - j,
{
    if j < n {
        lemma_line_entries_prefix(m, j, n - 1);
        let a = spec_line_entries(m, n - 1);
        let full = spec_line_entries(m, n);
        assert(full == a + spec_line_entry(m, n - 1));
        assert(full.subrange(0, spec_line_entries(m, j).len() as int) =~= a.subrange(0, spec_line_entries(m, j).len() as int));
    } else {
        assert(spec_line_entries(m, n).subrange(0, spec_line_entries(m, n).len() as int) =~= spec_line_entries(m, n));
    }
}

proof fn lemma_parse_lines_from(m: MetaView, j: int)
    requires
        spec_meta_storable(m),
        0 <= j <= m.line_lengths.len(),
    ensures
        spec_parse_lines(spec_meta_bytes(m), 4 + spec_line_entries(m, j).len() as int, (m.line_lengths.len() - j) as nat) == Some(
            (
                m.line_lengths.skip(j),
                m.line_endings.skip(j),
                m.trailing_whitespace.skip(j),
                4 + spec_line_entries(m, m.line_lengths.len() as int).len() as int,
            ),
        ),
    decreases m.line_lengths.len() - j,
{
    let n = m.line_lengths.len() as int;
    let f = spec_meta_bytes(m);
    let head = spec_u32_le(n as u32);
    let all = spec_line_entries(m, n);
    let tail = seq![if m.has_trailing_newline { 1u8 } else { 0u8 }];
    assert(f == head + all + tail);
    if j == n {
        assert(m.line_lengths.skip(j) =~= Seq::<usize>::empty());
        assert(m.line_endings.skip(j) =~= Seq::<bool>::empty());
        assert(m.trailing_whitespace.skip(j) =~= Seq::<Seq<u8>>::empty());
    } else {
        let ej = spec_line_entries(m, j).len() as int;
        let ent = spec_line_entry(m, j);
        let off = 4 + ej;
        lemma_line_entries_prefix(m, j + 1, n);
        let pre = spec_line_entries(m, j + 1);
        assert(pre == spec_line_entries(m, j) + ent);
        assert forall|t: int| 0 <= t < ent.len() implies f[off + t] == ent[t] by {
            assert(f[off + t] == all[ej + t]);
            assert(all.subrange(0, pre.len() as int)[ej + t] == all[ej + t]);
            assert(pre[ej + t] == ent[t]);
        }
        let len = m.line_lengths[j];
        let ws = m.trailing_whitespace[j];
        assert(len <= 0xffff && ws.len() <= 0xff);
        assert(ent == spec_u16_le(len as u16) + seq![if m.line_endings[j] { 1u8 } else { 0u8 }, ws.len() as u8] + ws);
        assert(f[off] == ent[0]);
        assert(f[off + 1] == ent[1]);
        assert(spec_read_u16(f, off) == len) by {
            assert(ent[0] == (len as u16 % 256) as u8);
            assert(ent[1] == ((len as u16 / 256) % 256) as u8);
        }
        assert(f[off + 2] == ent[2]);
        assert(f[off + 3] == ent[3]);
        assert(f[off + 3] as int == ws.len());
        assert(f.subrange(off + 4, off + 4 + ws.len()) =~= ws) by {
            assert forall|t: int| 0 <= t < ws.len() implies f.subrange(off + 4, off + 4 + ws.len())[t] == ws[t] by {
                assert(f[off + 4 + t] == ent[4 + t]);
            }
        }
        assert(4 + pre.len() == off + 4 + ws.len());
        lemma_parse_lines_from(m, j + 1);
        assert(seq![len] + m.line_lengths.skip(j + 1) =~= m.line_lengths.skip(j));
        assert(seq![m.line_endings[j]] + m.line_endings.skip(j + 1) =~= m.line_endings.skip(j));
        assert(seq![ws] + m.trailing_whitespace.skip(j + 1) =~= m.trailing_whitespace.skip(j));
        assert((f[off + 2] != 0) == m.line_endings[j]);
    }
}

/// A serialized layout is read back as the layout written.
pub proof fn lemma_meta_roundtrip(m: MetaView)
    requires
        spec_meta_storable(m),
    ensures
        spec_parse_meta(spec_meta_bytes(m)) == Some(m),
{
    let n = m.line_lengths.len() as int;
    let f = spec_meta_bytes(m);
    let head = spec_u32_le(n as u32);
    let all = spec_line_entries(m, n);
    let tail = seq![if m.has_trailing_newline { 1u8 } else { 0u8 }];
    assert(f == head + all + tail);
    assert(f.subrange(0, 4) =~= head);
    lemma_read_u32_at(f, 0, n as u32);
    assert(spec_line_entries(m, 0).len() == 0);
    lemma_parse_lines_from(m, 0);
    assert(m.line_lengths.skip(0) =~= m.line_lengths);
    assert(m.line_endings.skip(0) =~= m.line_endings);
    assert(m.trailing_whitespace.skip(0) =~= m.trailing_whitespace);
    assert(f[4 + all.len() as int] == tail[0]);
    assert(spec_parse_meta(f)->0 =~= m);
}

/// A part read from an archive agrees with the compressed part it was written
/// from, with its placeholder and body length.
pub open spec fn spec_record_view(v: StoredPartView, cp: CompressedPart, placeholder: usize, body_len: usize) -> bool {
    &&& v.placeholder_offset == placeholder
    &&& v.algorithm == cp.algorithm
    &&& v.original_encoding == cp.original_encoding
    &&& v.was_base64_decoded == cp.was_base64_decoded
    &&& v.original_body_len == body_len
    &&& v.compressed_data == cp.data@
    &&& v.base64_meta == meta_view(cp.base64_meta)
    &&& v.layout == ArchiveLayout::Mcr5
}

/// A compressed part whose record holds its fields without loss: its data's
/// size fits four bytes and its layout is storable.
pub open spec fn spec_record_fits(cp: CompressedPart) -> bool {
    &&& cp.data@.len() <= u32::MAX
    &&& (cp.base64_meta matches Some(m) ==> spec_meta_storable(m@))
}

#[verifier::rlimit(60)]
#[verifier::spinoff_prover]
proof fn lemma_parse_part_at(data: Seq<u8>, off: int, cp: CompressedPart, ph: usize, bl: usize)
    requires
        0 <= off,
        off + spec_part_record(cp, ph, bl).len() <= data.len(),
        data.subrange(off, off + spec_part_record(cp, ph, bl).len()) == spec_part_record(cp, ph, bl),
        ph <= u32::MAX,
        bl <= u32::MAX,
        spec_record_fits(cp),
    ensures
        spec_parse_part(data, off, ArchiveLayout::Mcr5) matches Ok((v, next)) && next == off + spec_part_record(cp, ph, bl).len()
            && spec_record_view(v, cp, ph, bl),
{
    let clen = cp.data@.len();
    let a = spec_u32_le(ph as u32);
    let bb = seq![
        algorithm_byte(cp.algorithm),
        encoding_byte(cp.original_encoding),
        if cp.was_base64_decoded { 1u8 } else { 0u8 },
    ];
    let c = spec_u32_le(bl as u32);
    let d = spec_u32_le(clen as u32);
    let e = cp.data@;
    let f = spec_hash_field(encode_utf8(cp.original_hash@));
    let g = spec_meta_field(cp.base64_meta);
    let p2 = a + bb;
    let p3 = p2 + c;
    let p4 = p3 + d;
    let p5 = p4 + e;
    let p6 = p5 + f;
    assert(spec_part_record(cp, ph, bl) == p6 + g);
    lemma_split_at(data, off, p6, g);
    lemma_split_at(data, off, p5, f);
    lemma_split_at(data, off, p4, e);
    lemma_split_at(data, off, p3, d);
    lemma_split_at(data, off, p2, c);
    lemma_split_at(data, off, a, bb);
    lemma_read_u32_at(data, off, ph as u32);
    lemma_read_u32_at(data, off + 7, bl as u32);
    lemma_read_u32_at(data, off + 11, clen as u32);
    assert(data[off + 4] == bb[0]) by { assert(data.subrange(off + 4, off + 7)[0] == data[off + 4]); }
    assert(data[off + 5] == bb[1]) by { assert(data.subrange(off + 4, off + 7)[1] == data[off + 5]); }
    assert(data[off + 6] == bb[2]) by { assert(data.subrange(off + 4, off + 7)[2] == data[off + 6]); }
    lemma_codes_roundtrip(cp.algorithm, cp.original_encoding);
    let mstart = off + 15 + clen + 64;
    assert(f.len() == 64);
    match cp.base64_meta {
        Some(m) => {
            let mb = spec_meta_bytes(m@);
            assert(g == spec_u32_le(mb.len() as u32) + mb);
            lemma_split_at(data, mstart, spec_u32_le(mb.len() as u32), mb);
            lemma_read_u32_at(data, mstart, mb.len() as u32);
            assert(mb.len() > 0);
            lemma_meta_roundtrip(m@);
        },
        None => {
            lemma_read_u32_at(data, mstart, 0);
        },
    }
    let sp = spec_parse_part(data, off, ArchiveLayout::Mcr5);
    assert(sp matches Ok((v, next)) && next == off + spec_part_record(cp, ph, bl).len() && spec_record_view(v, cp, ph, bl));
}

proof fn lemma_records_prefix(cps: Seq<CompressedPart>, r: Seq<BodyRange>, phs: Seq<usize>, j: int, n: int)
    requires
        0 <= j <= n,
    ensures
        spec_records(cps, r, phs, j).len() <= spec_records(cps, r, phs, n).len(),
        spec_records(cps, r, phs, n).subrange(0, spec_records(cps, r, phs, j).len() as int) == spec_records(cps, r, phs, j),
    decreases n - j,
{
    let full = spec_records(cps, r, phs, n);
    if j < n {
        lemma_records_prefix(cps, r, phs, j, n - 1);
        let a = spec_records(cps, r, phs, n - 1);
        assert(full.subrange(0, spec_records(cps, r, phs, j).len() as int) =~= a.subrange(0, spec_records(cps, r, phs, j).len() as int));
    } else {
        assert(full.subrange(0, full.len() as int) =~= full);
    }
}

/// The body length recorded for range `k`.
pub open spec fn spec_range_len(r: Seq<BodyRange>, k: int) -> usize {
    (r[k].offset_end - r[k].offset_body) as usize
}

#[verifier::rlimit(60)]
#[verifier::spinoff_prover]
proof fn lemma_parse_records_from(data: Seq<u8>, base: int, cps: Seq<CompressedPart>, r: Seq<BodyRange>, phs: Seq<usize>, j: int)
    requires
        0 <= base,
        0 <= j <= r.len(),
        base + spec_records(cps, r, phs, r.len() as int).len() <= data.len(),
        data.subrange(base, base + spec_records(cps, r, phs, r.len() as int).len()) == spec_records(cps, r, phs, r.len() as int),
        forall|k: int| 0 <= k < r.len() ==> #[trigger] phs[k] <= u32::MAX && spec_range_len(r, k) <= u32::MAX
            && r[k].compressed_index < cps.len() && spec_record_fits(cps[r[k].compressed_index as int]),
    ensures
        spec_parse_parts(data, base + spec_records(cps, r, phs, j).len() as int, (r.len() - j) as nat, ArchiveLayout::Mcr5) matches Ok(vs)
            && vs.len() == r.len() - j
            && forall|i: int| 0 <= i < vs.len() ==> spec_record_view(#[trigger] vs[i], cps[r[j + i].compressed_index as int], phs[j + i], spec_range_len(r, j + i)),
    decreases r.len() - j,
{
    let n = r.len() as int;
    if j < n {
        let all = spec_records(cps, r, phs, n);
        let pre = spec_records(cps, r, phs, j);
        let cp = cps[r[j].compressed_index as int];
        let rec = spec_part_record(cp, phs[j], spec_range_len(r, j));
        lemma_records_prefix(cps, r, phs, j + 1, n);
        assert(spec_records(cps, r, phs, j + 1) == pre + rec);
        assert(data.subrange(base, base + pre.len() + rec.len()) =~= all.subrange(0, (pre.len() + rec.len()) as int));
        lemma_split_at(data, base, pre, rec);
        assert(phs[j] <= u32::MAX);
        lemma_parse_part_at(data, base + pre.len() as int, cp, phs[j], spec_range_len(r, j));
        lemma_parse_records_from(data, base, cps, r, phs, j + 1);
        let sp = spec_parse_part(data, base + pre.len() as int, ArchiveLayout::Mcr5);
        let (v, next) = sp->Ok_0;
        let rest = spec_parse_parts(data, next, (n - j - 1) as nat, ArchiveLayout::Mcr5)->Ok_0;
        let vs = seq![v] + rest;
        assert forall|i: int| 0 <= i < vs.len() implies spec_record_view(#[trigger] vs[i], cps[r[j + i].compressed_index as int], phs[j + i], spec_range_len(r, j + i)) by {
            if i > 0 {
                assert(vs[i] == rest[i - 1]);
                assert(spec_record_view(rest[i - 1], cps[r[j + 1 + (i - 1)].compressed_index as int], phs[j + 1 + (i - 1)], spec_range_len(r, j + 1 + (i - 1))));
            }
        }
    }
}

proof fn lemma_archive_header(data: Seq<u8>, raw_len: u32, n: u32, st_len: u32, cs: Seq<u8>, recs: Seq<u8>)
    requires
        cs.len() <= u32::MAX,
        data == spec_magic() + spec_u32_le(raw_len) + spec_u32_le(n) + spec_u32_le(st_len) + spec_u32_le(cs.len() as u32)
            + cs + recs,
    ensures
        data.len() == 20 + cs.len() + recs.len(),
        data.take(4) == spec_magic(),
        spec_read_u32(data, 4) == raw_len as int,
        spec_read_u32(data, 8) == n as int,
        spec_read_u32(data, 12) == st_len as int,
        spec_read_u32(data, 16) == cs.len() as int,
        data.subrange(20, 20 + cs.len() as int) == cs,
        data.subrange(20 + cs.len() as int, (20 + cs.len() + recs.len()) as int) == recs,
{
    let m4 = spec_magic();
    let h1 = m4 + spec_u32_le(raw_len);
    let h2 = h1 + spec_u32_le(n);
    let h3 = h2 + spec_u32_le(st_len);
    let h4 = h3 + spec_u32_le(cs.len() as u32);
    let h5 = h4 + cs;
    assert(data == h5 + recs);
    assert(data.subrange(0, data.len() as int) =~= data);
    lemma_split_at(data, 0, h5, recs);
    lemma_split_at(data, 0, h4, cs);
    lemma_split_at(data, 0, h3, spec_u32_le(cs.len() as u32));
    lemma_split_at(data, 0, h2, spec_u32_le(st_len));
    lemma_split_at(data, 0, h1, spec_u32_le(n));
    lemma_split_at(data, 0, m4, spec_u32_le(raw_len));
    lemma_read_u32_at(data, 4, raw_len);
    lemma_read_u32_at(data, 8, n);
    lemma_read_u32_at(data, 12, st_len);
    lemma_read_u32_at(data, 16, cs.len() as u32);
    assert(data.take(4) =~= data.subrange(0, 4));
}

#[verifier::rlimit(60)]
#[verifier::spinoff_prover]
proof fn lemma_record_bodies(level: u8, raw: Seq<u8>, mail: ParsedMail, cps: Seq<CompressedPart>, vs: Seq<StoredPartView>)
    requires
        raw.len() <= u32::MAX,
        cps.len() <= usize::MAX,
        cps.len() == mail.parts@.len(),
        forall|j: int| 0 <= j < cps.len() ==> spec_stored_part(#[trigger] cps[j], level, mail.parts@[j], raw, j as usize),
        spec_parts_sliceable(mail.parts@, raw.len() as int),
        spec_parts_rebuildable(mail.parts@, raw),
        spec_ranges_chained(spec_storage_ranges(cps, mail), raw.len() as int),
        vs.len() == spec_storage_ranges(cps, mail).len(),
        forall|i: int| 0 <= i < vs.len() ==> spec_record_view(#[trigger] vs[i],
            cps[spec_storage_ranges(cps, mail)[i].compressed_index as int],
            spec_placeholders(spec_storage_ranges(cps, mail), 0, 0, 0)[i], spec_range_len(spec_storage_ranges(cps, mail), i)),
    ensures
        forall|i: int| #![trigger vs[i]] 0 <= i < vs.len() ==> vs[i].placeholder_offset == spec_placeholders(spec_storage_ranges(cps, mail), 0, 0, 0)[i]
            && spec_stored_body(vs[i]) == Some(raw.subrange(spec_storage_ranges(cps, mail)[i].offset_body as int,
                spec_storage_ranges(cps, mail)[i].offset_end as int)),
{
    let r = spec_storage_ranges(cps, mail);
    let phs = spec_placeholders(r, 0, 0, 0);
    lemma_archive_restores_message(level, raw, mail, cps);
    assert forall|i: int| #![trigger vs[i]] 0 <= i < vs.len() implies vs[i].placeholder_offset == phs[i]
        && spec_stored_body(vs[i]) == Some(raw.subrange(r[i].offset_body as int, r[i].offset_end as int)) by {
        let cp = cps[r[i].compressed_index as int];
        assert(spec_record_view(vs[i], cp, phs[i], spec_range_len(r, i)));
        assert(spec_decompressed(cp.data@, cp.algorithm) is Some);
        let x = spec_decompressed(cp.data@, cp.algorithm)->0;
        assert(spec_stored_reencoded(vs[i], x) == spec_reencoded(cp, x));
        assert(spec_rebuilt_bodies(cps, r)[i] == spec_range_bodies(raw, r)[i]);
    }
}

/// Compressing a message and reading the archive back gives the message back,
/// byte for byte: the archive that [`crate::archive::archive_email`] writes for
/// a message whose parts can be rebuilt exactly is read without error, every
/// placeholder lies within its structure, every stored body decompresses, and
/// reassembling it yields the original message. The sizes that the archive's
/// fields hold must fit them. `level` is the level the parts were compressed
/// at, `archive_level` the one the structure was compressed at.
#[verifier::rlimit(100)]
#[verifier::spinoff_prover]
pub proof fn lemma_archive_read_back(
    level: u8,
    archive_level: u8,
    raw: Seq<u8>,
    mail: ParsedMail,
    cps: Seq<CompressedPart>,
    a: Archive,
)
    requires
        raw.len() <= u32::MAX,
        cps.len() <= usize::MAX,
        cps.len() == mail.parts@.len(),
        forall|j: int| 0 <= j < cps.len() ==> spec_stored_part(#[trigger] cps[j], level, mail.parts@[j], raw, j as usize),
        spec_parts_sliceable(mail.parts@, raw.len() as int),
        spec_parts_rebuildable(mail.parts@, raw),
        spec_ranges_chained(spec_storage_ranges(cps, mail), raw.len() as int),
        spec_archive_of(a, archive_level, raw, cps, spec_storage_ranges(cps, mail)),
        a.compressed_structure_len <= u32::MAX,
        spec_storage_ranges(cps, mail).len() <= u32::MAX,
        forall|j: int| 0 <= j < cps.len() ==> spec_record_fits(#[trigger] cps[j]),
    ensures
        spec_parse_stored(a.bytes@) matches Ok(v) && v.original_size == raw.len() && spec_placeholders_within(v)
            && (forall|k: int| 0 <= k < v.parts.len() ==> spec_stored_body(#[trigger] spec_by_placeholder(v.parts)[k]) is Some)
            && spec_reassembled(v) == raw,
        spec_reads_back(a.bytes@, raw),
{
    let r = spec_storage_ranges(cps, mail);
    let n = r.len() as int;
    let st = spec_structure(raw, r, 0, 0);
    let phs = spec_placeholders(r, 0, 0, 0);
    let cs = spec_zstd_compress(st, archive_level as i32);
    let data = a.bytes@;
    reveal(spec_reads_back);
    lemma_archive_restores_message(level, raw, mail, cps);
    lemma_structure_roundtrip(raw, r);
    assert(forall|i: int| 0 <= i < r.len() ==> (#[trigger] r[i]).compressed_index < cps.len());
    let recs = spec_records(cps, r, phs, n);
    assert(data == spec_magic() + spec_u32_le(raw.len() as u32) + spec_u32_le(n as u32) + spec_u32_le(st.len() as u32)
        + spec_u32_le(cs.len() as u32) + cs + recs);
    lemma_archive_header(data, raw.len() as u32, n as u32, st.len() as u32, cs, recs);
    assert forall|k: int| 0 <= k < n implies #[trigger] phs[k] <= u32::MAX && spec_range_len(r, k) <= u32::MAX
        && r[k].compressed_index < cps.len() && spec_record_fits(cps[r[k].compressed_index as int]) by {
        lemma_chain_within(r, raw.len() as int, k);
        assert(r[k].compressed_index < cps.len());
    }
    assert(spec_records(cps, r, phs, 0).len() == 0);
    lemma_parse_records_from(data, 20 + cs.len() as int, cps, r, phs, 0);
    let vs = spec_parse_parts(data, 20 + cs.len() as int, n as nat, ArchiveLayout::Mcr5)->Ok_0;
    let v = StoredMailView { original_size: raw.len() as usize, structure: st, parts: vs };
    assert(spec_parse_stored(data) == Ok::<StoredMailView, Seq<char>>(v));
    lemma_record_bodies(level, raw, mail, cps, vs);
    lemma_stored_split_roundtrip(raw, r, v);
    assert forall|i: int| 0 <= i < v.parts.len() implies (#[trigger] v.parts[i]).placeholder_offset <= v.structure.len() by {
        assert(v.parts[i].placeholder_offset == phs[i]);
    }
    assert forall|k: int| 0 <= k < v.parts.len() implies spec_stored_body(#[trigger] spec_by_placeholder(v.parts)[k]) is Some by {
        assert(spec_by_placeholder(v.parts)[k] == v.parts[k]);
    }
}

} // verus!
