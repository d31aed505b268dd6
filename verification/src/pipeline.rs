//! The compression pipeline: parts are decoded, compressed, reconstructed and verified.

use vstd::prelude::*;

use crate::algorithm::{spec_select_algorithm, CompressionAlgorithm, EmailCompressor};
use crate::base64_lines::{
    lemma_base64_layout_roundtrip, ws_before_line_end, spec_base64_cleaned, spec_base64_meta, spec_encode_base64,
    spec_encode_base64_with_meta,
};
use crate::codec::{spec_base64_decode, spec_base64_encode};
use crate::compression::{spec_compressed, spec_decompressed, spec_hash_hex};
use crate::error::MailCrushError;
use crate::mime::{
    parse_mail, spec_parse_mail, content_type_string, clone_opt_string, is_multipart_type, spec_content_type_string,
    spec_encoding_name, MimePart, ParsedMail, TransferEncoding,
};
use crate::quoted_printable::{spec_decode_qp, spec_encode_qp};
use crate::report::{CompressedPart, CompressionReport, PartCompressionReport};
use crate::text::{chars_start_with, concat, push_decimal, push_str, spec_to_lowercase, str_chars, to_lowercase, to_owned_string, seq_starts_with, decimal};

verus! {

/// The content type string of a part being compressed.
pub open spec fn spec_part_content_type(p: MimePart) -> Seq<char> {
    spec_content_type_string(p, "application/octet-stream"@)
}

/// Whether a part is a multipart container.
pub open spec fn spec_part_is_multipart(p: MimePart) -> bool {
    is_multipart_type(spec_part_content_type(p))
}

/// The part's end offset lies within the message.
pub open spec fn spec_part_in_bounds(p: MimePart, raw: Seq<u8>) -> bool {
    p.offset_end as int <= raw.len()
}

/// The part's body can be cut out of the message: it is a container (whose
/// body is not read), or it lies past the end, or its offsets are in order.
pub open spec fn spec_part_sliceable(p: MimePart, raw_len: int) -> bool {
    spec_part_is_multipart(p) || p.offset_end as int > raw_len || p.offset_body <= p.offset_end
}

/// Every part of the message can be cut out of it.
pub open spec fn spec_parts_sliceable(parts: Seq<MimePart>, raw_len: int) -> bool {
    forall|i: int| 0 <= i < parts.len() ==> spec_part_sliceable(#[trigger] parts[i], raw_len)
}

/// The raw body of a part (empty for containers).
pub open spec fn spec_part_body(p: MimePart, raw: Seq<u8>) -> Seq<u8> {
    if spec_part_is_multipart(p) {
        Seq::empty()
    } else {
        raw.subrange(p.offset_body as int, p.offset_end as int)
    }
}

/// The decoded body of a part, if its transfer encoding can be undone.
pub open spec fn spec_part_decoded(p: MimePart, raw: Seq<u8>) -> Option<Seq<u8>> {
    let body = spec_part_body(p, raw);
    if spec_part_is_multipart(p) {
        Some(Seq::empty())
    } else {
        match p.encoding {
            TransferEncoding::Base64 => spec_base64_decode(spec_base64_cleaned(body)),
            TransferEncoding::QuotedPrintable => spec_decode_qp(body),
            TransferEncoding::Identity => Some(body),
        }
    }
}

/// The algorithm chosen for a part whose decoded body is `decoded`.
pub open spec fn spec_part_algorithm(level: u8, p: MimePart, decoded: Seq<u8>) -> CompressionAlgorithm {
    if spec_part_is_multipart(p) {
        CompressionAlgorithm::NoCompression
    } else {
        spec_select_algorithm(spec_to_lowercase(spec_part_content_type(p)), decoded.len() as int, level)
    }
}

/// Decoding the stored raw body of a compressed part as its flags say.
pub open spec fn spec_redecoded(cp: CompressedPart) -> Option<Seq<u8>> {
    if cp.was_base64_decoded {
        spec_base64_decode(spec_base64_cleaned(cp.original_raw@))
    } else if cp.original_encoding == TransferEncoding::QuotedPrintable {
        spec_decode_qp(cp.original_raw@)
    } else {
        Some(cp.original_raw@)
    }
}

/// The body rebuilt from decompressed bytes: re-encoded as it was encoded.
pub open spec fn spec_reencoded(cp: CompressedPart, decompressed: Seq<u8>) -> Seq<u8> {
    if cp.original_encoding == TransferEncoding::Base64 && cp.was_base64_decoded {
        match cp.base64_meta {
            Some(m) => spec_encode_base64_with_meta(decompressed, m@),
            None => spec_encode_base64(decompressed),
        }
    } else if cp.original_encoding == TransferEncoding::QuotedPrintable {
        spec_encode_qp(decompressed)
    } else {
        decompressed
    }
}

/// A compressed part is what processing part `idx` (`p`) of `raw` produces,
/// with `decoded` its decoded body.
pub open spec fn spec_compressed_part_of(
    cp: CompressedPart,
    level: u8,
    p: MimePart,
    raw: Seq<u8>,
    idx: usize,
    decoded: Seq<u8>,
) -> bool {
    let multipart = spec_part_is_multipart(p);
    let algorithm = spec_part_algorithm(level, p, decoded);
    &&& cp.part_index == idx
    &&& cp.content_type@ == spec_part_content_type(p)
    &&& cp.original_encoding == p.encoding
    &&& cp.was_base64_decoded == (!multipart && p.encoding == TransferEncoding::Base64)
    &&& cp.algorithm == algorithm
    &&& cp.data@ == spec_compressed(decoded, algorithm, level)
    &&& (decoded.len() <= u32::MAX || algorithm != CompressionAlgorithm::Lz4 ==> spec_decompressed(cp.data@, algorithm)
        == Some(decoded))
    &&& cp.original_hash@ == spec_hash_hex(decoded)
    &&& cp.original_raw@ == spec_part_body(p, raw)
    &&& spec_redecoded(cp) == Some(decoded)
    &&& (cp.base64_meta is Some <==> cp.was_base64_decoded)
    &&& (cp.base64_meta matches Some(m) ==> m@ == spec_base64_meta(spec_part_body(p, raw)))
}

/// The report of a part that was processed.
pub open spec fn spec_success_report(
    r: PartCompressionReport,
    level: u8,
    p: MimePart,
    raw: Seq<u8>,
    idx: usize,
    decoded: Seq<u8>,
) -> bool {
    let algorithm = spec_part_algorithm(level, p, decoded);
    &&& r.part_index == idx
    &&& r.content_type@ == spec_part_content_type(p)
    &&& r.filename == p.attachment_name
    &&& r.original_encoding@ == spec_encoding_name(p.encoding)
    &&& r.was_base64_decoded == (!spec_part_is_multipart(p) && p.encoding == TransferEncoding::Base64)
    &&& r.algorithm == algorithm
    &&& r.original_encoded_size == spec_part_body(p, raw).len()
    &&& r.decoded_size == decoded.len()
    &&& r.compressed_size == spec_compressed(decoded, algorithm, level).len()
    &&& r.original_hash@ == spec_hash_hex(decoded)
}

/// The report of a part that could not be processed.
pub open spec fn spec_failure_report(r: PartCompressionReport, p: MimePart, idx: usize) -> bool {
    &&& r.part_index == idx
    &&& r.content_type@ == spec_content_type_string(p, "unknown"@)
    &&& r.filename == p.attachment_name
    &&& r.original_encoding@ == spec_encoding_name(p.encoding)
    &&& !r.was_base64_decoded
    &&& r.algorithm == CompressionAlgorithm::NoCompression
    &&& r.original_encoded_size == (p.offset_end as int - p.offset_body as int) % 0x1_0000_0000
    &&& r.decoded_size == 0
    &&& r.compressed_size == 0
    &&& r.original_hash@.len() == 0
    &&& r.error_message is Some
}

/// A part whose processing succeeds: it lies within the message and its body
/// decodes (compression itself never fails).
pub open spec fn spec_part_always_processed(level: u8, p: MimePart, raw: Seq<u8>) -> bool {
    &&& spec_part_in_bounds(p, raw)
    &&& spec_part_decoded(p, raw) is Some
}

/// Whether a report is that of a processed part: only those carry a hash.
pub open spec fn spec_report_processed(r: PartCompressionReport) -> bool {
    r.original_hash@.len() > 0
}

/// The body of a part rebuilt from the decompressed bytes `x`.
pub open spec fn spec_part_reencoded(p: MimePart, raw: Seq<u8>, x: Seq<u8>) -> Seq<u8> {
    if p.encoding == TransferEncoding::Base64 && !spec_part_is_multipart(p) {
        spec_encode_base64_with_meta(x, spec_base64_meta(spec_part_body(p, raw)))
    } else if p.encoding == TransferEncoding::QuotedPrintable {
        spec_encode_qp(x)
    } else {
        x
    }
}

/// The body of a processed part as reconstruction rebuilds it, if its
/// compressed data decompresses.
pub open spec fn spec_part_rebuilt(level: u8, p: MimePart, raw: Seq<u8>) -> Option<Seq<u8>> {
    match spec_part_decoded(p, raw) {
        Some(d) => {
            let algorithm = spec_part_algorithm(level, p, d);
            match spec_decompressed(spec_compressed(d, algorithm, level), algorithm) {
                Some(x) => Some(spec_part_reencoded(p, raw, x)),
                None => None,
            }
        },
        None => None,
    }
}

/// Whether a part's compressed data decompresses to its decoded body.
pub open spec fn spec_part_roundtrips(level: u8, p: MimePart, raw: Seq<u8>) -> bool {
    match spec_part_decoded(p, raw) {
        Some(d) => {
            let algorithm = spec_part_algorithm(level, p, d);
            spec_decompressed(spec_compressed(d, algorithm, level), algorithm) == Some(d)
        },
        None => false,
    }
}

/// Whether a part's compressed data decompresses at all.
pub open spec fn spec_part_decompresses(level: u8, p: MimePart, raw: Seq<u8>) -> bool {
    match spec_part_decoded(p, raw) {
        Some(d) => {
            let algorithm = spec_part_algorithm(level, p, d);
            spec_decompressed(spec_compressed(d, algorithm, level), algorithm) is Some
        },
        None => false,
    }
}

/// The hash a processed part's report records for its reconstruction: that of
/// its (empty) decoded body for a container, else that of its rebuilt body,
/// and nothing when the rebuild fails.
pub open spec fn spec_part_reconstructed_hash(level: u8, p: MimePart, raw: Seq<u8>) -> Seq<char> {
    if spec_part_is_multipart(p) {
        spec_hash_hex(Seq::empty())
    } else {
        match spec_part_rebuilt(level, p, raw) {
            Some(b) => spec_hash_hex(b),
            None => Seq::empty(),
        }
    }
}

/// A report as processing leaves it, before verification: not verified, no
/// reconstruction hash, and an error message exactly when processing failed.
pub open spec fn spec_pending_report(r: PartCompressionReport) -> bool {
    &&& !r.reconstruction_verified
    &&& r.reconstructed_hash@.len() == 0
    &&& (r.error_message is None <==> spec_report_processed(r))
}

/// The outcome of verification in the report of part `p`: the part counts as
/// verified exactly when it was processed and its compressed data gives its
/// decoded body back; an unverified part carries an error message and a
/// verified one none.
pub open spec fn spec_report_verification(r: PartCompressionReport, level: u8, p: MimePart, raw: Seq<u8>) -> bool {
    &&& r.reconstruction_verified == (spec_report_processed(r) && spec_part_roundtrips(level, p, raw))
    &&& (r.reconstruction_verified <==> r.error_message is None)
    &&& r.reconstructed_hash@ == if spec_report_processed(r) {
        spec_part_reconstructed_hash(level, p, raw)
    } else {
        Seq::<char>::empty()
    }
}

/// The number of parts among the first `n` that were processed but whose
/// compressed data does not decompress.
pub open spec fn spec_rebuild_failures(
    reports: Seq<PartCompressionReport>,
    level: u8,
    parts: Seq<MimePart>,
    raw: Seq<u8>,
    n: int,
) -> nat
    decreases n,
{
    if n <= 0 {
        0
    } else {
        spec_rebuild_failures(reports, level, parts, raw, n - 1) + if spec_report_processed(reports[n - 1])
            && !spec_part_decompresses(level, parts[n - 1], raw) {
            1nat
        } else {
            0nat
        }
    }
}

/// Where an index with key `key` goes in `order` (sorted by decreasing key):
/// before the first entry from `j` on whose key is smaller.
pub open spec fn spec_insert_pos(order: Seq<usize>, keys: Seq<usize>, key: usize, j: int) -> int
    decreases order.len() - j,
{
    if j < 0 || j >= order.len() {
        order.len() as int
    } else if keys[order[j] as int] < key {
        j
    } else {
        spec_insert_pos(order, keys, key, j + 1)
    }
}

/// The indices `0..n` sorted by decreasing key, equal keys in increasing index
/// order (a stable sort).
pub open spec fn spec_desc_order(keys: Seq<usize>, n: int) -> Seq<usize>
    decreases n,
{
    if n <= 0 {
        Seq::empty()
    } else {
        let o = spec_desc_order(keys, n - 1);
        o.insert(spec_insert_pos(o, keys, keys[n - 1], 0), (n - 1) as usize)
    }
}

/// The body offsets of the parts.
pub open spec fn spec_body_offsets(parts: Seq<MimePart>) -> Seq<usize> {
    parts.map_values(|p: MimePart| p.offset_body as usize)
}

/// Splices rebuilt bodies into `email`, following `order` from position `k`:
/// a part whose offsets lie within the current email and that was processed
/// has its body range replaced, unless it is a container (whose range holds
/// its children); a failed rebuild clears `success`.
pub open spec fn spec_splice(
    email: Seq<u8>,
    success: bool,
    order: Seq<usize>,
    k: int,
    parts: Seq<MimePart>,
    raw: Seq<u8>,
    level: u8,
    processed: Seq<bool>,
) -> (Seq<u8>, bool)
    decreases order.len() - k,
{
    if k < 0 || k >= order.len() {
        (email, success)
    } else {
        let idx = order[k] as int;
        let p = parts[idx];
        let s = p.offset_body as int;
        let e = p.offset_end as int;
        if s > email.len() || e > email.len() || !processed[idx] || spec_part_is_multipart(p) {
            spec_splice(email, success, order, k + 1, parts, raw, level, processed)
        } else {
            match spec_part_rebuilt(level, p, raw) {
                Some(b) => spec_splice(
                    email.take(s) + b + email.skip(e),
                    success,
                    order,
                    k + 1,
                    parts,
                    raw,
                    level,
                    processed,
                ),
                None => spec_splice(email, false, order, k + 1, parts, raw, level, processed),
            }
        }
    }
}

/// The whole message rebuilt from its processed parts, and whether every
/// rebuild succeeded.
pub open spec fn spec_rebuilt_email(
    parts: Seq<MimePart>,
    raw: Seq<u8>,
    level: u8,
    processed: Seq<bool>,
) -> (Seq<u8>, bool) {
    spec_splice(raw, true, spec_desc_order(spec_body_offsets(parts), parts.len() as int), 0, parts, raw, level, processed)
}

/// The part indices sorted by decreasing body offset, stably.
fn desc_order(parts: &Vec<MimePart>) -> (res: Vec<usize>)
    ensures
        res@ == spec_desc_order(spec_body_offsets(parts@), parts@.len() as int),
        forall|k: int| 0 <= k < res@.len() ==> res@[k] < parts@.len(),
{
    let ghost keys = spec_body_offsets(parts@);
    let mut order: Vec<usize> = Vec::new();
    let mut i: usize = 0;
    while i < parts.len()
        invariant
            0 <= i <= parts@.len(),
            keys == spec_body_offsets(parts@),
            order@ == spec_desc_order(keys, i as int),
            order@.len() == i,
            forall|k: int| 0 <= k < order@.len() ==> order@[k] < i,
        decreases parts.len() - i,
    {
        let key = parts[i].offset_body as usize;
        assert(key == keys[i as int]);
        let mut j: usize = 0;
        while j < order.len() && parts[order[j]].offset_body as usize >= key
            invariant
                0 <= j <= order@.len(),
                order@.len() == i,
                i < parts@.len(),
                keys == spec_body_offsets(parts@),
                forall|k: int| 0 <= k < order@.len() ==> order@[k] < i,
                spec_insert_pos(order@, keys, key, 0) == spec_insert_pos(order@, keys, key, j as int),
            decreases order.len() - j,
        {
            assert(keys[order@[j as int] as int] == parts@[order@[j as int] as int].offset_body as usize);
            j = j + 1;
        }
        if j < order.len() {
            assert(keys[order@[j as int] as int] == parts@[order@[j as int] as int].offset_body as usize);
        }
        assert(spec_insert_pos(order@, keys, key, j as int) == j);
        order.insert(j, i);
        i = i + 1;
        assert forall|k: int| 0 <= k < order@.len() implies order@[k] < i by {}
    }
    order
}

/// The position of the first compressed part with the given part index.
fn find_compressed(parts: &Vec<CompressedPart>, idx: usize) -> (res: Option<usize>)
    ensures
        res matches Some(k) ==> k < parts@.len() && parts@[k as int].part_index == idx
            && forall|j: int| 0 <= j < k ==> parts@[j].part_index != idx,
        res is None ==> forall|j: int| 0 <= j < parts@.len() ==> parts@[j].part_index != idx,
{
    let mut k: usize = 0;
    while k < parts.len()
        invariant
            0 <= k <= parts@.len(),
            forall|j: int| 0 <= j < k ==> parts@[j].part_index != idx,
        decreases parts.len() - k,
    {
        if parts[k].part_index == idx {
            return Some(k);
        }
        k = k + 1;
    }
    None
}

/// `email` with the range `start..end` replaced by `body`.
fn splice_bytes(email: &Vec<u8>, start: usize, end: usize, body: &Vec<u8>) -> (res: Vec<u8>)
    requires
        start <= email@.len(),
        end <= email@.len(),
    ensures
        res@ == email@.take(start as int) + body@ + email@.skip(end as int),
{
    let mut v: Vec<u8> = Vec::new();
    crate::text::extend_bytes(&mut v, &email.as_slice()[0..start]);
    crate::text::extend_bytes(&mut v, body.as_slice());
    crate::text::extend_bytes(&mut v, &email.as_slice()[end..email.len()]);
    assert(v@ =~= email@.take(start as int) + body@ + email@.skip(end as int));
    v
}

/// The report of a part whose processing failed with `error`.
fn failure_report(part: &MimePart, part_index: usize, error: &MailCrushError) -> (res: PartCompressionReport)
    ensures
        spec_failure_report(res, *part, part_index),
        spec_pending_report(res),
        !spec_report_processed(res),
{
    let size = part.offset_end.wrapping_sub(part.offset_body);
    PartCompressionReport {
        part_index,
        content_type: content_type_string(part, "unknown"),
        filename: clone_opt_string(&part.attachment_name),
        original_encoding: to_owned_string(part.encoding.name()),
        was_base64_decoded: false,
        algorithm: CompressionAlgorithm::NoCompression,
        original_encoded_size: size as usize,
        decoded_size: 0,
        compressed_size: 0,
        original_hash: String::new(),
        reconstructed_hash: String::new(),
        reconstruction_verified: false,
        error_message: Some(error.message()),
    }
}

/// A part's report agrees with the part, whether it was processed or not.
pub open spec fn spec_report_fields_match(
    r: PartCompressionReport,
    level: u8,
    p: MimePart,
    raw: Seq<u8>,
    idx: usize,
) -> bool {
    &&& (spec_report_processed(r) ==> spec_part_in_bounds(p, raw)
        && spec_part_decoded(p, raw) is Some
        && spec_success_report(r, level, p, raw, idx, spec_part_decoded(p, raw)->0))
    &&& (!spec_report_processed(r) ==> spec_failure_report(r, p, idx))
    &&& (spec_part_always_processed(level, p, raw) ==> spec_report_processed(r))
    &&& (!spec_part_in_bounds(p, raw) || spec_part_decoded(p, raw) is None ==> !spec_report_processed(r))
}

/// The number of processed parts among the reports.
pub open spec fn count_processed(reports: Seq<PartCompressionReport>) -> nat
    decreases reports.len(),
{
    if reports.len() == 0 {
        0
    } else {
        count_processed(reports.drop_last()) + if spec_report_processed(reports.last()) {
            1nat
        } else {
            0nat
        }
    }
}

/// The sum of the reported compressed sizes, wrapping around at `usize::MAX + 1`.
pub open spec fn spec_total_compressed(reports: Seq<PartCompressionReport>) -> int
    decreases reports.len(),
{
    if reports.len() == 0 {
        0
    } else {
        (spec_total_compressed(reports.drop_last()) + reports.last().compressed_size) % (usize::MAX as int + 1)
    }
}

/// Every decodable part decodes to at most `u32::MAX` bytes.
pub open spec fn spec_decoded_sizes_bounded(parts: Seq<MimePart>, raw: Seq<u8>) -> bool {
    forall|i: int| 0 <= i < parts.len() ==> (spec_part_decoded(#[trigger] parts[i], raw) matches Some(d)
        ==> d.len() <= u32::MAX)
}

/// Whether each report is that of a processed part.
pub open spec fn spec_processed_flags(reports: Seq<PartCompressionReport>) -> Seq<bool> {
    reports.map_values(|r: PartCompressionReport| spec_report_processed(r))
}

/// The compressed parts collected after `idx` parts: one per processed part,
/// in increasing part order, each what processing its part produces.
pub open spec fn spec_compressed_parts_inv(
    cps: Seq<CompressedPart>,
    reports: Seq<PartCompressionReport>,
    level: u8,
    parts: Seq<MimePart>,
    raw: Seq<u8>,
    idx: int,
) -> bool {
    &&& cps.len() == count_processed(reports)
    &&& forall|k: int| 0 <= k < cps.len() ==> k <= (#[trigger] cps[k]).part_index
    &&& forall|k: int| 0 <= k < cps.len() ==> (#[trigger] cps[k]).part_index + (cps.len() - k) <= idx
    &&& forall|k1: int, k2: int| 0 <= k1 < k2 < cps.len() ==> (#[trigger] cps[k1]).part_index < (#[trigger] cps[k2]).part_index
    &&& forall|k: int| 0 <= k < cps.len() ==> {
        let pi = (#[trigger] cps[k]).part_index as int;
        &&& 0 <= pi < reports.len()
        &&& spec_report_processed(reports[pi])
        &&& spec_part_decoded(parts[pi], raw) is Some
        &&& spec_compressed_part_of(cps[k], level, parts[pi], raw, pi as usize, spec_part_decoded(parts[pi], raw)->0)
    }
    &&& forall|j: int| 0 <= j < reports.len() && spec_report_processed(#[trigger] reports[j]) ==> exists|k: int|
        0 <= k < cps.len() && (#[trigger] cps[k]).part_index == j
}

proof fn lemma_compressed_parts_inv_step(
    cps0: Seq<CompressedPart>,
    cps1: Seq<CompressedPart>,
    reports0: Seq<PartCompressionReport>,
    reports1: Seq<PartCompressionReport>,
    level: u8,
    parts: Seq<MimePart>,
    raw: Seq<u8>,
    idx: int,
)
    requires
        spec_compressed_parts_inv(cps0, reports0, level, parts, raw, idx),
        reports0.len() == idx,
        reports1.len() == idx + 1,
        reports1.drop_last() == reports0,
        spec_report_processed(reports1.last()) ==> cps1 == cps0.push(cps1.last()) && cps1.last().part_index == idx
            && spec_part_decoded(parts[idx], raw) is Some
            && spec_compressed_part_of(cps1.last(), level, parts[idx], raw, idx as usize, spec_part_decoded(parts[idx], raw)->0),
        !spec_report_processed(reports1.last()) ==> cps1 == cps0,
    ensures
        spec_compressed_parts_inv(cps1, reports1, level, parts, raw, idx + 1),
{
    assert forall|j: int| 0 <= j < idx implies reports1[j] == reports0[j] by {
        assert(reports1[j] == reports1.drop_last()[j]);
    }
    lemma_count_processed_le(reports0);
    assert(count_processed(reports1) == count_processed(reports0) + if spec_report_processed(reports1.last()) {
        1nat
    } else {
        0nat
    });
    if spec_report_processed(reports1.last()) {
        assert forall|k: int| 0 <= k < cps0.len() implies cps1[k] == cps0[k] by {}
        let n0 = cps0.len() as int;
        assert forall|k: int| 0 <= k < cps0.len() implies (#[trigger] cps0[k]).part_index < idx by {}
        assert(cps1[n0].part_index == idx);
        assert forall|k: int| 0 <= k < cps1.len() implies k <= (#[trigger] cps1[k]).part_index by {
            if k < n0 {
                assert(cps1[k] == cps0[k]);
            }
        }
        assert forall|k: int| 0 <= k < cps1.len() implies (#[trigger] cps1[k]).part_index + (cps1.len() - k) <= idx + 1 by {
            if k < n0 {
                assert(cps1[k] == cps0[k]);
            }
        }
        assert forall|k1: int, k2: int| 0 <= k1 < k2 < cps1.len() implies (#[trigger] cps1[k1]).part_index < (#[trigger] cps1[k2]).part_index by {
            assert(cps1[k1] == cps0[k1]);
            if k2 < n0 {
                assert(cps1[k2] == cps0[k2]);
            }
        }
        assert forall|k: int| 0 <= k < cps1.len() implies {
            let pi = (#[trigger] cps1[k]).part_index as int;
            &&& 0 <= pi < reports1.len()
            &&& spec_report_processed(reports1[pi])
            &&& spec_part_decoded(parts[pi], raw) is Some
            &&& spec_compressed_part_of(cps1[k], level, parts[pi], raw, pi as usize, spec_part_decoded(parts[pi], raw)->0)
        } by {
            if k < n0 {
                assert(cps1[k] == cps0[k]);
                let pi = cps0[k].part_index as int;
                assert(reports1[pi] == reports0[pi]);
            }
        }
        assert forall|j: int| 0 <= j < reports1.len() && spec_report_processed(#[trigger] reports1[j]) implies exists|k: int|
            0 <= k < cps1.len() && (#[trigger] cps1[k]).part_index == j by {
            if j == idx {
                assert(cps1[cps0.len() as int].part_index == j);
            } else {
                assert(reports1[j] == reports0[j]);
                let k = choose|k: int| 0 <= k < cps0.len() && (#[trigger] cps0[k]).part_index == j;
                assert(cps1[k].part_index == j);
            }
        }
    } else {
        assert forall|j: int| 0 <= j < reports1.len() && spec_report_processed(#[trigger] reports1[j]) implies exists|k: int|
            0 <= k < cps1.len() && (#[trigger] cps1[k]).part_index == j by {
            assert(j != idx);
            assert(reports1[j] == reports0[j]);
        }
        assert forall|k: int| 0 <= k < cps1.len() implies {
            let pi = (#[trigger] cps1[k]).part_index as int;
            &&& 0 <= pi < reports1.len()
            &&& spec_report_processed(reports1[pi])
        } by {
            let pi = cps0[k].part_index as int;
            assert(reports1[pi] == reports0[pi]);
        }
    }
}

proof fn lemma_count_processed_le(reports: Seq<PartCompressionReport>)
    ensures
        count_processed(reports) <= reports.len(),
    decreases reports.len(),
{
    if reports.len() > 0 {
        lemma_count_processed_le(reports.drop_last());
    }
}

/// Two reports agree on everything but the outcome of verification (the
/// reconstructed hash, the verified flag and the error message); an error
/// message once present stays present.
pub open spec fn spec_same_but_verification(a: PartCompressionReport, b: PartCompressionReport) -> bool {
    &&& a.part_index == b.part_index
    &&& a.content_type == b.content_type
    &&& a.filename == b.filename
    &&& a.original_encoding == b.original_encoding
    &&& a.was_base64_decoded == b.was_base64_decoded
    &&& a.algorithm == b.algorithm
    &&& a.original_encoded_size == b.original_encoded_size
    &&& a.decoded_size == b.decoded_size
    &&& a.compressed_size == b.compressed_size
    &&& a.original_hash == b.original_hash
    &&& (b.error_message is Some ==> a.error_message is Some)
}

/// The subject, or a default when there is none.
pub open spec fn spec_subject_or(subject: Option<String>, default: Seq<char>) -> Seq<char> {
    match subject {
        Some(s) => s@,
        None => default,
    }
}

/// Every report says its part was verified.
pub open spec fn spec_all_verified(reports: Seq<PartCompressionReport>) -> bool
    decreases reports.len(),
{
    if reports.len() == 0 {
        true
    } else {
        spec_all_verified(reports.drop_last()) && reports.last().reconstruction_verified
    }
}

proof fn lemma_all_verified_forall(reports: Seq<PartCompressionReport>)
    ensures
        spec_all_verified(reports) <==> forall|j: int| 0 <= j < reports.len() ==> (#[trigger] reports[j]).reconstruction_verified,
    decreases reports.len(),
{
    if reports.len() > 0 {
        let init = reports.drop_last();
        lemma_all_verified_forall(init);
        assert forall|j: int| 0 <= j < init.len() implies init[j] == reports[j] by {}
        if forall|j: int| 0 <= j < reports.len() ==> (#[trigger] reports[j]).reconstruction_verified {
            assert(reports.last().reconstruction_verified);
            assert forall|j: int| 0 <= j < init.len() implies (#[trigger] init[j]).reconstruction_verified by {
                assert(reports[j].reconstruction_verified);
            }
        }
    }
}

proof fn lemma_count_processed_all(reports: Seq<PartCompressionReport>)
    ensures
        count_processed(reports) == reports.len() <==> forall|j: int| 0 <= j < reports.len() ==> spec_report_processed(#[trigger] reports[j]),
    decreases reports.len(),
{
    if reports.len() > 0 {
        let init = reports.drop_last();
        lemma_count_processed_all(init);
        lemma_count_processed_le(init);
        assert forall|j: int| 0 <= j < init.len() implies init[j] == reports[j] by {}
        if forall|j: int| 0 <= j < reports.len() ==> spec_report_processed(#[trigger] reports[j]) {
            assert(spec_report_processed(reports.last()));
            assert forall|j: int| 0 <= j < init.len() implies spec_report_processed(#[trigger] init[j]) by {
                assert(spec_report_processed(reports[j]));
            }
        }
    }
}

proof fn lemma_total_same(a: Seq<PartCompressionReport>, b: Seq<PartCompressionReport>)
    requires
        a.len() == b.len(),
        forall|j: int| 0 <= j < a.len() ==> spec_same_but_verification(#[trigger] a[j], b[j]),
    ensures
        spec_total_compressed(a) == spec_total_compressed(b),
        count_processed(a) == count_processed(b),
    decreases a.len(),
{
    if a.len() > 0 {
        assert forall|j: int| 0 <= j < a.len() - 1 implies spec_same_but_verification(#[trigger] a.drop_last()[j], b.drop_last()[j]) by {
            assert(spec_same_but_verification(a[j], b[j]));
        }
        lemma_total_same(a.drop_last(), b.drop_last());
        assert(spec_same_but_verification(a[a.len() - 1], b[b.len() - 1]));
    }
}

/// When every part was processed and decodes to at most `u32::MAX` bytes,
/// every rebuild succeeds.
proof fn lemma_all_processed_rebuilds(
    level: u8,
    parts: Seq<MimePart>,
    raw: Seq<u8>,
    reports: Seq<PartCompressionReport>,
    cps: Seq<CompressedPart>,
)
    requires
        reports.len() == parts.len(),
        spec_decoded_sizes_bounded(parts, raw),
        spec_compressed_parts_inv(cps, reports, level, parts, raw, parts.len() as int),
    ensures
        spec_rebuilt_email(parts, raw, level, spec_processed_flags(reports)).1,
{
    let order = spec_desc_order(spec_body_offsets(parts), parts.len() as int);
    lemma_desc_order_bounds(spec_body_offsets(parts), parts.len() as int);
    assert forall|idx: int| 0 <= idx < parts.len() && spec_processed_flags(reports)[idx] implies spec_part_rebuilt(level, #[trigger] parts[idx], raw) is Some by {
        assert(spec_report_processed(reports[idx]));
        let k = choose|k: int| 0 <= k < cps.len() && (#[trigger] cps[k]).part_index == idx;
        let d = spec_part_decoded(parts[idx], raw)->0;
        assert(spec_compressed_part_of(cps[k], level, parts[idx], raw, idx as usize, d));
        assert(d.len() <= u32::MAX);
    }
    lemma_splice_keeps_success(raw, true, order, 0, parts, raw, level, spec_processed_flags(reports));
}

proof fn lemma_desc_order_bounds(keys: Seq<usize>, n: int)
    requires
        0 <= n,
    ensures
        spec_desc_order(keys, n).len() == n,
        forall|q: int| 0 <= q < n ==> 0 <= #[trigger] spec_desc_order(keys, n)[q] < n,
    decreases n,
{
    if n > 0 {
        lemma_desc_order_bounds(keys, n - 1);
        let o = spec_desc_order(keys, n - 1);
        let pos = spec_insert_pos(o, keys, keys[n - 1], 0);
        lemma_insert_pos_bounds(o, keys, keys[n - 1], 0);
        let o2 = o.insert(pos, (n - 1) as usize);
        assert forall|q: int| 0 <= q < n implies 0 <= #[trigger] o2[q] < n by {
            if q < pos {
                assert(o2[q] == o[q]);
            } else if q > pos {
                assert(o2[q] == o[q - 1]);
            }
        }
    }
}

proof fn lemma_insert_pos_bounds(order: Seq<usize>, keys: Seq<usize>, key: usize, j: int)
    requires
        0 <= j,
    ensures
        0 <= spec_insert_pos(order, keys, key, j) <= order.len(),
    decreases order.len() - j,
{
    if j < order.len() && !(keys[order[j] as int] < key) {
        lemma_insert_pos_bounds(order, keys, key, j + 1);
    }
}

proof fn lemma_splice_keeps_success(
    email: Seq<u8>,
    success: bool,
    order: Seq<usize>,
    k: int,
    parts: Seq<MimePart>,
    raw: Seq<u8>,
    level: u8,
    processed: Seq<bool>,
)
    requires
        0 <= k,
        processed.len() == parts.len(),
        forall|q: int| 0 <= q < order.len() ==> 0 <= #[trigger] order[q] < parts.len(),
        forall|idx: int| 0 <= idx < parts.len() && processed[idx] ==> spec_part_rebuilt(level, #[trigger] parts[idx], raw) is Some,
    ensures
        spec_splice(email, success, order, k, parts, raw, level, processed).1 == success,
    decreases order.len() - k,
{
    if k < order.len() {
        let idx = order[k] as int;
        let p = parts[idx];
        let s = p.offset_body as int;
        let e = p.offset_end as int;
        if s > email.len() || e > email.len() || !processed[idx] || spec_part_is_multipart(p) {
            lemma_splice_keeps_success(email, success, order, k + 1, parts, raw, level, processed);
        } else {
            let b = spec_part_rebuilt(level, p, raw)->0;
            lemma_splice_keeps_success(email.take(s) + b + email.skip(e), success, order, k + 1, parts, raw, level, processed);
        }
    }
}

proof fn lemma_rebuild_failures_same(
    a: Seq<PartCompressionReport>,
    b: Seq<PartCompressionReport>,
    level: u8,
    parts: Seq<MimePart>,
    raw: Seq<u8>,
    n: int,
)
    requires
        n <= a.len(),
        n <= b.len(),
        forall|j: int| 0 <= j < n ==> spec_report_processed(#[trigger] a[j]) == spec_report_processed(b[j]),
    ensures
        spec_rebuild_failures(a, level, parts, raw, n) == spec_rebuild_failures(b, level, parts, raw, n),
    decreases n,
{
    if n > 0 {
        lemma_rebuild_failures_same(a, b, level, parts, raw, n - 1);
        assert(spec_report_processed(a[n - 1]) == spec_report_processed(b[n - 1]));
    }
}

proof fn lemma_no_rebuild_failures(
    reports: Seq<PartCompressionReport>,
    level: u8,
    parts: Seq<MimePart>,
    raw: Seq<u8>,
    n: int,
)
    requires
        n <= reports.len(),
        forall|j: int| 0 <= j < n && spec_report_processed(#[trigger] reports[j]) ==> spec_part_decompresses(level, parts[j], raw),
    ensures
        spec_rebuild_failures(reports, level, parts, raw, n) == 0,
    decreases n,
{
    if n > 0 {
        lemma_no_rebuild_failures(reports, level, parts, raw, n - 1);
        if spec_report_processed(reports[n - 1]) {
            assert(spec_part_decompresses(level, parts[n - 1], raw));
        }
    }
}

/// Splicing into the original message bodies that rebuild to exactly what
/// they were leaves the message as it is.
proof fn lemma_splice_identity(
    success: bool,
    order: Seq<usize>,
    k: int,
    parts: Seq<MimePart>,
    raw: Seq<u8>,
    level: u8,
    processed: Seq<bool>,
)
    requires
        0 <= k,
        processed.len() == parts.len(),
        forall|q: int| 0 <= q < order.len() ==> 0 <= #[trigger] order[q] < parts.len(),
        forall|idx: int| 0 <= idx < parts.len() && processed[idx] && !spec_part_is_multipart(#[trigger] parts[idx])
            && parts[idx].offset_end as int <= raw.len() ==> parts[idx].offset_body <= parts[idx].offset_end
            && spec_part_rebuilt(level, parts[idx], raw) == Some(raw.subrange(parts[idx].offset_body as int, parts[idx].offset_end as int)),
    ensures
        spec_splice(raw, success, order, k, parts, raw, level, processed).0 == raw,
    decreases order.len() - k,
{
    if k < order.len() {
        let idx = order[k] as int;
        let p = parts[idx];
        let s = p.offset_body as int;
        let e = p.offset_end as int;
        if s > raw.len() || e > raw.len() || !processed[idx] || spec_part_is_multipart(p) {
            lemma_splice_identity(success, order, k + 1, parts, raw, level, processed);
        } else {
            assert(raw.take(s) + raw.subrange(s, e) + raw.skip(e) =~= raw);
            match spec_part_rebuilt(level, p, raw) {
                Some(b) => {
                    lemma_splice_identity(success, order, k + 1, parts, raw, level, processed);
                },
                None => {},
            }
        }
    }
}

/// A processed part that is not a container, and whose encoding is re-made
/// exactly, gives its decoded body back and is rebuilt to its raw body.
proof fn lemma_processed_part_rebuilds_body(
    cps: Seq<CompressedPart>,
    reports: Seq<PartCompressionReport>,
    level: u8,
    parts: Seq<MimePart>,
    raw: Seq<u8>,
    idx: int,
)
    requires
        reports.len() == parts.len(),
        spec_compressed_parts_inv(cps, reports, level, parts, raw, parts.len() as int),
        forall|j: int| 0 <= j < reports.len() ==> spec_report_fields_match(#[trigger] reports[j], level, parts[j], raw, j as usize),
        spec_decoded_sizes_bounded(parts, raw),
        spec_parts_reencode_exactly(parts, raw),
        spec_parts_sliceable(parts, raw.len() as int),
        raw.len() <= usize::MAX,
        0 <= idx < parts.len(),
        spec_report_processed(reports[idx]),
    ensures
        spec_part_roundtrips(level, parts[idx], raw),
        !spec_part_is_multipart(parts[idx]) ==> spec_part_rebuilt(level, parts[idx], raw) == Some(spec_part_body(parts[idx], raw)),
{
    let p = parts[idx];
    assert(spec_report_fields_match(reports[idx], level, p, raw, idx as usize));
    let k = choose|k: int| 0 <= k < cps.len() && (#[trigger] cps[k]).part_index == idx;
    let cp = cps[k];
    let d = spec_part_decoded(p, raw)->0;
    assert(spec_compressed_part_of(cp, level, p, raw, idx as usize, d));
    assert(spec_part_sliceable(p, raw.len() as int));
    assert(d.len() <= u32::MAX);
    if !spec_part_is_multipart(p) {
        assert(p.encoding != TransferEncoding::QuotedPrintable);
        lemma_stored_part_rebuilds(cp, level, p, raw, idx as usize);
        assert(spec_part_reencoded(p, raw, d) == spec_reencoded(cp, d));
    }
}

/// Every part that is not a container is re-encoded exactly as it was: none
/// is quoted-printable, and in no Base64 body is whitespace followed by a
/// symbol.
pub open spec fn spec_parts_reencode_exactly(parts: Seq<MimePart>, raw: Seq<u8>) -> bool {
    forall|j: int| 0 <= j < parts.len() && !spec_part_is_multipart(#[trigger] parts[j]) ==> {
        &&& parts[j].encoding != TransferEncoding::QuotedPrintable
        &&& (parts[j].encoding == TransferEncoding::Base64 ==> ws_before_line_end(spec_part_body(parts[j], raw)))
    }
}

/// `report` is the compression report of the parsed message `mail` of `raw`
/// at `level`: its header fields, one report per part agreeing with the part
/// and with the outcome of its verification, one error message per failed
/// part and per part whose data does not decompress, the total compressed
/// size, the hashes, and when the message counts as verified: every part
/// verified, every rebuild done, and the rebuilt message equal to the
/// original.
pub open spec fn spec_is_report_of(report: CompressionReport, level: u8, raw: Seq<u8>, mail: ParsedMail) -> bool {
    let reports = report.part_reports@;
    let rebuilt = spec_rebuilt_email(mail.parts@, raw, level, spec_processed_flags(reports));
    &&& report.subject@ == spec_subject_or(mail.subject, "No Subject"@)
    &&& report.original_size == raw.len()
    &&& report.original_email_hash@ == spec_hash_hex(raw)
    &&& reports.len() == mail.parts@.len()
    &&& forall|j: int| 0 <= j < reports.len() ==> spec_report_fields_match(
        #[trigger] reports[j], level, mail.parts@[j], raw, j as usize)
        && spec_report_verification(reports[j], level, mail.parts@[j], raw)
    &&& report.compressed_size as int == spec_total_compressed(reports)
    &&& report.errors@.len() == (reports.len() - count_processed(reports)) + spec_rebuild_failures(
        reports, level, mail.parts@, raw, reports.len() as int)
    &&& report.full_reconstruction_verified == (spec_all_verified(reports) && rebuilt.1 && rebuilt.0 == raw)
    &&& report.reconstructed_email_hash@ == spec_hash_hex(rebuilt.0)
    &&& (report.full_reconstruction_verified ==> forall|j: int| 0 <= j < reports.len()
        ==> spec_report_processed(#[trigger] reports[j]) && reports[j].reconstruction_verified)
    &&& (report.full_reconstruction_verified ==> report.reconstructed_email_hash@ == report.original_email_hash@
        && report.errors@.len() == 0)
    &&& (spec_decoded_sizes_bounded(mail.parts@, raw) && spec_parts_reencode_exactly(mail.parts@, raw)
        && (forall|j: int| 0 <= j < reports.len() ==> spec_report_processed(#[trigger] reports[j]))
        ==> report.full_reconstruction_verified)
}

/// A stored compressed part: its part lies within the message, decodes, and
/// `cp` is what processing it produces.
pub open spec fn spec_stored_part(cp: CompressedPart, level: u8, p: MimePart, raw: Seq<u8>, idx: usize) -> bool {
    &&& spec_part_in_bounds(p, raw)
    &&& spec_part_decoded(p, raw) is Some
    &&& spec_compressed_part_of(cp, level, p, raw, idx, spec_part_decoded(p, raw)->0)
}

/// A stored part is rebuilt byte for byte from its compressed data, unless its
/// body is quoted-printable (whose encoding is not unique) or a Base64 body in
/// which whitespace is followed by a symbol.
pub proof fn lemma_stored_part_rebuilds(cp: CompressedPart, level: u8, p: MimePart, raw: Seq<u8>, idx: usize)
    requires
        spec_stored_part(cp, level, p, raw, idx),
        spec_part_sliceable(p, raw.len() as int),
        spec_part_decoded(p, raw)->0.len() <= u32::MAX,
        !spec_part_is_multipart(p) ==> p.encoding != TransferEncoding::QuotedPrintable,
        !spec_part_is_multipart(p) && p.encoding == TransferEncoding::Base64 ==> ws_before_line_end(
            spec_part_body(p, raw),
        ),
        raw.len() <= usize::MAX,
    ensures
        spec_decompressed(cp.data@, cp.algorithm) == Some(spec_part_decoded(p, raw)->0),
        spec_reencoded(cp, spec_part_decoded(p, raw)->0) == cp.original_raw@,
{
    let decoded = spec_part_decoded(p, raw)->0;
    let body = spec_part_body(p, raw);
    if spec_part_is_multipart(p) {
        assert(body =~= Seq::<u8>::empty());
        assert(decoded =~= Seq::<u8>::empty());
        assert(spec_encode_qp(Seq::<u8>::empty()) =~= Seq::<u8>::empty());
    } else if p.encoding == TransferEncoding::Base64 {
        let cleaned = spec_base64_cleaned(body);
        assert(exists|x: Seq<u8>| spec_base64_encode(x) == cleaned);
        assert(spec_base64_encode(decoded) == cleaned);
        assert(body.len() <= raw.len());
        lemma_base64_layout_roundtrip(body, decoded);
    }
}

/// Whether two byte strings are equal.
pub(crate) fn bytes_equal(a: &[u8], b: &[u8]) -> (res: bool)
    ensures
        res == (a@ == b@),
{
    if a.len() != b.len() {
        return false;
    }
    let mut i: usize = 0;
    while i < a.len()
        invariant
            0 <= i <= a@.len(),
            a@.len() == b@.len(),
            forall|j: int| 0 <= j < i ==> a@[j] == b@[j],
        decreases a.len() - i,
    {
        if a[i] != b[i] {
            return false;
        }
        i = i + 1;
    }
    assert(a@ =~= b@);
    true
}

/// The bytes of `raw` from `start` to `end`, copied.
fn copy_range(raw: &[u8], start: usize, end: usize) -> (res: Vec<u8>)
    requires
        start <= end <= raw@.len(),
    ensures
        res@ == raw@.subrange(start as int, end as int),
{
    let mut v: Vec<u8> = Vec::new();
    crate::text::extend_bytes(&mut v, &raw[start..end]);
    assert(v@ =~= raw@.subrange(start as int, end as int));
    v
}

impl EmailCompressor {
    /// Processes one part: cuts its body out of the message, decodes it,
    /// compresses it, and reports on it.
    pub fn process_part(&self, part: &MimePart, raw_content: &[u8], part_index: usize) -> (res: Result<
        (CompressedPart, PartCompressionReport),
        MailCrushError,
    >)
        requires
            spec_part_sliceable(*part, raw_content@.len() as int),
        ensures
            !spec_part_in_bounds(*part, raw_content@) ==> (res matches Err(e) && e is InvalidStructure),
            spec_part_in_bounds(*part, raw_content@) && spec_part_decoded(*part, raw_content@) is None
                ==> (res matches Err(e) && e is ParseError),
            res matches Ok((cp, rep)) ==> {
                &&& spec_part_in_bounds(*part, raw_content@)
                &&& spec_part_decoded(*part, raw_content@) matches Some(decoded)
                &&& spec_compressed_part_of(cp, self.level(), *part, raw_content@, part_index, decoded)
                &&& spec_success_report(rep, self.level(), *part, raw_content@, part_index, decoded)
                &&& rep.original_hash@.len() == 64
                &&& rep.reconstructed_hash@.len() == 0
                &&& !rep.reconstruction_verified
                &&& rep.error_message is None
            },
            spec_part_always_processed(self.level(), *part, raw_content@) ==> res is Ok,
            res matches Err(e) ==> !(e is EmptyMail),
            res matches Err(e) && e is InvalidStructure ==> !spec_part_in_bounds(*part, raw_content@),
            res matches Err(e) ==> e is InvalidStructure || e is ParseError,
    {
        let content_type = content_type_string(part, "application/octet-stream");
        let filename = clone_opt_string(&part.attachment_name);
        let encoding = part.encoding;
        let is_base64 = encoding == TransferEncoding::Base64;
        let is_qp = encoding == TransferEncoding::QuotedPrintable;
        let lower = to_lowercase(content_type.as_str());
        let lower_chars = str_chars(lower.as_str());
        let is_multipart = chars_start_with(&lower_chars, "multipart/");
        let offset_start = part.offset_body as usize;
        let offset_end = part.offset_end as usize;
        if offset_end > raw_content.len() {
            let mut msg = String::new();
            push_str(&mut msg, "Part offset out of bounds: ");
            push_decimal(&mut msg, offset_start);
            push_str(&mut msg, "-");
            push_decimal(&mut msg, offset_end);
            push_str(&mut msg, " (content len: ");
            push_decimal(&mut msg, raw_content.len());
            push_str(&mut msg, ")");
            return Err(MailCrushError::InvalidStructure(msg));
        }
        let raw_part_data: Vec<u8> = if is_multipart {
            Vec::new()
        } else {
            copy_range(raw_content, offset_start, offset_end)
        };
        assert(raw_part_data@ == spec_part_body(*part, raw_content@));
        let original_encoded_size = raw_part_data.len();
        let (decoded_data, was_decoded, base64_meta) = if is_multipart {
            (Vec::new(), false, None)
        } else if is_base64 {
            let (decoded, meta) = Self::decode_base64_with_meta(raw_part_data.as_slice())?;
            (decoded, true, Some(meta))
        } else if is_qp {
            (Self::decode_quoted_printable(raw_part_data.as_slice())?, true, None)
        } else {
            (raw_part_data.clone(), false, None)
        };
        let ghost decoded = decoded_data@;
        assert(spec_part_decoded(*part, raw_content@) == Some(decoded));
        let decoded_size = decoded_data.len();
        let original_hash = Self::hash_data(decoded_data.as_slice());
        let algorithm = if is_multipart {
            CompressionAlgorithm::NoCompression
        } else {
            self.select_algorithm(content_type.as_str(), decoded_data.as_slice())
        };
        let compressed_data = self.compress(decoded_data.as_slice(), algorithm)?;
        let compressed_size = compressed_data.len();
        let was_b64 = was_decoded && is_base64;
        let compressed_part = CompressedPart {
            part_index,
            content_type: content_type.clone(),
            original_encoding: encoding,
            was_base64_decoded: was_b64,
            algorithm,
            data: compressed_data,
            original_hash: original_hash.clone(),
            original_raw: raw_part_data,
            base64_meta,
        };
        let report = PartCompressionReport {
            part_index,
            content_type,
            filename,
            original_encoding: to_owned_string(encoding.name()),
            was_base64_decoded: was_b64,
            algorithm,
            original_encoded_size,
            decoded_size,
            compressed_size,
            original_hash,
            reconstructed_hash: String::new(),
            reconstruction_verified: false,
            error_message: None,
        };
        Ok((compressed_part, report))
    }

    /// Rebuilds the raw body of a compressed part: decompresses it and
    /// re-encodes it as it was encoded.
    pub fn reconstruct_part(&self, compressed: &CompressedPart) -> (res: Result<Vec<u8>, MailCrushError>)
        ensures
            res is Ok <==> spec_decompressed(compressed.data@, compressed.algorithm) is Some,
            res matches Ok(v) ==> v@ == spec_reencoded(
                *compressed,
                spec_decompressed(compressed.data@, compressed.algorithm)->0,
            ),
    {
        let decompressed = self.decompress(compressed.data.as_slice(), compressed.algorithm)?;
        let reconstructed = if compressed.original_encoding == TransferEncoding::Base64 && compressed.was_base64_decoded {
            match &compressed.base64_meta {
                Some(meta) => Self::encode_base64_with_meta(decompressed.as_slice(), meta),
                None => Self::encode_base64(decompressed.as_slice()),
            }
        } else if compressed.original_encoding == TransferEncoding::QuotedPrintable {
            Self::encode_quoted_printable(decompressed.as_slice())
        } else {
            decompressed
        };
        Ok(reconstructed)
    }

    /// Processes every part in order, collecting the compressed parts, one
    /// report per part and one error message per failed part.
    fn process_all(&self, raw_content: &[u8], parts: &Vec<MimePart>) -> (res: (
        Vec<PartCompressionReport>,
        Vec<CompressedPart>,
        Vec<String>,
        usize,
    ))
        requires
            spec_parts_sliceable(parts@, raw_content@.len() as int),
        ensures
            ({
                let (reports, cps, errors, total) = res;
                &&& reports@.len() == parts@.len()
                &&& forall|j: int| 0 <= j < reports@.len() ==> spec_report_fields_match(
                    #[trigger] reports@[j], self.level(), parts@[j], raw_content@, j as usize)
                &&& forall|j: int| 0 <= j < reports@.len() ==> spec_pending_report(#[trigger] reports@[j])
                &&& spec_compressed_parts_inv(cps@, reports@, self.level(), parts@, raw_content@, reports@.len() as int)
                &&& total as int == spec_total_compressed(reports@)
                &&& errors@.len() + count_processed(reports@) == reports@.len()
            }),
    {
        let mut reports: Vec<PartCompressionReport> = Vec::new();
        let mut cps: Vec<CompressedPart> = Vec::new();
        let mut errors: Vec<String> = Vec::new();
        let mut total: usize = 0;
        let mut idx: usize = 0;
        while idx < parts.len()
            invariant
                0 <= idx <= parts@.len(),
                spec_parts_sliceable(parts@, raw_content@.len() as int),
                reports@.len() == idx,
                forall|j: int| 0 <= j < idx ==> spec_report_fields_match(
                    #[trigger] reports@[j], self.level(), parts@[j], raw_content@, j as usize),
                forall|j: int| 0 <= j < idx ==> spec_pending_report(#[trigger] reports@[j]),
                spec_compressed_parts_inv(cps@, reports@, self.level(), parts@, raw_content@, idx as int),
                total as int == spec_total_compressed(reports@),
                errors@.len() + count_processed(reports@) == idx,
            decreases parts.len() - idx,
        {
            let part = &parts[idx];
            assert(spec_part_sliceable(parts@[idx as int], raw_content@.len() as int));
            let ghost reports0 = reports@;
            let ghost cps0 = cps@;
            match self.process_part(part, raw_content, idx) {
                Ok((compressed, report)) => {
                    assert(report.compressed_size == compressed.data@.len());
                    total = total.wrapping_add(compressed.data.len());
                    cps.push(compressed);
                    reports.push(report);
                },
                Err(e) => {
                    let mut msg = String::new();
                    push_str(&mut msg, "Part ");
                    push_decimal(&mut msg, idx + 1);
                    push_str(&mut msg, ": ");
                    let m = e.message();
                    push_str(&mut msg, m.as_str());
                    errors.push(msg);
                    reports.push(failure_report(part, idx, &e));
                },
            }
            assert(reports@.drop_last() =~= reports0);
            assert(count_processed(reports@) == count_processed(reports0) + if spec_report_processed(reports@.last()) {
                1nat
            } else {
                0nat
            });
            assert(spec_total_compressed(reports@) == (spec_total_compressed(reports0) + reports@.last().compressed_size) % (usize::MAX as int + 1));
            proof {
                lemma_compressed_parts_inv_step(cps0, cps@, reports0, reports@, self.level(), parts@, raw_content@, idx as int);
            }
            idx = idx + 1;
        }
        (reports, cps, errors, total)
    }

    /// Checks, for every processed part, that its compressed data gives its
    /// decoded body back, and records the outcome in the part's own report.
    fn verify_parts(
        &self,
        reports: &mut Vec<PartCompressionReport>,
        cps: &Vec<CompressedPart>,
        errors: &mut Vec<String>,
        Ghost(parts): Ghost<Seq<MimePart>>,
        Ghost(raw): Ghost<Seq<u8>>,
    )
        requires
            old(reports)@.len() == parts.len(),
            spec_compressed_parts_inv(cps@, old(reports)@, self.level(), parts, raw, parts.len() as int),
            forall|j: int| 0 <= j < old(reports)@.len() ==> spec_report_fields_match(
                #[trigger] old(reports)@[j], self.level(), parts[j], raw, j as usize),
            forall|j: int| 0 <= j < old(reports)@.len() ==> spec_pending_report(#[trigger] old(reports)@[j]),
        ensures
            final(reports)@.len() == old(reports)@.len(),
            forall|j: int| 0 <= j < final(reports)@.len() ==> spec_same_but_verification(
                #[trigger] final(reports)@[j], old(reports)@[j]),
            forall|j: int| 0 <= j < final(reports)@.len() ==> spec_report_verification(
                #[trigger] final(reports)@[j], self.level(), parts[j], raw),
            final(errors)@.len() == old(errors)@.len() + spec_rebuild_failures(
                old(reports)@, self.level(), parts, raw, parts.len() as int),
    {
        let ghost reports0 = reports@;
        let ghost errors0 = errors@.len();
        let ghost level = self.level();
        let mut i: usize = 0;
        while i < reports.len()
            invariant
                0 <= i <= reports0.len(),
                reports@.len() == reports0.len(),
                reports0.len() == parts.len(),
                level == self.level(),
                spec_compressed_parts_inv(cps@, reports0, level, parts, raw, parts.len() as int),
                forall|j: int| 0 <= j < reports0.len() ==> spec_report_fields_match(
                    #[trigger] reports0[j], level, parts[j], raw, j as usize),
                forall|j: int| 0 <= j < reports0.len() ==> spec_pending_report(#[trigger] reports0[j]),
                forall|j: int| 0 <= j < reports@.len() ==> spec_same_but_verification(#[trigger] reports@[j], reports0[j]),
                forall|j: int| i <= j < reports@.len() ==> (#[trigger] reports@[j]) == reports0[j],
                forall|j: int| 0 <= j < i ==> spec_report_verification(#[trigger] reports@[j], level, parts[j], raw),
                errors@.len() == errors0 + spec_rebuild_failures(reports0, level, parts, raw, i as int),
            decreases reports.len() - i,
        {
            let ghost r0 = reports0[i as int];
            let ghost p = parts[i as int];
            assert(spec_pending_report(r0));
            assert(spec_report_fields_match(r0, level, p, raw, i));
            match find_compressed(cps, i) {
                None => {
                    assert(!spec_report_processed(r0));
                    assert(reports@[i as int] == r0);
                    assert(r0.reconstructed_hash@ =~= Seq::<char>::empty());
                    assert(spec_report_verification(reports@[i as int], level, p, raw));
                },
                Some(pos) => {
                    let compressed = &cps[pos];
                    let ghost d = spec_part_decoded(p, raw)->0;
                    assert(spec_compressed_part_of(cps@[pos as int], level, p, raw, i, d));
                    assert(spec_report_processed(r0));
                    let mut report = reports.remove(i);
                    assert(report == r0);
                    let lower = to_lowercase(compressed.content_type.as_str());
                    let lower_chars = str_chars(lower.as_str());
                    if chars_start_with(&lower_chars, "multipart/") {
                        report.reconstructed_hash = compressed.original_hash.clone();
                        report.reconstruction_verified = true;
                        assert(spec_part_is_multipart(p));
                        assert(d =~= Seq::<u8>::empty());
                        assert(spec_part_roundtrips(level, p, raw));
                        assert(report.reconstructed_hash@ == spec_part_reconstructed_hash(level, p, raw));
                    } else {
                        match self.reconstruct_part(compressed) {
                            Ok(reconstructed) => {
                                assert(reconstructed@ == spec_part_reencoded(
                                    p,
                                    raw,
                                    spec_decompressed(compressed.data@, compressed.algorithm)->0,
                                ));
                                let reconstructed_hash = Self::hash_data(reconstructed.as_slice());
                                let decompressed = match self.decompress(compressed.data.as_slice(), compressed.algorithm) {
                                    Ok(v) => v,
                                    Err(_) => {
                                        assert(false);
                                        Vec::new()
                                    },
                                };
                                let original_decoded = if compressed.was_base64_decoded {
                                    match Self::decode_base64(compressed.original_raw.as_slice()) {
                                        Ok(v) => v,
                                        Err(_) => {
                                            assert(false);
                                            Vec::new()
                                        },
                                    }
                                } else if compressed.original_encoding == TransferEncoding::QuotedPrintable {
                                    match Self::decode_quoted_printable(compressed.original_raw.as_slice()) {
                                        Ok(v) => v,
                                        Err(_) => {
                                            assert(false);
                                            Vec::new()
                                        },
                                    }
                                } else {
                                    compressed.original_raw.clone()
                                };
                                assert(original_decoded@ == d);
                                let verified = bytes_equal(decompressed.as_slice(), original_decoded.as_slice());
                                report.reconstructed_hash = reconstructed_hash;
                                report.reconstruction_verified = verified;
                                if !verified {
                                    report.error_message = Some(to_owned_string("Decoded content mismatch after reconstruction"));
                                }
                                assert(!spec_part_is_multipart(p));
                                assert(verified == spec_part_roundtrips(level, p, raw));
                                assert(report.reconstructed_hash@ == spec_part_reconstructed_hash(level, p, raw));
                            },
                            Err(e) => {
                                report.reconstruction_verified = false;
                                let m = e.message();
                                report.error_message = Some(concat("Reconstruction failed: ", m.as_str()));
                                let mut msg = String::new();
                                push_str(&mut msg, "Part ");
                                push_decimal(&mut msg, i + 1);
                                push_str(&mut msg, " reconstruction failed: ");
                                push_str(&mut msg, m.as_str());
                                errors.push(msg);
                                assert(report.reconstructed_hash@ =~= Seq::<char>::empty());
                                assert(spec_part_rebuilt(level, p, raw) is None);
                            },
                        }
                    }
                    assert(spec_same_but_verification(report, r0));
                    assert(spec_report_verification(report, level, p, raw));
                    reports.insert(i, report);
                },
            }
            i = i + 1;
        }
    }

    /// Rebuilds the whole message: the processed parts' bodies are rebuilt and
    /// spliced into the raw message in order of decreasing body offset.
    fn rebuild_email(
        &self,
        raw_content: &[u8],
        parts: &Vec<MimePart>,
        cps: &Vec<CompressedPart>,
        Ghost(reports): Ghost<Seq<PartCompressionReport>>,
    ) -> (res: (Vec<u8>, bool))
        requires
            reports.len() == parts@.len(),
            spec_compressed_parts_inv(cps@, reports, self.level(), parts@, raw_content@, parts@.len() as int),
        ensures
            (res.0@, res.1) == spec_rebuilt_email(parts@, raw_content@, self.level(), spec_processed_flags(reports)),
    {
        let ghost flags = spec_processed_flags(reports);
        let ghost level = self.level();
        let order = desc_order(parts);
        let mut email: Vec<u8> = Vec::new();
        crate::text::extend_bytes(&mut email, raw_content);
        assert(email@ =~= raw_content@);
        let mut success = true;
        let mut k: usize = 0;
        while k < order.len()
            invariant
                0 <= k <= order@.len(),
                forall|q: int| 0 <= q < order@.len() ==> order@[q] < parts@.len(),
                order@ == spec_desc_order(spec_body_offsets(parts@), parts@.len() as int),
                reports.len() == parts@.len(),
                flags == spec_processed_flags(reports),
                level == self.level(),
                spec_compressed_parts_inv(cps@, reports, level, parts@, raw_content@, parts@.len() as int),
                spec_splice(email@, success, order@, k as int, parts@, raw_content@, level, flags)
                    == spec_rebuilt_email(parts@, raw_content@, level, flags),
            decreases order.len() - k,
        {
            let idx = order[k];
            let start = parts[idx].offset_body as usize;
            let end = parts[idx].offset_end as usize;
            if start > email.len() || end > email.len() {
                k = k + 1;
                continue;
            }
            match find_compressed(cps, idx) {
                Some(pos) => {
                    let compressed = &cps[pos];
                    let ghost p = parts@[idx as int];
                    let ghost d = spec_part_decoded(p, raw_content@)->0;
                    assert(flags[idx as int] == spec_report_processed(reports[idx as int]));
                    assert(spec_compressed_part_of(cps@[pos as int], level, p, raw_content@, idx, d));
                    let lower = to_lowercase(compressed.content_type.as_str());
                    let lower_chars = str_chars(lower.as_str());
                    if !chars_start_with(&lower_chars, "multipart/") {
                        match self.reconstruct_part(compressed) {
                            Ok(reconstructed_part) => {
                                assert(reconstructed_part@ == spec_part_reencoded(
                                    p,
                                    raw_content@,
                                    spec_decompressed(compressed.data@, compressed.algorithm)->0,
                                ));
                                email = splice_bytes(&email, start, end, &reconstructed_part);
                            },
                            Err(_) => {
                                success = false;
                            },
                        }
                    }
                },
                None => {
                    assert(!flags[idx as int]);
                },
            }
            k = k + 1;
        }
        (email, success)
    }

    /// Compresses every part of a parsed message and verifies the result.
    pub fn compress_parsed(&self, raw_content: &[u8], mail: &ParsedMail) -> (report: CompressionReport)
        requires
            spec_parts_sliceable(mail.parts@, raw_content@.len() as int),
        ensures
            spec_is_report_of(report, self.level(), raw_content@, *mail),
    {
        let ghost level = self.level();
        let ghost parts = mail.parts@;
        let ghost raw = raw_content@;
        let subject = match &mail.subject {
            Some(s) => s.clone(),
            None => to_owned_string("No Subject"),
        };
        let original_email_hash = Self::hash_data(raw_content);
        let original_size = raw_content.len();
        let (mut part_reports, compressed_parts, mut errors, total_compressed_size) = self.process_all(
            raw_content,
            &mail.parts,
        );
        let ghost reports0 = part_reports@;
        let ghost errors0 = errors@.len();
        self.verify_parts(&mut part_reports, &compressed_parts, &mut errors, Ghost(mail.parts@), Ghost(raw_content@));
        let ghost reports1 = part_reports@;
        assert(spec_processed_flags(reports1) =~= spec_processed_flags(reports0)) by {
            assert forall|j: int| 0 <= j < reports1.len() implies spec_report_processed(reports1[j]) == spec_report_processed(reports0[j]) by {
                assert(spec_same_but_verification(reports1[j], reports0[j]));
            }
        }
        assert forall|j: int| 0 <= j < reports1.len() implies spec_report_fields_match(
            #[trigger] reports1[j], level, parts[j], raw, j as usize)
            && spec_report_verification(reports1[j], level, parts[j], raw) by {
            assert(spec_same_but_verification(reports1[j], reports0[j]));
            assert(spec_report_fields_match(reports0[j], level, parts[j], raw, j as usize));
        }
        proof {
            lemma_total_same(reports1, reports0);
            assert forall|j: int| 0 <= j < reports0.len() implies spec_report_processed(#[trigger] reports1[j])
                == spec_report_processed(reports0[j]) by {
                assert(spec_same_but_verification(reports1[j], reports0[j]));
            }
            lemma_rebuild_failures_same(reports1, reports0, level, parts, raw, parts.len() as int);
        }
        let mut all_parts_verified = true;
        let mut i: usize = 0;
        while i < part_reports.len()
            invariant
                0 <= i <= part_reports@.len(),
                all_parts_verified == spec_all_verified(part_reports@.take(i as int)),
            decreases part_reports.len() - i,
        {
            assert(part_reports@.take(i + 1).drop_last() =~= part_reports@.take(i as int));
            all_parts_verified = all_parts_verified && part_reports[i].reconstruction_verified;
            i = i + 1;
        }
        assert(part_reports@.take(i as int) =~= part_reports@);
        let (reconstructed_email, reconstruction_success) = self.rebuild_email(
            raw_content,
            &mail.parts,
            &compressed_parts,
            Ghost(reports0),
        );
        let reconstructed_email_hash = Self::hash_data(reconstructed_email.as_slice());
        let same = bytes_equal(reconstructed_email.as_slice(), raw_content);
        let full = all_parts_verified && reconstruction_success && same;
        proof {
            lemma_all_verified_forall(reports1);
            lemma_count_processed_all(reports1);
            if full {
                assert forall|j: int| 0 <= j < reports1.len() && spec_report_processed(#[trigger] reports1[j])
                    implies spec_part_decompresses(level, parts[j], raw) by {
                    assert(reports1[j].reconstruction_verified);
                }
                lemma_no_rebuild_failures(reports1, level, parts, raw, parts.len() as int);
            }
            if spec_decoded_sizes_bounded(parts, raw) && spec_parts_reencode_exactly(parts, raw)
                && (forall|j: int| 0 <= j < reports1.len() ==> spec_report_processed(#[trigger] reports1[j])) {
                assert forall|idx: int| 0 <= idx < parts.len() && spec_report_processed(#[trigger] reports0[idx])
                    implies spec_part_roundtrips(level, parts[idx], raw)
                    && (!spec_part_is_multipart(parts[idx]) ==> spec_part_rebuilt(level, parts[idx], raw)
                        == Some(spec_part_body(parts[idx], raw))) by {
                    lemma_processed_part_rebuilds_body(compressed_parts@, reports0, level, parts, raw, idx);
                }
                assert forall|j: int| 0 <= j < reports1.len() implies (#[trigger] reports1[j]).reconstruction_verified by {
                    assert(spec_report_processed(reports1[j]));
                    assert(spec_report_processed(reports0[j]));
                }
                lemma_all_processed_rebuilds(level, parts, raw, reports0, compressed_parts@);
                let flags = spec_processed_flags(reports0);
                let order = spec_desc_order(spec_body_offsets(parts), parts.len() as int);
                lemma_desc_order_bounds(spec_body_offsets(parts), parts.len() as int);
                assert forall|idx: int| 0 <= idx < parts.len() && flags[idx] && !spec_part_is_multipart(#[trigger] parts[idx])
                    && parts[idx].offset_end as int <= raw.len() implies parts[idx].offset_body <= parts[idx].offset_end
                    && spec_part_rebuilt(level, parts[idx], raw) == Some(raw.subrange(parts[idx].offset_body as int, parts[idx].offset_end as int)) by {
                    assert(spec_report_processed(reports0[idx]));
                    assert(spec_part_sliceable(parts[idx], raw.len() as int));
                }
                lemma_splice_identity(true, order, 0, parts, raw, level, flags);
            }
        }
        assert(part_reports@ == reports1);
        let report = CompressionReport {
            subject,
            original_size,
            compressed_size: total_compressed_size,
            part_reports,
            full_reconstruction_verified: full,
            original_email_hash,
            reconstructed_email_hash,
            errors,
        };
        assert(report.part_reports@ == reports1);
        report
    }

    /// Whether every part of the message can be cut out of it.
    pub fn parts_sliceable(parts: &Vec<MimePart>, raw_len: usize) -> (res: bool)
        ensures
            res == spec_parts_sliceable(parts@, raw_len as int),
    {
        let mut i: usize = 0;
        while i < parts.len()
            invariant
                0 <= i <= parts@.len(),
                forall|j: int| 0 <= j < i ==> spec_part_sliceable(#[trigger] parts@[j], raw_len as int),
            decreases parts.len() - i,
        {
            let part = &parts[i];
            let ct = content_type_string(part, "application/octet-stream");
            let lower = to_lowercase(ct.as_str());
            let lower_chars = str_chars(lower.as_str());
            let multipart = chars_start_with(&lower_chars, "multipart/");
            if !(multipart || part.offset_end as usize > raw_len || part.offset_body <= part.offset_end) {
                return false;
            }
            i = i + 1;
        }
        true
    }

    /// Compresses an entire email and reports on every part.
    ///
    /// Fails on an empty message, on bytes the parser rejects, and on a
    /// message with a part whose body cannot be cut out (its start offset lies
    /// past its end offset).
    pub fn compress_email(&self, raw_content: &[u8]) -> (res: Result<CompressionReport, MailCrushError>)
        ensures
            raw_content@.len() == 0 <==> (res matches Err(e) && e is EmptyMail),
            raw_content@.len() > 0 ==> match spec_parse_mail(raw_content@) {
                None => res matches Err(MailCrushError::ParseError(m)) && m@ == "Failed to parse email"@,
                Some(mail) => {
                    &&& !spec_parts_sliceable(mail.parts@, raw_content@.len() as int) ==> (res matches Err(MailCrushError::InvalidStructure(m)) && m@
                        == "Part body offset lies past its end offset"@)
                    &&& spec_parts_sliceable(mail.parts@, raw_content@.len() as int) ==> (res matches Ok(report)
                        && spec_is_report_of(report, self.level(), raw_content@, mail))
                },
            },
    {
        if raw_content.len() == 0 {
            return Err(MailCrushError::EmptyMail);
        }
        let mail = match parse_mail(raw_content) {
            Some(m) => m,
            None => return Err(MailCrushError::ParseError(to_owned_string("Failed to parse email"))),
        };
        if !Self::parts_sliceable(&mail.parts, raw_content.len()) {
            return Err(MailCrushError::InvalidStructure(to_owned_string("Part body offset lies past its end offset")));
        }
        Ok(self.compress_parsed(raw_content, &mail))
    }

    /// The compressed parts of a parsed message, for storage; fails with the
    /// first part that cannot be processed.
    pub fn compressed_parts_of(&self, raw_content: &[u8], mail: &ParsedMail) -> (res: Result<Vec<CompressedPart>, MailCrushError>)
        requires
            spec_parts_sliceable(mail.parts@, raw_content@.len() as int),
        ensures
            res matches Ok(cps) ==> cps@.len() == mail.parts@.len() && forall|j: int| 0 <= j < cps@.len() ==> spec_stored_part(#[trigger] cps@[j], self.level(), mail.parts@[j], raw_content@, j as usize),
            (forall|j: int| 0 <= j < mail.parts@.len() ==> spec_part_always_processed(self.level(), #[trigger] mail.parts@[j], raw_content@))
                ==> res is Ok,
            (exists|j: int| 0 <= j < mail.parts@.len() && (!spec_part_in_bounds(#[trigger] mail.parts@[j], raw_content@)
                || spec_part_decoded(mail.parts@[j], raw_content@) is None)) ==> res is Err,
            res matches Err(e) ==> !(e is EmptyMail),
            res matches Err(e) && e is InvalidStructure ==> exists|j: int| 0 <= j < mail.parts@.len()
                && !spec_part_in_bounds(#[trigger] mail.parts@[j], raw_content@),
            res matches Err(e) ==> e is InvalidStructure || e is ParseError,
    {
        let mut cps: Vec<CompressedPart> = Vec::new();
        let mut idx: usize = 0;
        while idx < mail.parts.len()
            invariant
                0 <= idx <= mail.parts@.len(),
                spec_parts_sliceable(mail.parts@, raw_content@.len() as int),
                cps@.len() == idx,
                forall|j: int| 0 <= j < idx ==> spec_stored_part(#[trigger] cps@[j], self.level(), mail.parts@[j], raw_content@, j as usize),
            decreases mail.parts.len() - idx,
        {
            assert(spec_part_sliceable(mail.parts@[idx as int], raw_content@.len() as int));
            let ghost cps0 = cps@;
            let part = &mail.parts[idx];
            let (compressed, _) = self.process_part(part, raw_content, idx)?;
            cps.push(compressed);
            assert(cps@[idx as int] == compressed);
            assert(spec_part_in_bounds(mail.parts@[idx as int], raw_content@));
            assert(spec_part_decoded(mail.parts@[idx as int], raw_content@) is Some);
            assert forall|j: int| 0 <= j < idx + 1 implies spec_stored_part(#[trigger] cps@[j], self.level(), mail.parts@[j], raw_content@, j as usize) by {
                if j < idx {
                    assert(cps@[j] == cps0[j]);
                }
            }
            assert(spec_compressed_part_of(cps@[idx as int], self.level(), mail.parts@[idx as int], raw_content@, idx,
                spec_part_decoded(mail.parts@[idx as int], raw_content@)->0));
            idx = idx + 1;
        }
        assert forall|j: int| 0 <= j < mail.parts@.len() implies spec_part_in_bounds(#[trigger] mail.parts@[j], raw_content@)
            && spec_part_decoded(mail.parts@[j], raw_content@) is Some by {
            assert(spec_stored_part(cps@[j], self.level(), mail.parts@[j], raw_content@, j as usize));
        }
        Ok(cps)
    }

    /// The compressed parts of an email, for storage.
    ///
    /// Fails on an empty message, on bytes the parser rejects, on a message
    /// with a part whose body cannot be cut out, and with the first part that
    /// cannot be processed.
    pub fn get_compressed_parts(&self, raw_content: &[u8]) -> (res: Result<Vec<CompressedPart>, MailCrushError>)
        ensures
            raw_content@.len() == 0 <==> (res matches Err(e) && e is EmptyMail),
            raw_content@.len() > 0 ==> match spec_parse_mail(raw_content@) {
                None => res matches Err(MailCrushError::ParseError(m)) && m@ == "Failed to parse email"@,
                Some(mail) => {
                    &&& !spec_parts_sliceable(mail.parts@, raw_content@.len() as int) ==> (res matches Err(MailCrushError::InvalidStructure(m)) && m@
                        == "Part body offset lies past its end offset"@)
                    &&& (res matches Ok(cps) ==> cps@.len() == mail.parts@.len() && forall|j: int| 0 <= j < cps@.len() ==> spec_stored_part(#[trigger] cps@[j], self.level(), mail.parts@[j], raw_content@, j as usize))
                    &&& spec_parts_sliceable(mail.parts@, raw_content@.len() as int) && (forall|j: int| 0 <= j < mail.parts@.len()
                        ==> spec_part_always_processed(self.level(), #[trigger] mail.parts@[j], raw_content@)) ==> res is Ok
                },
            },
    {
        if raw_content.len() == 0 {
            return Err(MailCrushError::EmptyMail);
        }
        let mail = match parse_mail(raw_content) {
            Some(m) => m,
            None => return Err(MailCrushError::ParseError(to_owned_string("Failed to parse email"))),
        };
        if !Self::parts_sliceable(&mail.parts, raw_content.len()) {
            return Err(MailCrushError::InvalidStructure(to_owned_string("Part body offset lies past its end offset")));
        }
        self.compressed_parts_of(raw_content, &mail)
    }
}

} // verus!
