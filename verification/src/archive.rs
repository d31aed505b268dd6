//! The archive format: a message with its part bodies cut out (the structure),
//! followed by one record per stored body.
//!
//! Writing cuts the non-container bodies out of the message in order of their
//! offsets and leaves a placeholder position in the structure for each; reading
//! puts bodies back at those positions.

use vstd::prelude::*;

use crate::algorithm::{clamp_level, CompressionAlgorithm, EmailCompressor};
use crate::base64_lines::{ws_before_line_end, Base64Meta, MetaView};
use crate::codec::{spec_zstd_compress, spec_zstd_decompress, zstd_compress};
use crate::error::{io_error_text, MailCrushError};
use crate::mime::{content_type_string, is_multipart_type, parse_mail, spec_parse_mail, MimePart, ParsedMail, TransferEncoding};
use crate::compression::spec_decompressed;
use crate::pipeline::{
    lemma_stored_part_rebuilds, spec_part_always_processed, spec_part_body, spec_part_content_type, spec_part_decoded,
    spec_part_in_bounds, spec_part_is_multipart, spec_part_sliceable, spec_parts_sliceable, spec_reencoded,
    spec_stored_part,
};
use crate::reader::{lemma_archive_read_back, reads_back, spec_meta_storable, spec_reads_back, spec_record_fits};
use crate::report::{CompressedPart, CompressionReport};
use crate::text::{chars_start_with, concat, extend_bytes, str_chars, to_lowercase, to_owned_string};
use vstd::utf8::encode_utf8;

verus! {

/// The four little-endian bytes of `v`.
pub open spec fn spec_u32_le(v: u32) -> Seq<u8> {
    seq![(v % 256) as u8, ((v / 256) % 256) as u8, ((v / 65536) % 256) as u8, ((v / 16777216) % 256) as u8]
}

/// The two little-endian bytes of `v`.
pub open spec fn spec_u16_le(v: u16) -> Seq<u8> {
    seq![(v % 256) as u8, ((v / 256) % 256) as u8]
}

/// The number whose little-endian bytes are `b[i..i + 4]`.
pub open spec fn spec_read_u32(b: Seq<u8>, i: int) -> int {
    b[i] + 256 * b[i + 1] + 65536 * b[i + 2] + 16777216 * b[i + 3]
}

/// Appends the little-endian bytes of `v`.
pub fn push_u32_le(out: &mut Vec<u8>, v: u32)
    ensures
        final(out)@ == old(out)@ + spec_u32_le(v),
{
    out.push((v % 256) as u8);
    out.push(((v / 256) % 256) as u8);
    out.push(((v / 65536) % 256) as u8);
    out.push(((v / 16777216) % 256) as u8);
    assert(out@ =~= old(out)@ + spec_u32_le(v));
}

/// Appends the little-endian bytes of `v`.
pub fn push_u16_le(out: &mut Vec<u8>, v: u16)
    ensures
        final(out)@ == old(out)@ + spec_u16_le(v),
{
    out.push((v % 256) as u8);
    out.push(((v / 256) % 256) as u8);
    assert(out@ =~= old(out)@ + spec_u16_le(v));
}

/// Reads the little-endian number at `b[i..i + 4]`.
pub fn read_u32_le(b: &[u8], i: usize) -> (res: u32)
    requires
        i + 4 <= b@.len(),
    ensures
        res as int == spec_read_u32(b@, i as int),
{
    let b0 = b[i] as u32;
    let b1 = b[i + 1] as u32;
    let b2 = b[i + 2] as u32;
    let b3 = b[i + 3] as u32;
    b0 + b1 * 256 + b2 * 65536 + b3 * 16777216
}

/// Reading back the bytes written for `v` gives `v`.
pub proof fn lemma_u32_le_roundtrip(v: u32)
    ensures
        spec_read_u32(spec_u32_le(v), 0) == v as int,
{
    let b = spec_u32_le(v);
    assert(b[0] == v % 256);
    assert(b[1] == (v / 256) % 256);
    assert(b[2] == (v / 65536) % 256);
    assert(b[3] == (v / 16777216) % 256);
    assert(v / 16777216 < 256);
}

/// The byte that stands for an algorithm in a stored record.
pub open spec fn algorithm_byte(a: CompressionAlgorithm) -> u8 {
    match a {
        CompressionAlgorithm::NoCompression => 0,
        CompressionAlgorithm::Lz4 => 1,
        CompressionAlgorithm::Zstd => 2,
        CompressionAlgorithm::Gzip => 3,
    }
}

/// The algorithm a stored byte stands for, if any.
pub open spec fn algorithm_of_byte(b: u8) -> Option<CompressionAlgorithm> {
    if b == 0 {
        Some(CompressionAlgorithm::NoCompression)
    } else if b == 1 {
        Some(CompressionAlgorithm::Lz4)
    } else if b == 2 {
        Some(CompressionAlgorithm::Zstd)
    } else if b == 3 {
        Some(CompressionAlgorithm::Gzip)
    } else {
        None
    }
}

/// The byte that stands for a transfer encoding in a stored record.
pub open spec fn encoding_byte(e: TransferEncoding) -> u8 {
    match e {
        TransferEncoding::Identity => 0,
        TransferEncoding::QuotedPrintable => 1,
        TransferEncoding::Base64 => 2,
    }
}

/// The transfer encoding a stored byte stands for, if any.
pub open spec fn encoding_of_byte(b: u8) -> Option<TransferEncoding> {
    if b == 0 {
        Some(TransferEncoding::Identity)
    } else if b == 1 {
        Some(TransferEncoding::QuotedPrintable)
    } else if b == 2 {
        Some(TransferEncoding::Base64)
    } else {
        None
    }
}

/// The byte written for an algorithm.
pub fn algorithm_code(a: CompressionAlgorithm) -> (res: u8)
    ensures
        res == algorithm_byte(a),
{
    match a {
        CompressionAlgorithm::NoCompression => 0,
        CompressionAlgorithm::Lz4 => 1,
        CompressionAlgorithm::Zstd => 2,
        CompressionAlgorithm::Gzip => 3,
    }
}

/// The algorithm a stored byte stands for.
pub fn algorithm_from_code(b: u8) -> (res: Option<CompressionAlgorithm>)
    ensures
        res == algorithm_of_byte(b),
{
    if b == 0 {
        Some(CompressionAlgorithm::NoCompression)
    } else if b == 1 {
        Some(CompressionAlgorithm::Lz4)
    } else if b == 2 {
        Some(CompressionAlgorithm::Zstd)
    } else if b == 3 {
        Some(CompressionAlgorithm::Gzip)
    } else {
        None
    }
}

/// The byte written for a transfer encoding.
pub fn encoding_code(e: TransferEncoding) -> (res: u8)
    ensures
        res == encoding_byte(e),
{
    match e {
        TransferEncoding::Identity => 0,
        TransferEncoding::QuotedPrintable => 1,
        TransferEncoding::Base64 => 2,
    }
}

/// The transfer encoding a stored byte stands for.
pub fn encoding_from_code(b: u8) -> (res: Option<TransferEncoding>)
    ensures
        res == encoding_of_byte(b),
{
    if b == 0 {
        Some(TransferEncoding::Identity)
    } else if b == 1 {
        Some(TransferEncoding::QuotedPrintable)
    } else if b == 2 {
        Some(TransferEncoding::Base64)
    } else {
        None
    }
}

/// Every algorithm and every encoding is read back as the one written.
pub proof fn lemma_codes_roundtrip(a: CompressionAlgorithm, e: TransferEncoding)
    ensures
        algorithm_of_byte(algorithm_byte(a)) == Some(a),
        encoding_of_byte(encoding_byte(e)) == Some(e),
{
}

/// Where an index with key `key` goes in `order` (sorted by increasing key):
/// after every entry from `j` on whose key is not greater.
pub open spec fn spec_asc_insert_pos(order: Seq<usize>, keys: Seq<usize>, key: usize, j: int) -> int
    decreases order.len() - j,
{
    if j < 0 || j >= order.len() {
        order.len() as int
    } else if keys[order[j] as int] > key {
        j
    } else {
        spec_asc_insert_pos(order, keys, key, j + 1)
    }
}

/// The indices `0..n` sorted by increasing key, equal keys in increasing index
/// order: the order a stable sort by key leaves them in.
pub open spec fn spec_asc_order(keys: Seq<usize>, n: int) -> Seq<usize>
    decreases n,
{
    if n <= 0 {
        Seq::empty()
    } else {
        let o = spec_asc_order(keys, n - 1);
        o.insert(spec_asc_insert_pos(o, keys, keys[n - 1], 0), (n - 1) as usize)
    }
}

/// Indices below `n`, each once, ordered by key, equal keys by index.
pub open spec fn spec_stable_order(o: Seq<usize>, keys: Seq<usize>, n: int) -> bool {
    &&& o.len() == n
    &&& forall|a: int| 0 <= a < o.len() ==> #[trigger] o[a] < n
    &&& forall|a: int, b: int| 0 <= a < b < o.len() ==> o[a] != o[b]
    &&& forall|a: int, b: int| 0 <= a < b < o.len() ==> keys[o[a] as int] <= keys[o[b] as int]
    &&& forall|a: int, b: int| 0 <= a < b < o.len() && keys[o[a] as int] == keys[o[b] as int] ==> o[a] < o[b]
}

proof fn lemma_asc_insert_pos(o: Seq<usize>, keys: Seq<usize>, key: usize, j: int)
    requires
        0 <= j <= o.len(),
        forall|a: int, b: int| 0 <= a < b < o.len() ==> keys[o[a] as int] <= keys[o[b] as int],
    ensures
        j <= spec_asc_insert_pos(o, keys, key, j) <= o.len(),
        forall|i: int| j <= i < spec_asc_insert_pos(o, keys, key, j) ==> keys[#[trigger] o[i] as int] <= key,
        spec_asc_insert_pos(o, keys, key, j) < o.len() ==> keys[o[spec_asc_insert_pos(o, keys, key, j)] as int] > key,
    decreases o.len() - j,
{
    if j < o.len() && keys[o[j] as int] <= key {
        lemma_asc_insert_pos(o, keys, key, j + 1);
    }
}

/// The order a stable sort leaves indices in: each index once, keys in
/// increasing order, and equal keys in increasing index order.
pub proof fn lemma_asc_order_is_stable_sort(keys: Seq<usize>, n: int)
    requires
        0 <= n <= keys.len(),
        n <= usize::MAX,
    ensures
        spec_stable_order(spec_asc_order(keys, n), keys, n),
    decreases n,
{
    if n > 0 {
        lemma_asc_order_is_stable_sort(keys, n - 1);
        let o = spec_asc_order(keys, n - 1);
        let k = keys[n - 1];
        lemma_asc_insert_pos(o, keys, k, 0);
        let pos = spec_asc_insert_pos(o, keys, k, 0);
        let o2 = o.insert(pos, (n - 1) as usize);
        assert(spec_asc_order(keys, n) == o2);
        assert forall|i: int| pos <= i < o.len() implies keys[#[trigger] o[i] as int] > k by {
            if i > pos {
                assert(keys[o[pos] as int] <= keys[o[i] as int]);
            }
        }
        assert forall|a: int| 0 <= a < o2.len() implies #[trigger] o2[a] < n by {
            if a < pos {
                assert(o2[a] == o[a]);
            } else if a > pos {
                assert(o2[a] == o[a - 1]);
            }
        }
        assert forall|a: int, b: int| 0 <= a < b < o2.len() implies o2[a] != o2[b] && keys[o2[a] as int] <= keys[
            o2[b] as int] && (keys[o2[a] as int] == keys[o2[b] as int] ==> o2[a] < o2[b]) by {
            if b < pos {
                assert(o2[a] == o[a] && o2[b] == o[b]);
            } else if b == pos {
                assert(o2[a] == o[a]);
                assert(o[a] < n - 1);
            } else if a > pos {
                assert(o2[a] == o[a - 1] && o2[b] == o[b - 1]);
            } else if a == pos {
                assert(o2[b] == o[b - 1]);
                assert(o[b - 1] < n - 1);
                assert(keys[o[b - 1] as int] > k);
            } else {
                assert(o2[a] == o[a] && o2[b] == o[b - 1]);
            }
        }
    }
}

/// The indices of `keys` in the order a stable sort by key leaves them.
pub fn asc_order(keys: &Vec<usize>) -> (res: Vec<usize>)
    ensures
        res@ == spec_asc_order(keys@, keys@.len() as int),
        res@.len() == keys@.len(),
        forall|k: int| 0 <= k < res@.len() ==> res@[k] < keys@.len(),
{
    let mut order: Vec<usize> = Vec::new();
    let mut i: usize = 0;
    while i < keys.len()
        invariant
            0 <= i <= keys@.len(),
            order@ == spec_asc_order(keys@, i as int),
            order@.len() == i,
            forall|k: int| 0 <= k < order@.len() ==> order@[k] < i,
        decreases keys.len() - i,
    {
        let key = keys[i];
        let mut j: usize = 0;
        while j < order.len() && keys[order[j]] <= key
            invariant
                0 <= j <= order@.len(),
                order@.len() == i,
                i < keys@.len(),
                forall|k: int| 0 <= k < order@.len() ==> order@[k] < i,
                spec_asc_insert_pos(order@, keys@, key, 0) == spec_asc_insert_pos(order@, keys@, key, j as int),
            decreases order.len() - j,
        {
            j = j + 1;
        }
        assert(spec_asc_insert_pos(order@, keys@, key, j as int) == j);
        order.insert(j, i);
        i = i + 1;
        assert forall|k: int| 0 <= k < order@.len() implies order@[k] < i by {}
    }
    order
}

proof fn lemma_insert_pos_end(order: Seq<usize>, keys: Seq<usize>, key: usize, j: int)
    requires
        0 <= j <= order.len(),
        forall|a: int| j <= a < order.len() ==> keys[#[trigger] order[a] as int] <= key,
    ensures
        spec_asc_insert_pos(order, keys, key, j) == order.len(),
    decreases order.len() - j,
{
    if j < order.len() {
        lemma_insert_pos_end(order, keys, key, j + 1);
    }
}

/// Keys already in order are left in place by a stable sort.
pub proof fn lemma_asc_order_sorted_keys(keys: Seq<usize>, n: int)
    requires
        0 <= n <= keys.len(),
        n <= usize::MAX,
        forall|a: int, b: int| 0 <= a < b < n ==> keys[a] <= keys[b],
    ensures
        spec_asc_order(keys, n) == Seq::new(n as nat, |i: int| i as usize),
    decreases n,
{
    if n > 0 {
        lemma_asc_order_sorted_keys(keys, n - 1);
        let o = spec_asc_order(keys, n - 1);
        assert forall|a: int| 0 <= a < o.len() implies keys[#[trigger] o[a] as int] <= keys[n - 1] by {
            assert(o[a] as int == a);
        }
        lemma_insert_pos_end(o, keys, keys[n - 1], 0);
        assert(o.insert(n - 1, (n - 1) as usize) =~= Seq::new(n as nat, |i: int| i as usize));
    }
}

/// A body to be stored: where it lies in the message, and which compressed
/// part holds it.
#[derive(Debug, Clone, Copy)]
pub struct BodyRange {
    /// Offset of the body in the message.
    pub offset_body: usize,
    /// Offset just past the body.
    pub offset_end: usize,
    /// Position of the compressed part that holds the body.
    pub compressed_index: usize,
}

/// The bodies stored for the first `n` compressed parts: one for each part that
/// is not a container and whose index names a part of the message, in the
/// order of the compressed parts.
pub open spec fn spec_selected_bodies(cps: Seq<CompressedPart>, parts: Seq<MimePart>, n: int) -> Seq<BodyRange>
    decreases n,
{
    if n <= 0 {
        Seq::empty()
    } else {
        let prev = spec_selected_bodies(cps, parts, n - 1);
        let cp = cps[n - 1];
        if is_multipart_type(cp.content_type@) || cp.part_index >= parts.len() {
            prev
        } else {
            let p = parts[cp.part_index as int];
            prev.push(BodyRange {
                offset_body: p.offset_body as usize,
                offset_end: p.offset_end as usize,
                compressed_index: (n - 1) as usize,
            })
        }
    }
}

/// The body offsets of a list of ranges.
pub open spec fn spec_body_keys(v: Seq<BodyRange>) -> Seq<usize> {
    v.map_values(|r: BodyRange| r.offset_body)
}

/// The ranges sorted by body offset, stably.
pub open spec fn spec_sorted_bodies(v: Seq<BodyRange>) -> Seq<BodyRange> {
    spec_asc_order(spec_body_keys(v), v.len() as int).map_values(|k: usize| v[k as int])
}

/// The bodies to store for the compressed parts of a message, in the order
/// of the compressed parts.
pub fn select_bodies(cps: &Vec<CompressedPart>, parts: &Vec<MimePart>) -> (res: Vec<BodyRange>)
    ensures
        res@ == spec_selected_bodies(cps@, parts@, cps@.len() as int),
        forall|k: int| 0 <= k < res@.len() ==> (#[trigger] res@[k]).compressed_index < cps@.len(),
{
    let mut out: Vec<BodyRange> = Vec::new();
    let mut k: usize = 0;
    while k < cps.len()
        invariant
            0 <= k <= cps@.len(),
            out@ == spec_selected_bodies(cps@, parts@, k as int),
            forall|j: int| 0 <= j < out@.len() ==> (#[trigger] out@[j]).compressed_index < k,
        decreases cps.len() - k,
    {
        let cp = &cps[k];
        let lower = to_lowercase(cp.content_type.as_str());
        let lower_chars = str_chars(lower.as_str());
        let multipart = chars_start_with(&lower_chars, "multipart/");
        if !multipart && cp.part_index < parts.len() {
            let p = &parts[cp.part_index];
            out.push(BodyRange {
                offset_body: p.offset_body as usize,
                offset_end: p.offset_end as usize,
                compressed_index: k,
            });
        }
        k = k + 1;
    }
    out
}

/// `v` sorted by body offset, stably.
pub fn sort_bodies(v: &Vec<BodyRange>) -> (res: Vec<BodyRange>)
    ensures
        res@ == spec_sorted_bodies(v@),
        res@.len() == v@.len(),
        forall|k: int| #![trigger res@[k]] 0 <= k < res@.len() ==> exists|j: int| #![trigger v@[j]] 0 <= j < v@.len() && res@[k] == v@[j],
{
    let mut keys: Vec<usize> = Vec::new();
    let mut i: usize = 0;
    while i < v.len()
        invariant
            0 <= i <= v@.len(),
            keys@ == spec_body_keys(v@).take(i as int),
        decreases v.len() - i,
    {
        keys.push(v[i].offset_body);
        assert(keys@ =~= spec_body_keys(v@).take(i + 1));
        i = i + 1;
    }
    assert(keys@ =~= spec_body_keys(v@));
    let order = asc_order(&keys);
    let mut out: Vec<BodyRange> = Vec::new();
    let mut k: usize = 0;
    while k < order.len()
        invariant
            0 <= k <= order@.len(),
            order@.len() == v@.len(),
            order@ == spec_asc_order(spec_body_keys(v@), v@.len() as int),
            forall|j: int| 0 <= j < order@.len() ==> order@[j] < v@.len(),
            out@ == order@.take(k as int).map_values(|j: usize| v@[j as int]),
        decreases order.len() - k,
    {
        out.push(v[order[k]]);
        assert(out@ =~= order@.take(k + 1).map_values(|j: usize| v@[j as int]));
        k = k + 1;
    }
    assert(order@.take(order@.len() as int) =~= order@);
    assert forall|k: int| #![trigger out@[k]] 0 <= k < out@.len() implies exists|j: int| #![trigger v@[j]] 0 <= j < v@.len() && out@[k] == v@[j] by {
        assert(out@[k] == v@[order@[k] as int]);
    }
    out
}

/// The ranges are in order and lie within a message of `raw_len` bytes: each
/// body starts no later than it ends, and no earlier than the previous one ends.
pub open spec fn spec_ranges_chained(r: Seq<BodyRange>, raw_len: int) -> bool {
    &&& forall|i: int| 0 <= i < r.len() ==> (#[trigger] r[i]).offset_body <= r[i].offset_end
    &&& forall|i: int| #![trigger r[i]] 0 < i < r.len() ==> r[i - 1].offset_end <= r[i].offset_body
    &&& r.len() > 0 ==> r.last().offset_end <= raw_len
}

/// Whether the ranges are in order and lie within a message of `raw_len` bytes.
pub fn ranges_chained(r: &Vec<BodyRange>, raw_len: usize) -> (res: bool)
    ensures
        res == spec_ranges_chained(r@, raw_len as int),
{
    let mut i: usize = 0;
    while i < r.len()
        invariant
            0 <= i <= r@.len(),
            forall|j: int| 0 <= j < i ==> (#[trigger] r@[j]).offset_body <= r@[j].offset_end,
            forall|j: int| #![trigger r@[j]] 0 < j < i ==> r@[j - 1].offset_end <= r@[j].offset_body,
        decreases r.len() - i,
    {
        if r[i].offset_body > r[i].offset_end {
            return false;
        }
        if i > 0 && r[i - 1].offset_end > r[i].offset_body {
            return false;
        }
        i = i + 1;
    }
    if r.len() > 0 && r[r.len() - 1].offset_end > raw_len {
        return false;
    }
    true
}

/// Every range of a chain ends within the message.
pub proof fn lemma_chain_within(r: Seq<BodyRange>, raw_len: int, i: int)
    requires
        spec_ranges_chained(r, raw_len),
        0 <= i < r.len(),
    ensures
        r[i].offset_body <= r[i].offset_end <= raw_len,
    decreases r.len() - i,
{
    if i + 1 < r.len() {
        lemma_chain_within(r, raw_len, i + 1);
        assert(r[i + 1].offset_end <= raw_len);
    }
}

/// The structure of `raw` from range `i` on, starting at `last_end`: the
/// message with the bodies cut out.
pub open spec fn spec_structure(raw: Seq<u8>, r: Seq<BodyRange>, i: int, last_end: int) -> Seq<u8>
    decreases r.len() - i,
{
    if i < 0 || i >= r.len() {
        raw.subrange(last_end, raw.len() as int)
    } else {
        raw.subrange(last_end, r[i].offset_body as int) + spec_structure(raw, r, i + 1, r[i].offset_end as int)
    }
}

/// The placeholder positions of the ranges from `i` on: where each cut-out body
/// stood in the structure, `base` being the structure's length at `last_end`.
pub open spec fn spec_placeholders(r: Seq<BodyRange>, i: int, last_end: int, base: int) -> Seq<usize>
    decreases r.len() - i,
{
    if i < 0 || i >= r.len() {
        Seq::empty()
    } else {
        let p = base + (r[i].offset_body - last_end);
        seq![p as usize] + spec_placeholders(r, i + 1, r[i].offset_end as int, p)
    }
}

proof fn lemma_placeholders_len(r: Seq<BodyRange>, i: int, last_end: int, base: int)
    requires
        0 <= i <= r.len(),
    ensures
        spec_placeholders(r, i, last_end, base).len() == r.len() - i,
    decreases r.len() - i,
{
    if i < r.len() {
        let p = base + (r[i].offset_body - last_end);
        lemma_placeholders_len(r, i + 1, r[i].offset_end as int, p);
    }
}

/// The placeholder positions never decrease, and none lies before `base`.
pub proof fn lemma_placeholders_sorted(raw_len: int, r: Seq<BodyRange>, i: int, last_end: int, base: int)
    requires
        spec_ranges_chained(r, raw_len),
        0 <= i <= r.len(),
        last_end == (if i == 0 { 0 } else { r[i - 1].offset_end as int }),
        0 <= base,
        base + (raw_len - last_end) <= usize::MAX,
    ensures
        ({
            let p = spec_placeholders(r, i, last_end, base);
            &&& p.len() == r.len() - i
            &&& forall|a: int| 0 <= a < p.len() ==> base <= #[trigger] p[a]
            &&& forall|a: int, b: int| 0 <= a < b < p.len() ==> p[a] <= p[b]
        }),
    decreases r.len() - i,
{
    lemma_placeholders_len(r, i, last_end, base);
    if i < r.len() {
        lemma_chain_within(r, raw_len, i);
        if i > 0 {
            assert(last_end <= r[i].offset_body);
        }
        let ph = base + (r[i].offset_body - last_end);
        let e = r[i].offset_end as int;
        lemma_placeholders_sorted(raw_len, r, i + 1, e, ph);
        let p = spec_placeholders(r, i, last_end, base);
        let rest = spec_placeholders(r, i + 1, e, ph);
        assert(p == seq![ph as usize] + rest);
        assert forall|a: int| 0 <= a < p.len() implies base <= #[trigger] p[a] by {
            if a > 0 {
                assert(p[a] == rest[a - 1]);
            }
        }
        assert forall|a: int, b: int| 0 <= a < b < p.len() implies p[a] <= p[b] by {
            assert(p[b] == rest[b - 1]);
            if a > 0 {
                assert(p[a] == rest[a - 1]);
            }
        }
    }
}

/// Cuts the bodies out of `raw`: the structure that remains, and for each
/// range the position in the structure where its body stood.
#[verifier::rlimit(30)]
#[verifier::spinoff_prover]
pub fn split_structure(raw: &[u8], ranges: &Vec<BodyRange>) -> (res: (Vec<u8>, Vec<usize>))
    requires
        spec_ranges_chained(ranges@, raw@.len() as int),
    ensures
        res.0@ == spec_structure(raw@, ranges@, 0, 0),
        res.1@ == spec_placeholders(ranges@, 0, 0, 0),
{
    let ghost r = ranges@;
    let ghost total = spec_structure(raw@, r, 0, 0);
    let ghost total_ph = spec_placeholders(r, 0, 0, 0);
    let mut structure: Vec<u8> = Vec::new();
    let mut placeholders: Vec<usize> = Vec::new();
    let mut last_end: usize = 0;
    let mut i: usize = 0;
    assert(structure@ + spec_structure(raw@, r, 0, 0) =~= total);
    assert(placeholders@ + spec_placeholders(r, 0, 0, 0) =~= total_ph);
    while i < ranges.len()
        invariant
            r == ranges@,
            spec_ranges_chained(r, raw@.len() as int),
            0 <= i <= r.len(),
            last_end == (if i == 0 { 0 } else { r[i - 1].offset_end }),
            last_end <= raw@.len(),
            structure@ + spec_structure(raw@, r, i as int, last_end as int) == total,
            placeholders@ + spec_placeholders(r, i as int, last_end as int, structure@.len() as int) == total_ph,
        decreases ranges.len() - i,
    {
        let range = ranges[i];
        proof {
            lemma_chain_within(r, raw@.len() as int, i as int);
        }
        let ghost s0 = structure@;
        let ghost p0 = placeholders@;
        crate::text::extend_bytes(&mut structure, &raw[last_end..range.offset_body]);
        placeholders.push(structure.len());
        assert(structure@ + spec_structure(raw@, r, i + 1, range.offset_end as int) =~= s0 + spec_structure(raw@, r, i as int, last_end as int));
        assert(placeholders@ + spec_placeholders(r, i + 1, range.offset_end as int, structure@.len() as int)
            =~= p0 + spec_placeholders(r, i as int, last_end as int, s0.len() as int));
        last_end = range.offset_end;
        i = i + 1;
    }
    crate::text::extend_bytes(&mut structure, &raw[last_end..raw.len()]);
    assert(structure@ =~= total);
    assert(placeholders@ =~= total_ph);
    (structure, placeholders)
}

/// The bodies the ranges cut out of `raw`.
pub open spec fn spec_range_bodies(raw: Seq<u8>, r: Seq<BodyRange>) -> Seq<Seq<u8>> {
    Seq::new(r.len(), |i: int| raw.subrange(r[i].offset_body as int, r[i].offset_end as int))
}

/// Puts bodies back into a structure, from the `i`th placeholder on with the
/// structure copied up to `pos`: the structure up to each placeholder, then the
/// body, and at the end the rest of the structure.
pub open spec fn spec_reassemble(structure: Seq<u8>, phs: Seq<usize>, bodies: Seq<Seq<u8>>, i: int, pos: int) -> Seq<u8>
    decreases phs.len() - i,
{
    if i < 0 || i >= phs.len() {
        if pos < structure.len() {
            structure.subrange(pos, structure.len() as int)
        } else {
            Seq::empty()
        }
    } else {
        let ph = phs[i] as int;
        (if ph > pos {
            structure.subrange(pos, ph)
        } else {
            Seq::empty()
        }) + bodies[i] + spec_reassemble(structure, phs, bodies, i + 1, ph)
    }
}

proof fn lemma_split_concat(t: Seq<u8>, base: int, seg: Seq<u8>, rest: Seq<u8>)
    requires
        0 <= base <= t.len(),
        t.subrange(base, t.len() as int) == seg + rest,
    ensures
        base + seg.len() <= t.len(),
        t.subrange(base, base + seg.len()) == seg,
        t.subrange(base + seg.len(), t.len() as int) == rest,
{
    let whole = t.subrange(base, t.len() as int);
    assert(whole.len() == seg.len() + rest.len());
    assert forall|k: int| 0 <= k < seg.len() implies t.subrange(base, base + seg.len())[k] == seg[k] by {
        assert(whole[k] == (seg + rest)[k]);
        assert(whole[k] == t[base + k]);
    }
    assert forall|k: int| 0 <= k < rest.len() implies t.subrange(base + seg.len(), t.len() as int)[k] == rest[k] by {
        assert(whole[seg.len() + k] == (seg + rest)[seg.len() + k]);
        assert(whole[seg.len() + k] == t[base + seg.len() + k]);
    }
    assert(t.subrange(base, base + seg.len()) =~= seg);
    assert(t.subrange(base + seg.len(), t.len() as int) =~= rest);
}

#[verifier::rlimit(80)]
#[verifier::spinoff_prover]
proof fn lemma_splice_from(
    raw: Seq<u8>,
    r: Seq<BodyRange>,
    t: Seq<u8>,
    p: Seq<usize>,
    i: int,
    last_end: int,
    base: int,
)
    requires
        spec_ranges_chained(r, raw.len() as int),
        0 <= i <= r.len(),
        last_end == (if i == 0 { 0 } else { r[i - 1].offset_end as int }),
        0 <= base <= t.len(),
        t.len() <= usize::MAX,
        t.subrange(base, t.len() as int) == spec_structure(raw, r, i, last_end),
        p.len() == r.len(),
        p.skip(i) == spec_placeholders(r, i, last_end, base),
    ensures
        spec_reassemble(t, p, spec_range_bodies(raw, r), i, base) == raw.subrange(last_end, raw.len() as int),
        forall|a: int| i <= a < r.len() ==> p[a] <= t.len(),
    decreases r.len() - i,
{
    let bodies = spec_range_bodies(raw, r);
    if i > 0 {
        lemma_chain_within(r, raw.len() as int, i - 1);
    }
    if i == r.len() {
        assert(t.subrange(base, t.len() as int).len() == t.len() - base);
    } else {
        lemma_chain_within(r, raw.len() as int, i);
        if i > 0 {
            assert(last_end <= r[i].offset_body);
        }
        let b = r[i].offset_body as int;
        let e = r[i].offset_end as int;
        let seg = raw.subrange(last_end, b);
        let ph = base + (b - last_end);
        let rest_t = spec_structure(raw, r, i + 1, e);
        assert(seg.len() == b - last_end);
        lemma_split_concat(t, base, seg, rest_t);
        assert(0 <= ph <= t.len());
        assert(p[i] as int == ph) by {
            assert(p.skip(i)[0] == p[i]);
            assert(spec_placeholders(r, i, last_end, base)[0] == ph as usize);
        }
        assert(p.skip(i + 1) == spec_placeholders(r, i + 1, e, ph)) by {
            assert(p.skip(i + 1) =~= p.skip(i).skip(1));
            assert(spec_placeholders(r, i, last_end, base).skip(1) =~= spec_placeholders(r, i + 1, e, ph));
        }
        lemma_splice_from(raw, r, t, p, i + 1, e, ph);
        let first = if ph > base { t.subrange(base, ph) } else { Seq::<u8>::empty() };
        assert(first =~= seg);
        assert(bodies[i] == raw.subrange(b, e));
        assert(spec_reassemble(t, p, bodies, i, base) == first + bodies[i] + spec_reassemble(t, p, bodies, i + 1, ph));
        assert(seg + raw.subrange(b, e) + raw.subrange(e, raw.len() as int) =~= raw.subrange(last_end, raw.len() as int));
    }
}

proof fn lemma_structure_len(raw: Seq<u8>, r: Seq<BodyRange>, i: int, last_end: int)
    requires
        spec_ranges_chained(r, raw.len() as int),
        0 <= i <= r.len(),
        0 <= last_end,
        i < r.len() ==> last_end <= r[i].offset_body,
        i == r.len() ==> last_end <= raw.len(),
    ensures
        spec_structure(raw, r, i, last_end).len() <= raw.len() - last_end,
    decreases r.len() - i,
{
    if i < r.len() {
        lemma_chain_within(r, raw.len() as int, i);
        if i + 1 < r.len() {
            assert(r[i + 1].offset_body >= r[i].offset_end);
        }
        lemma_structure_len(raw, r, i + 1, r[i].offset_end as int);
    }
}

/// Putting the cut-out bodies back at their placeholders gives the message
/// back: splitting a message and reassembling it loses nothing.
pub proof fn lemma_structure_roundtrip(raw: Seq<u8>, r: Seq<BodyRange>)
    requires
        spec_ranges_chained(r, raw.len() as int),
        raw.len() <= usize::MAX,
    ensures
        spec_reassemble(spec_structure(raw, r, 0, 0), spec_placeholders(r, 0, 0, 0), spec_range_bodies(raw, r), 0, 0)
            == raw,
        spec_placeholders(r, 0, 0, 0).len() == r.len(),
        forall|a: int| 0 <= a < r.len() ==> spec_placeholders(r, 0, 0, 0)[a] <= spec_structure(raw, r, 0, 0).len(),
        spec_structure(raw, r, 0, 0).len() <= raw.len(),
{
    let t = spec_structure(raw, r, 0, 0);
    let p = spec_placeholders(r, 0, 0, 0);
    lemma_placeholders_len(r, 0, 0, 0);
    lemma_structure_len(raw, r, 0, 0);
    assert(t.subrange(0, t.len() as int) =~= t);
    assert(p.skip(0) =~= p);
    lemma_splice_from(raw, r, t, p, 0, 0, 0);
    assert(raw.subrange(0, raw.len() as int) =~= raw);
}


/// The hash field of a record: the hash's bytes, cut or padded with zeros to 64.
pub open spec fn spec_hash_field(h: Seq<u8>) -> Seq<u8> {
    Seq::new(64, |i: int| if i < h.len() { h[i] } else { 0u8 })
}

/// The entry of line `i` in serialized Base64 layout: its length (two bytes),
/// its ending (1 for CRLF), and its trailing whitespace with that length first.
pub open spec fn spec_line_entry(m: MetaView, i: int) -> Seq<u8> {
    let ws = if i < m.trailing_whitespace.len() { m.trailing_whitespace[i] } else { Seq::empty() };
    spec_u16_le(m.line_lengths[i] as u16) + seq![
        if i < m.line_endings.len() && m.line_endings[i] { 1u8 } else { 0u8 },
        ws.len() as u8,
    ] + ws
}

/// The entries of the first `n` lines.
pub open spec fn spec_line_entries(m: MetaView, n: int) -> Seq<u8>
    decreases n,
{
    if n <= 0 {
        Seq::empty()
    } else {
        spec_line_entries(m, n - 1) + spec_line_entry(m, n - 1)
    }
}

/// A serialized Base64 layout: the number of lines, their entries, and whether
/// a line ending follows the last line.
pub open spec fn spec_meta_bytes(m: MetaView) -> Seq<u8> {
    spec_u32_le(m.line_lengths.len() as u32) + spec_line_entries(m, m.line_lengths.len() as int) + seq![
        if m.has_trailing_newline { 1u8 } else { 0u8 },
    ]
}

/// The layout field of a record: the serialized layout with its length first,
/// or a zero length when there is none.
pub open spec fn spec_meta_field(meta: Option<Base64Meta>) -> Seq<u8> {
    match meta {
        Some(m) => spec_u32_le(spec_meta_bytes(m@).len() as u32) + spec_meta_bytes(m@),
        None => spec_u32_le(0),
    }
}

/// The record of one stored body.
pub open spec fn spec_part_record(cp: CompressedPart, placeholder: usize, body_len: usize) -> Seq<u8> {
    spec_u32_le(placeholder as u32) + seq![
        algorithm_byte(cp.algorithm),
        encoding_byte(cp.original_encoding),
        if cp.was_base64_decoded { 1u8 } else { 0u8 },
    ] + spec_u32_le(body_len as u32) + spec_u32_le(cp.data@.len() as u32) + cp.data@ + spec_hash_field(
        encode_utf8(cp.original_hash@),
    ) + spec_meta_field(cp.base64_meta)
}

/// The records of the first `n` ranges.
pub open spec fn spec_records(cps: Seq<CompressedPart>, r: Seq<BodyRange>, phs: Seq<usize>, n: int) -> Seq<u8>
    decreases n,
{
    if n <= 0 {
        Seq::empty()
    } else {
        spec_records(cps, r, phs, n - 1) + spec_part_record(
            cps[r[n - 1].compressed_index as int],
            phs[n - 1],
            (r[n - 1].offset_end - r[n - 1].offset_body) as usize,
        )
    }
}

/// The archive: the magic bytes `MCR5`, the message size, the number of stored
/// bodies, the structure's size, the compressed structure with its size first,
/// and the records.
pub open spec fn spec_archive_bytes(
    raw_len: usize,
    cps: Seq<CompressedPart>,
    r: Seq<BodyRange>,
    structure_len: usize,
    phs: Seq<usize>,
    cs: Seq<u8>,
) -> Seq<u8> {
    seq![0x4du8, 0x43u8, 0x52u8, 0x35u8] + spec_u32_le(raw_len as u32) + spec_u32_le(r.len() as u32) + spec_u32_le(
        structure_len as u32,
    ) + spec_u32_le(cs.len() as u32) + cs + spec_records(cps, r, phs, r.len() as int)
}

/// The total length of the first `n` bodies.
pub open spec fn spec_body_total(r: Seq<BodyRange>, n: int) -> int
    decreases n,
{
    if n <= 0 {
        0
    } else {
        spec_body_total(r, n - 1) + (r[n - 1].offset_end - r[n - 1].offset_body)
    }
}

/// The total length of the compressed data of the first `n` stored bodies.
pub open spec fn spec_data_total(cps: Seq<CompressedPart>, r: Seq<BodyRange>, n: int) -> int
    decreases n,
{
    if n <= 0 {
        0
    } else {
        spec_data_total(cps, r, n - 1) + cps[r[n - 1].compressed_index as int].data@.len()
    }
}

proof fn lemma_body_total_bounded(r: Seq<BodyRange>, raw_len: int, n: int)
    requires
        spec_ranges_chained(r, raw_len),
        1 <= n <= r.len(),
    ensures
        0 <= spec_body_total(r, n) <= r[n - 1].offset_end,
    decreases n,
{
    lemma_chain_within(r, raw_len, n - 1);
    assert(spec_body_total(r, n) == spec_body_total(r, n - 1) + (r[n - 1].offset_end - r[n - 1].offset_body));
    if n == 1 {
        assert(spec_body_total(r, 0) == 0);
    } else {
        lemma_body_total_bounded(r, raw_len, n - 1);
        assert(r[n - 2].offset_end <= r[n - 1].offset_body);
    }
}

/// The hash field of a record.
fn hash_field(h: &String) -> (res: Vec<u8>)
    ensures
        res@ == spec_hash_field(encode_utf8(h@)),
{
    let b = h.as_str().as_bytes();
    let mut out: Vec<u8> = Vec::new();
    let mut i: usize = 0;
    while i < 64
        invariant
            0 <= i <= 64,
            b@ == encode_utf8(h@),
            out@ == spec_hash_field(b@).take(i as int),
        decreases 64 - i,
    {
        if i < b.len() {
            out.push(b[i]);
        } else {
            out.push(0u8);
        }
        assert(out@ =~= spec_hash_field(b@).take(i + 1));
        i = i + 1;
    }
    assert(out@ =~= spec_hash_field(b@));
    out
}

/// The serialized Base64 layout.
fn meta_bytes(m: &Base64Meta) -> (res: Vec<u8>)
    ensures
        res@ == spec_meta_bytes(m@),
{
    let mut out: Vec<u8> = Vec::new();
    push_u32_le(&mut out, m.line_lengths.len() as u32);
    let ghost head = out@;
    let mut i: usize = 0;
    while i < m.line_lengths.len()
        invariant
            0 <= i <= m.line_lengths@.len(),
            head == spec_u32_le(m@.line_lengths.len() as u32),
            out@ == head + spec_line_entries(m@, i as int),
        decreases m.line_lengths.len() - i,
    {
        let ghost before = out@;
        push_u16_le(&mut out, m.line_lengths[i] as u16);
        let crlf = i < m.line_endings.len() && m.line_endings[i];
        out.push(if crlf { 1u8 } else { 0u8 });
        let empty: Vec<u8> = Vec::new();
        let ws: &Vec<u8> = if i < m.trailing_whitespace.len() { &m.trailing_whitespace[i] } else { &empty };
        assert(ws@ == (if (i as int) < m@.trailing_whitespace.len() { m@.trailing_whitespace[i as int] } else { Seq::<u8>::empty() }));
        out.push(ws.len() as u8);
        extend_bytes(&mut out, ws.as_slice());
        assert(out@ =~= before + spec_line_entry(m@, i as int));
        i = i + 1;
    }
    out.push(if m.has_trailing_newline { 1u8 } else { 0u8 });
    assert(out@ =~= spec_meta_bytes(m@));
    out
}

/// Appends the layout field of a record.
fn push_meta_field(out: &mut Vec<u8>, meta: &Option<Base64Meta>)
    ensures
        final(out)@ == old(out)@ + spec_meta_field(*meta),
{
    match meta {
        Some(m) => {
            let bytes = meta_bytes(m);
            push_u32_le(out, bytes.len() as u32);
            extend_bytes(out, bytes.as_slice());
            assert(out@ =~= old(out)@ + spec_meta_field(*meta));
        },
        None => {
            push_u32_le(out, 0);
        },
    }
}

/// Appends the record of one stored body.
fn push_part_record(out: &mut Vec<u8>, cp: &CompressedPart, placeholder: usize, body_len: usize)
    ensures
        final(out)@ == old(out)@ + spec_part_record(*cp, placeholder, body_len),
{
    push_u32_le(out, placeholder as u32);
    out.push(algorithm_code(cp.algorithm));
    out.push(encoding_code(cp.original_encoding));
    out.push(if cp.was_base64_decoded { 1u8 } else { 0u8 });
    push_u32_le(out, body_len as u32);
    push_u32_le(out, cp.data.len() as u32);
    extend_bytes(out, cp.data.as_slice());
    let hash = hash_field(&cp.original_hash);
    extend_bytes(out, hash.as_slice());
    push_meta_field(out, &cp.base64_meta);
    assert(out@ =~= old(out)@ + spec_part_record(*cp, placeholder, body_len));
}

/// A written archive with the sizes its writer reports.
pub struct Archive {
    /// The archive's bytes.
    pub bytes: Vec<u8>,
    /// Size of the structure before compression.
    pub structure_len: usize,
    /// Size of the compressed structure.
    pub compressed_structure_len: usize,
    /// Total size of the stored bodies in the message.
    pub parts_original_size: usize,
    /// Total size of their compressed data.
    pub parts_compressed_size: usize,
}

/// Lays out an archive from its pieces (see [`spec_archive_bytes`]), with the
/// total compressed data size of the stored bodies.
pub fn assemble_archive(
    raw_len: usize,
    cps: &Vec<CompressedPart>,
    ranges: &Vec<BodyRange>,
    structure_len: usize,
    placeholders: &Vec<usize>,
    compressed_structure: &Vec<u8>,
) -> (res: (Vec<u8>, usize))
    requires
        placeholders@.len() == ranges@.len(),
        forall|k: int| 0 <= k < ranges@.len() ==> (#[trigger] ranges@[k]).compressed_index < cps@.len()
            && ranges@[k].offset_body <= ranges@[k].offset_end,
    ensures
        res.0@ == spec_archive_bytes(raw_len, cps@, ranges@, structure_len, placeholders@, compressed_structure@),
        res.1 == spec_data_total(cps@, ranges@, ranges@.len() as int),
{
    let mut out: Vec<u8> = Vec::new();
    out.push(0x4d);
    out.push(0x43);
    out.push(0x52);
    out.push(0x35);
    push_u32_le(&mut out, raw_len as u32);
    push_u32_le(&mut out, ranges.len() as u32);
    push_u32_le(&mut out, structure_len as u32);
    push_u32_le(&mut out, compressed_structure.len() as u32);
    extend_bytes(&mut out, compressed_structure.as_slice());
    let ghost head = out@;
    assert(head =~= seq![0x4du8, 0x43u8, 0x52u8, 0x35u8] + spec_u32_le(raw_len as u32) + spec_u32_le(ranges@.len() as u32)
        + spec_u32_le(structure_len as u32) + spec_u32_le(compressed_structure@.len() as u32) + compressed_structure@);
    let mut total: usize = 0;
    let mut i: usize = 0;
    while i < ranges.len()
        invariant
            0 <= i <= ranges@.len(),
            placeholders@.len() == ranges@.len(),
            forall|k: int| 0 <= k < ranges@.len() ==> (#[trigger] ranges@[k]).compressed_index < cps@.len()
                && ranges@[k].offset_body <= ranges@[k].offset_end,
            out@ == head + spec_records(cps@, ranges@, placeholders@, i as int),
            total == spec_data_total(cps@, ranges@, i as int),
            total <= out@.len(),
        decreases ranges.len() - i,
    {
        let range = ranges[i];
        let cp = &cps[range.compressed_index];
        let ghost before = out@;
        push_part_record(&mut out, cp, placeholders[i], range.offset_end - range.offset_body);
        assert(out@ == before + spec_part_record(*cp, placeholders@[i as int], (range.offset_end - range.offset_body) as usize));
        assert(out@.len() >= before.len() + cp.data@.len());
        let out_len = out.len();
        assert(total + cp.data@.len() <= out_len);
        total = total + cp.data.len();
        assert(out@ =~= head + spec_records(cps@, ranges@, placeholders@, i + 1));
        i = i + 1;
    }
    (out, total)
}

/// The archive of `raw` with its bodies cut out along `ranges`, the structure
/// compressed with Zstandard at `level`.
pub open spec fn spec_archive_of(a: Archive, level: u8, raw: Seq<u8>, cps: Seq<CompressedPart>, r: Seq<BodyRange>) -> bool {
    let st = spec_structure(raw, r, 0, 0);
    let cs = spec_zstd_compress(st, level as i32);
    &&& a.bytes@ == spec_archive_bytes(raw.len() as usize, cps, r, st.len() as usize, spec_placeholders(r, 0, 0, 0), cs)
    &&& a.structure_len == st.len()
    &&& a.compressed_structure_len == cs.len()
    &&& spec_zstd_decompress(cs) == Some(st)
    &&& a.parts_original_size == spec_body_total(r, r.len() as int)
    &&& a.parts_compressed_size == spec_data_total(cps, r, r.len() as int)
}

/// Writes the archive of `raw` with its bodies cut out along `ranges`.
#[verifier::rlimit(40)]
#[verifier::spinoff_prover]
fn write_ranges(level: u8, raw: &[u8], cps: &Vec<CompressedPart>, ranges: &Vec<BodyRange>) -> (res: Result<Archive, MailCrushError>)
    requires
        spec_ranges_chained(ranges@, raw@.len() as int),
        forall|k: int| 0 <= k < ranges@.len() ==> (#[trigger] ranges@[k]).compressed_index < cps@.len(),
    ensures
        res is Ok,
        res matches Ok(a) ==> spec_archive_of(a, level, raw@, cps@, ranges@),
{
    let (structure, placeholders) = split_structure(raw, ranges);
    proof {
        lemma_placeholders_len(ranges@, 0, 0, 0);
    }
    let compressed = match zstd_compress(structure.as_slice(), level as i32) {
        Ok(c) => c,
        Err(e) => {
            let t = io_error_text(&e);
            return Err(MailCrushError::ConfigError(concat("Failed to compress structure: ", t.as_str())));
        },
    };
    assert forall|k: int| 0 <= k < ranges@.len() implies (#[trigger] ranges@[k]).compressed_index < cps@.len()
        && ranges@[k].offset_body <= ranges@[k].offset_end by {
        lemma_chain_within(ranges@, raw@.len() as int, k);
    }
    let (bytes, parts_compressed_size) = assemble_archive(raw.len(), cps, ranges, structure.len(), &placeholders, &compressed);
    let mut parts_original_size: usize = 0;
    let mut i: usize = 0;
    while i < ranges.len()
        invariant
            0 <= i <= ranges@.len(),
            spec_ranges_chained(ranges@, raw@.len() as int),
            parts_original_size == spec_body_total(ranges@, i as int),
        decreases ranges.len() - i,
    {
        proof {
            lemma_body_total_bounded(ranges@, raw@.len() as int, i + 1);
            lemma_chain_within(ranges@, raw@.len() as int, i as int);
        }
        parts_original_size = parts_original_size + (ranges[i].offset_end - ranges[i].offset_body);
        i = i + 1;
    }
    Ok(Archive {
        bytes,
        structure_len: structure.len(),
        compressed_structure_len: compressed.len(),
        parts_original_size,
        parts_compressed_size,
    })
}

/// The ranges to cut out of a message for its compressed parts: those of the
/// parts that are not containers, sorted by body offset.
pub open spec fn spec_storage_ranges(cps: Seq<CompressedPart>, mail: ParsedMail) -> Seq<BodyRange> {
    spec_sorted_bodies(spec_selected_bodies(cps, mail.parts@, cps.len() as int))
}

/// Writes the archive of `raw` for its parsed form `mail` and its compressed
/// parts `cps`: the bodies of the parts that are not containers are cut out in
/// order of their offsets, the structure that remains is compressed with
/// Zstandard at `level`, and one record per body follows.
pub fn write_archive(level: u8, raw: &[u8], mail: &ParsedMail, cps: &Vec<CompressedPart>) -> (res: Result<Archive, MailCrushError>)
    requires
        spec_ranges_chained(spec_storage_ranges(cps@, *mail), raw@.len() as int),
    ensures
        res is Ok,
        res matches Ok(a) ==> spec_archive_of(a, level, raw@, cps@, spec_storage_ranges(cps@, *mail)),
{
    let selected = select_bodies(cps, &mail.parts);
    let ranges = sort_bodies(&selected);
    assert forall|k: int| 0 <= k < ranges@.len() implies (#[trigger] ranges@[k]).compressed_index < cps@.len() by {
        let j = choose|j: int| 0 <= j < selected@.len() && ranges@[k] == selected@[j];
        assert(selected@[j].compressed_index < cps@.len());
    }
    write_ranges(level, raw, cps, &ranges)
}

/// Whether a message may be stored: only one whose compression report says
/// it was verified; otherwise the error that aborts compression.
pub fn check_verified(report: &CompressionReport) -> (res: Result<(), MailCrushError>)
    ensures
        res is Ok <==> report.full_reconstruction_verified,
        res matches Err(e) ==> e matches MailCrushError::ConfigError(m)
            && m@ == "Reconstruction verification failed - compression aborted"@,
{
    if report.full_reconstruction_verified {
        Ok(())
    } else {
        Err(MailCrushError::ConfigError(to_owned_string("Reconstruction verification failed - compression aborted")))
    }
}

/// The bodies to store for the parts of a message, from the first `n` parts:
/// one for each part that is not a container, in part order.
pub open spec fn spec_part_ranges(parts: Seq<MimePart>, n: int) -> Seq<BodyRange>
    decreases n,
{
    if n <= 0 {
        Seq::empty()
    } else {
        let prev = spec_part_ranges(parts, n - 1);
        let p = parts[n - 1];
        if spec_part_is_multipart(p) {
            prev
        } else {
            prev.push(BodyRange {
                offset_body: p.offset_body as usize,
                offset_end: p.offset_end as usize,
                compressed_index: (n - 1) as usize,
            })
        }
    }
}

/// The bodies an archive of `mail` stores, sorted by body offset.
pub open spec fn spec_message_ranges(mail: ParsedMail) -> Seq<BodyRange> {
    spec_sorted_bodies(spec_part_ranges(mail.parts@, mail.parts@.len() as int))
}

/// Every part lies within the message.
pub open spec fn spec_parts_in_bounds(parts: Seq<MimePart>, raw: Seq<u8>) -> bool {
    forall|j: int| 0 <= j < parts.len() ==> spec_part_in_bounds(#[trigger] parts[j], raw)
}

/// A message can be cut into a structure and stored bodies: every part lies
/// within it, every body can be cut out, and the bodies to store neither
/// overlap nor run past the end.
pub open spec fn spec_storable(mail: ParsedMail, raw: Seq<u8>) -> bool {
    &&& spec_parts_sliceable(mail.parts@, raw.len() as int)
    &&& spec_parts_in_bounds(mail.parts@, raw)
    &&& spec_ranges_chained(spec_message_ranges(mail), raw.len() as int)
}

/// The compressed parts stored for a message select the same bodies as its
/// parts do.
proof fn lemma_storage_ranges_of_parts(cps: Seq<CompressedPart>, level: u8, mail: ParsedMail, raw: Seq<u8>, n: int)
    requires
        cps.len() == mail.parts@.len(),
        forall|j: int| 0 <= j < cps.len() ==> spec_stored_part(#[trigger] cps[j], level, mail.parts@[j], raw, j as usize),
        0 <= n <= cps.len(),
        cps.len() <= usize::MAX,
    ensures
        spec_selected_bodies(cps, mail.parts@, n) == spec_part_ranges(mail.parts@, n),
    decreases n,
{
    if n > 0 {
        lemma_storage_ranges_of_parts(cps, level, mail, raw, n - 1);
        assert(spec_stored_part(cps[n - 1], level, mail.parts@[n - 1], raw, (n - 1) as usize));
        assert(cps[n - 1].part_index == n - 1);
        assert(cps[n - 1].content_type@ == spec_part_content_type(mail.parts@[n - 1]));
    }
}

/// The bodies to store for the parts of a message (see [`spec_part_ranges`]).
fn part_ranges(parts: &Vec<MimePart>) -> (res: Vec<BodyRange>)
    ensures
        res@ == spec_part_ranges(parts@, parts@.len() as int),
{
    let mut out: Vec<BodyRange> = Vec::new();
    let mut k: usize = 0;
    while k < parts.len()
        invariant
            0 <= k <= parts@.len(),
            out@ == spec_part_ranges(parts@, k as int),
        decreases parts.len() - k,
    {
        let p = &parts[k];
        let ct = content_type_string(p, "application/octet-stream");
        let lower = to_lowercase(ct.as_str());
        let lower_chars = str_chars(lower.as_str());
        if !chars_start_with(&lower_chars, "multipart/") {
            out.push(BodyRange { offset_body: p.offset_body as usize, offset_end: p.offset_end as usize, compressed_index: k });
        }
        k = k + 1;
    }
    out
}

/// Whether every part lies within a message of `raw_len` bytes.
fn parts_in_bounds(parts: &Vec<MimePart>, raw_len: usize) -> (res: bool)
    ensures
        forall|raw: Seq<u8>| raw.len() == raw_len ==> res == #[trigger] spec_parts_in_bounds(parts@, raw),
{
    let mut k: usize = 0;
    while k < parts.len()
        invariant
            0 <= k <= parts@.len(),
            forall|j: int| 0 <= j < k ==> (#[trigger] parts@[j]).offset_end as int <= raw_len,
        decreases parts.len() - k,
    {
        if parts[k].offset_end as usize > raw_len {
            return false;
        }
        k = k + 1;
    }
    true
}

/// Whether a serialized Base64 layout holds the layout without loss (see
/// [`spec_meta_storable`]).
fn meta_storable(m: &Base64Meta) -> (res: bool)
    ensures
        res == spec_meta_storable(m@),
{
    let n = m.line_lengths.len();
    if m.line_endings.len() != n || m.trailing_whitespace.len() != n || n > 0xffff_ffff {
        return false;
    }
    let ghost mv = m@;
    let mut total: u64 = 0;
    let mut i: usize = 0;
    while i < n
        invariant
            0 <= i <= n,
            n == mv.line_lengths.len(),
            mv == m@,
            mv.line_endings.len() == n,
            mv.trailing_whitespace.len() == n,
            total as int == spec_line_entries(mv, i as int).len(),
            total <= 0xffff_ffff,
            forall|k: int| 0 <= k < i ==> #[trigger] mv.line_lengths[k] <= 0xffff && mv.trailing_whitespace[k].len() <= 0xff,
        decreases n - i,
    {
        let ws_len = m.trailing_whitespace[i].len();
        assert(mv.trailing_whitespace[i as int] == m.trailing_whitespace@[i as int]@);
        if m.line_lengths[i] > 0xffff || ws_len > 0xff {
            return false;
        }
        assert(spec_line_entry(mv, i as int).len() == 4 + ws_len);
        total = total + 4 + ws_len as u64;
        if total > 0xffff_ffff {
            proof {
                lemma_line_entries_grow(mv, i as int + 1, n as int);
            }
            return false;
        }
        i = i + 1;
    }
    total <= 0xffff_ffff - 5
}

proof fn lemma_line_entries_grow(m: MetaView, i: int, n: int)
    requires
        0 <= i <= n,
    ensures
        spec_line_entries(m, i).len() <= spec_line_entries(m, n).len(),
    decreases n - i,
{
    if i < n {
        lemma_line_entries_grow(m, i, n - 1);
    }
}

/// Whether every compressed part's record holds its fields without loss.
fn records_fit(cps: &Vec<CompressedPart>) -> (res: bool)
    ensures
        res == forall|j: int| 0 <= j < cps@.len() ==> spec_record_fits(#[trigger] cps@[j]),
{
    let mut j: usize = 0;
    while j < cps.len()
        invariant
            0 <= j <= cps@.len(),
            forall|k: int| 0 <= k < j ==> spec_record_fits(#[trigger] cps@[k]),
        decreases cps.len() - j,
    {
        let cp = &cps[j];
        if cp.data.len() > 0xffff_ffff {
            return false;
        }
        match &cp.base64_meta {
            Some(m) => {
                if !meta_storable(m) {
                    return false;
                }
            },
            None => {},
        }
        j = j + 1;
    }
    true
}

/// The error of an archive with a size too large for its 4-byte field.
pub open spec fn spec_is_too_large(res: Result<Archive, MailCrushError>) -> bool {
    res matches Err(MailCrushError::ConfigError(m)) && m@ == "Archive too large: a size does not fit its 4-byte field"@
}

fn too_large_error() -> (res: MailCrushError)
    ensures
        spec_is_too_large(Err(res)),
{
    MailCrushError::ConfigError(to_owned_string("Archive too large: a size does not fit its 4-byte field"))
}

/// The error of an archive that does not read back as the message it was
/// written for.
fn read_back_error() -> (res: MailCrushError)
    ensures
        res is ConfigError,
        !spec_is_too_large(Err(res)),
{
    let res = MailCrushError::ConfigError(
        to_owned_string("Archive verification failed - the archive does not read back as the message"),
    );
    proof {
        reveal_strlit("Archive verification failed - the archive does not read back as the message");
        reveal_strlit("Archive too large: a size does not fit its 4-byte field");
        assert("Archive verification failed - the archive does not read back as the message"@[8]
            != "Archive too large: a size does not fit its 4-byte field"@[8]);
    }
    res
}

/// An archive written for rebuildable parts, whose sizes fit their fields,
/// reads back as the message.
proof fn lemma_stored_reads_back(level: u8, raw: Seq<u8>, mail: ParsedMail, cps: Seq<CompressedPart>, a: Archive)
    requires
        cps.len() == mail.parts@.len(),
        forall|j: int| 0 <= j < cps.len() ==> spec_stored_part(#[trigger] cps[j], clamp_level(level), mail.parts@[j], raw, j as usize),
        spec_parts_sliceable(mail.parts@, raw.len() as int),
        spec_ranges_chained(spec_storage_ranges(cps, mail), raw.len() as int),
        spec_parts_rebuildable(mail.parts@, raw),
        spec_archive_of(a, level, raw, cps, spec_storage_ranges(cps, mail)),
        raw.len() <= u32::MAX,
        cps.len() <= u32::MAX,
        a.compressed_structure_len <= u32::MAX,
        forall|j: int| 0 <= j < cps.len() ==> spec_record_fits(#[trigger] cps[j]),
    ensures
        spec_reads_back(a.bytes@, raw),
{
    let sel = spec_selected_bodies(cps, mail.parts@, cps.len() as int);
    lemma_selected_bodies(cps, mail.parts@, cps.len() as int);
    lemma_asc_order_is_stable_sort(spec_body_keys(sel), sel.len() as int);
    assert(spec_storage_ranges(cps, mail).len() <= u32::MAX);
    lemma_archive_read_back(clamp_level(level), level, raw, mail, cps, a);
}

/// Writes the archive of `raw` for its compressed parts `cps`, then checks
/// that every size fits its field and that the archive reads back as `raw`.
#[verifier::rlimit(60)]
#[verifier::spinoff_prover]
fn store_parts(level: u8, raw: &[u8], mail: &ParsedMail, cps: &Vec<CompressedPart>) -> (res: Result<Archive, MailCrushError>)
    requires
        cps@.len() == mail.parts@.len(),
        forall|j: int| 0 <= j < cps@.len() ==> spec_stored_part(#[trigger] cps@[j], clamp_level(level), mail.parts@[j], raw@, j as usize),
        spec_parts_sliceable(mail.parts@, raw@.len() as int),
        spec_ranges_chained(spec_storage_ranges(cps@, *mail), raw@.len() as int),
    ensures
        res matches Ok(a) ==> spec_reads_back(a.bytes@, raw@) && spec_archive_of(a, level, raw@, cps@, spec_storage_ranges(cps@, *mail)),
        res matches Err(e) ==> e is ConfigError,
        spec_parts_rebuildable(mail.parts@, raw@) ==> (res is Ok || spec_is_too_large(res)),
        spec_is_too_large(res) ==> raw@.len() > u32::MAX || cps@.len() > u32::MAX || spec_zstd_compress(
            spec_structure(raw@, spec_storage_ranges(cps@, *mail), 0, 0),
            level as i32,
        ).len() > u32::MAX || exists|j: int| 0 <= j < cps@.len() && !spec_record_fits(#[trigger] cps@[j]),
{
    let archive = write_archive(level, raw, mail, cps)?;
    if raw.len() > 0xffff_ffff || cps.len() > 0xffff_ffff || archive.compressed_structure_len > 0xffff_ffff
        || !records_fit(cps) {
        return Err(too_large_error());
    }
    proof {
        if spec_parts_rebuildable(mail.parts@, raw@) {
            lemma_stored_reads_back(level, raw@, *mail, cps@, archive);
        }
    }
    if !reads_back(archive.bytes.as_slice(), raw) {
        return Err(read_back_error());
    }
    Ok(archive)
}

/// Compresses `raw` at `level` and writes its archive.
///
/// Fails with `EmptyMail` on an empty message and with a parse error on bytes
/// the parser rejects; with an invalid-structure error exactly when the
/// message cannot be cut into a structure and stored bodies (see
/// [`spec_storable`]); as processing a part does (see
/// [`EmailCompressor::compressed_parts_of`]); when a size in the archive does
/// not fit its 4-byte field; and when the archive written does not read back
/// as the message, so that every archive it returns gives the message back.
/// A storable message whose parts all process and can be rebuilt exactly is
/// always archived, unless a size is too large.
#[verifier::rlimit(80)]
#[verifier::spinoff_prover]
pub fn archive_email(level: u8, raw: &[u8]) -> (res: Result<Archive, MailCrushError>)
    ensures
        raw@.len() == 0 <==> (res matches Err(e) && e is EmptyMail),
        raw@.len() > 0 ==> match spec_parse_mail(raw@) {
            None => res matches Err(MailCrushError::ParseError(m)) && m@ == "Failed to parse email"@,
            Some(mail) => {
                let level_used = clamp_level(level);
                let stored = |cps: Seq<CompressedPart>| cps.len() == mail.parts@.len() && forall|j: int|
                    0 <= j < cps.len() ==> spec_stored_part(#[trigger] cps[j], level_used, mail.parts@[j], raw@, j as usize);
                &&& (res matches Err(e) && e is InvalidStructure) <==> !spec_storable(mail, raw@)
                &&& (res matches Ok(a) ==> spec_reads_back(a.bytes@, raw@))
                &&& (res matches Ok(a) ==> exists|cps: Seq<CompressedPart>| stored(cps)
                    && spec_ranges_chained(spec_storage_ranges(cps, mail), raw@.len() as int)
                    && #[trigger] spec_archive_of(a, level, raw@, cps, spec_storage_ranges(cps, mail)))
                &&& (spec_storable(mail, raw@) && (forall|j: int| 0 <= j < mail.parts@.len()
                    ==> spec_part_always_processed(level_used, #[trigger] mail.parts@[j], raw@)))
                    ==> (res is Ok || (res matches Err(e) && e is ConfigError))
                &&& (spec_storable(mail, raw@) && (forall|j: int| 0 <= j < mail.parts@.len()
                    ==> spec_part_always_processed(level_used, #[trigger] mail.parts@[j], raw@))
                    && spec_parts_rebuildable(mail.parts@, raw@))
                    ==> (res is Ok || spec_is_too_large(res))
                &&& spec_is_too_large(res) ==> {
                    ||| raw@.len() > u32::MAX
                    ||| mail.parts@.len() > u32::MAX
                    ||| exists|cps: Seq<CompressedPart>| #[trigger] stored(cps) && (spec_zstd_compress(
                        spec_structure(raw@, spec_storage_ranges(cps, mail), 0, 0),
                        level as i32,
                    ).len() > u32::MAX || exists|j: int| 0 <= j < cps.len() && !spec_record_fits(#[trigger] cps[j]))
                }
            },
        },
{
    if raw.len() == 0 {
        return Err(MailCrushError::EmptyMail);
    }
    let mail = match parse_mail(raw) {
        Some(m) => m,
        None => return Err(MailCrushError::ParseError(to_owned_string("Failed to parse email"))),
    };
    if !EmailCompressor::parts_sliceable(&mail.parts, raw.len()) || !parts_in_bounds(&mail.parts, raw.len()) {
        return Err(MailCrushError::InvalidStructure(to_owned_string("A part lies outside the message or cannot be cut out")));
    }
    let by_part = part_ranges(&mail.parts);
    let message_ranges = sort_bodies(&by_part);
    if !ranges_chained(&message_ranges, raw.len()) {
        return Err(MailCrushError::InvalidStructure(to_owned_string("Stored part bodies overlap or lie outside the message")));
    }
    let compressor = EmailCompressor::new(level);
    let cps = compressor.compressed_parts_of(raw, &mail)?;
    proof {
        lemma_storage_ranges_of_parts(cps@, clamp_level(level), mail, raw@, cps@.len() as int);
    }
    assert(spec_storage_ranges(cps@, mail) == spec_message_ranges(mail));
    store_parts(level, raw, &mail, &cps)
}


proof fn lemma_selected_bodies(cps: Seq<CompressedPart>, parts: Seq<MimePart>, n: int)
    requires
        0 <= n <= cps.len(),
        n <= usize::MAX,
    ensures
        spec_selected_bodies(cps, parts, n).len() <= n,
        forall|k: int| #![trigger spec_selected_bodies(cps, parts, n)[k]] 0 <= k < spec_selected_bodies(cps, parts, n).len() ==> {
            let b = spec_selected_bodies(cps, parts, n)[k];
            let cp = cps[b.compressed_index as int];
            &&& b.compressed_index < n
            &&& !is_multipart_type(cp.content_type@)
            &&& cp.part_index < parts.len()
            &&& b.offset_body == parts[cp.part_index as int].offset_body as usize
            &&& b.offset_end == parts[cp.part_index as int].offset_end as usize
        },
    decreases n,
{
    if n > 0 {
        lemma_selected_bodies(cps, parts, n - 1);
        let prev = spec_selected_bodies(cps, parts, n - 1);
        let cur = spec_selected_bodies(cps, parts, n);
        assert forall|k: int| #![trigger cur[k]] 0 <= k < cur.len() implies {
            let b = cur[k];
            let cp = cps[b.compressed_index as int];
            &&& b.compressed_index < n
            &&& !is_multipart_type(cp.content_type@)
            &&& cp.part_index < parts.len()
            &&& b.offset_body == parts[cp.part_index as int].offset_body as usize
            &&& b.offset_end == parts[cp.part_index as int].offset_end as usize
        } by {
            let cp = cps[n - 1];
            if k < prev.len() {
                assert(cur[k] == prev[k]);
                assert(prev[k].compressed_index < n - 1);
            } else {
                assert(!(is_multipart_type(cp.content_type@) || cp.part_index >= parts.len()));
                assert(cur == prev.push(BodyRange {
                    offset_body: parts[cp.part_index as int].offset_body as usize,
                    offset_end: parts[cp.part_index as int].offset_end as usize,
                    compressed_index: (n - 1) as usize,
                }));
                assert(cur[k].compressed_index == n - 1);
            }
        }
    }
}

/// The bodies the records of an archive give back: each record's data
/// decompressed and encoded again as its part was.
pub open spec fn spec_rebuilt_bodies(cps: Seq<CompressedPart>, r: Seq<BodyRange>) -> Seq<Seq<u8>> {
    Seq::new(
        r.len(),
        |i: int|
            {
                let cp = cps[r[i].compressed_index as int];
                spec_reencoded(cp, spec_decompressed(cp.data@, cp.algorithm)->0)
            },
    )
}

/// Every part can be rebuilt byte for byte from its decoded body: its decoded
/// body fits a record, it is not quoted-printable, and in a Base64 body
/// whitespace is followed only by whitespace or line-ending bytes.
pub open spec fn spec_parts_rebuildable(parts: Seq<MimePart>, raw: Seq<u8>) -> bool {
    forall|j: int| #![trigger parts[j]] 0 <= j < parts.len() ==> {
        &&& spec_part_decoded(parts[j], raw)->0.len() <= u32::MAX
        &&& !spec_part_is_multipart(parts[j]) ==> parts[j].encoding != TransferEncoding::QuotedPrintable
        &&& !spec_part_is_multipart(parts[j]) && parts[j].encoding == TransferEncoding::Base64 ==> ws_before_line_end(
            spec_part_body(parts[j], raw),
        )
    }
}

/// What an archive stores gives the message back: putting the bodies its
/// records rebuild at the placeholders of its structure yields the message,
/// for messages whose parts can be rebuilt byte for byte.
pub proof fn lemma_archive_restores_message(level: u8, raw: Seq<u8>, mail: ParsedMail, cps: Seq<CompressedPart>)
    requires
        raw.len() <= usize::MAX,
        cps.len() <= usize::MAX,
        cps.len() == mail.parts@.len(),
        forall|j: int| 0 <= j < cps.len() ==> spec_stored_part(#[trigger] cps[j], level, mail.parts@[j], raw, j as usize),
        spec_parts_sliceable(mail.parts@, raw.len() as int),
        spec_parts_rebuildable(mail.parts@, raw),
        spec_ranges_chained(spec_storage_ranges(cps, mail), raw.len() as int),
    ensures
        spec_reassemble(
            spec_structure(raw, spec_storage_ranges(cps, mail), 0, 0),
            spec_placeholders(spec_storage_ranges(cps, mail), 0, 0, 0),
            spec_rebuilt_bodies(cps, spec_storage_ranges(cps, mail)),
            0,
            0,
        ) == raw,
        spec_rebuilt_bodies(cps, spec_storage_ranges(cps, mail)) == spec_range_bodies(raw, spec_storage_ranges(cps, mail)),
        forall|i: int| 0 <= i < spec_storage_ranges(cps, mail).len() ==> {
            let cp = cps[(#[trigger] spec_storage_ranges(cps, mail)[i]).compressed_index as int];
            &&& spec_storage_ranges(cps, mail)[i].compressed_index < cps.len()
            &&& spec_decompressed(cp.data@, cp.algorithm) is Some
        },
{
    let parts = mail.parts@;
    let sel = spec_selected_bodies(cps, parts, cps.len() as int);
    let r = spec_storage_ranges(cps, mail);
    lemma_selected_bodies(cps, parts, cps.len() as int);
    lemma_asc_order_is_stable_sort(spec_body_keys(sel), sel.len() as int);
    let order = spec_asc_order(spec_body_keys(sel), sel.len() as int);
    assert(r == order.map_values(|k: usize| sel[k as int]));
    assert forall|i: int| 0 <= i < r.len() implies #[trigger] spec_rebuilt_bodies(cps, r)[i] == spec_range_bodies(raw, r)[i] by {
        let k = order[i] as int;
        assert(r[i] == sel[k]);
        let b = sel[k];
        let ci = b.compressed_index as int;
        let cp = cps[ci];
        let p = parts[ci];
        assert(spec_stored_part(cps[ci], level, parts[ci], raw, ci as usize));
        assert(cp.part_index == ci);
        assert(cp.content_type@ == spec_part_content_type(p));
        assert(!spec_part_is_multipart(p));
        assert(spec_part_sliceable(parts[ci], raw.len() as int));
        assert(parts[ci] == p);
        lemma_stored_part_rebuilds(cp, level, p, raw, ci as usize);
        assert(cp.original_raw@ == spec_part_body(p, raw));
    }
    assert forall|i: int| 0 <= i < r.len() implies {
        let cp = cps[(#[trigger] r[i]).compressed_index as int];
        &&& r[i].compressed_index < cps.len()
        &&& spec_decompressed(cp.data@, cp.algorithm) is Some
    } by {
        let k = order[i] as int;
        assert(r[i] == sel[k]);
        let ci = sel[k].compressed_index as int;
        assert(spec_stored_part(cps[ci], level, parts[ci], raw, ci as usize));
        assert(spec_part_sliceable(parts[ci], raw.len() as int));
        lemma_stored_part_rebuilds(cps[ci], level, parts[ci], raw, ci as usize);
    }
    assert(spec_rebuilt_bodies(cps, r) =~= spec_range_bodies(raw, r));
    lemma_structure_roundtrip(raw, r);
}

} // verus!
