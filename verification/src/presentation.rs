//! Text the command-line front end shows: names, columns, JSON, durations.

use vstd::prelude::*;

use crate::analyzer::{lemma_max_depth_parts, max_depth, spec_tree_roots, MailPartSummary, MailSummary};
use crate::error::MailCrushError;
use crate::report::{CompressionReport, PartCompressionReport};
use crate::text::{
    chars_contain, decimal, push_decimal, push_str, replace_all, replace_chars, seq_contains, spec_to_lowercase, str_chars,
    string_from_chars, to_lowercase, to_owned_string,
};
use crate::utils::BatchStats;
use vstd::utf8::{decode_utf8, encode_utf8, is_char_boundary};

verus! {

broadcast use vstd::utf8::encode_utf8_valid_utf8;

/// The byte length of a string as `str::len` reports it.
pub open spec fn byte_len(s: Seq<char>) -> usize {
    encode_utf8(s).len() as usize
}

/// The first `n` bytes of `s` as a string.
pub open spec fn spec_byte_prefix(s: Seq<char>, n: int) -> Seq<char> {
    decode_utf8(encode_utf8(s).subrange(0, n))
}

/// The first `n` bytes of `s`, which must end on a character boundary.
fn byte_prefix(s: &str, n: usize) -> (res: String)
    requires
        is_char_boundary(encode_utf8(s@), n as int),
    ensures
        res@ == spec_byte_prefix(s@, n as int),
{
    let (a, _) = s.split_at(n);
    proof {
        vstd::utf8::encode_utf8_decode_utf8(a@);
    }
    to_owned_string(a)
}

/// JSON string escaping: backslash, double quote, line feed, carriage return
/// and tab, replaced in that order.
pub open spec fn spec_escape_json(s: Seq<char>) -> Seq<char> {
    replace_all(
        replace_all(
            replace_all(replace_all(replace_all(s, "\\"@, "\\\\"@), "\""@, "\\\""@), "\n"@, "\\n"@),
            "\r"@,
            "\\r"@,
        ),
        "\t"@,
        "\\t"@,
    )
}

/// Escapes a string for a JSON string literal.
pub fn escape_json(s: &str) -> (res: String)
    ensures
        res@ == spec_escape_json(s@),
{
    proof {
        reveal_strlit("\\");
        reveal_strlit("\"");
        reveal_strlit("\n");
        reveal_strlit("\r");
        reveal_strlit("\t");
    }
    let c0 = str_chars(s);
    let c1 = replace_chars(&c0, "\\", "\\\\");
    let c2 = replace_chars(&c1, "\"", "\\\"");
    let c3 = replace_chars(&c2, "\n", "\\n");
    let c4 = replace_chars(&c3, "\r", "\\r");
    let c5 = replace_chars(&c4, "\t", "\\t");
    string_from_chars(&c5)
}

/// The file extension guessed from a content type (tested in lowercase).
pub open spec fn spec_guess_extension(content_type: Seq<char>) -> Seq<char> {
    let l = spec_to_lowercase(content_type);
    if seq_contains(l, "text/plain"@) {
        "txt"@
    } else if seq_contains(l, "text/html"@) {
        "html"@
    } else if seq_contains(l, "image/png"@) {
        "png"@
    } else if seq_contains(l, "image/jpeg"@) || seq_contains(l, "image/jpg"@) {
        "jpg"@
    } else if seq_contains(l, "image/gif"@) {
        "gif"@
    } else if seq_contains(l, "application/pdf"@) {
        "pdf"@
    } else if seq_contains(l, "application/zip"@) {
        "zip"@
    } else if seq_contains(l, "application/json"@) {
        "json"@
    } else if seq_contains(l, "application/xml"@) || seq_contains(l, "text/xml"@) {
        "xml"@
    } else {
        "bin"@
    }
}

/// Guesses a file extension from a content type.
pub fn guess_extension(content_type: &str) -> (res: &'static str)
    ensures
        res@ == spec_guess_extension(content_type@),
{
    let lower = to_lowercase(content_type);
    let l = str_chars(lower.as_str());
    if chars_contain(&l, "text/plain") {
        "txt"
    } else if chars_contain(&l, "text/html") {
        "html"
    } else if chars_contain(&l, "image/png") {
        "png"
    } else if chars_contain(&l, "image/jpeg") || chars_contain(&l, "image/jpg") {
        "jpg"
    } else if chars_contain(&l, "image/gif") {
        "gif"
    } else if chars_contain(&l, "application/pdf") {
        "pdf"
    } else if chars_contain(&l, "application/zip") {
        "zip"
    } else if chars_contain(&l, "application/json") {
        "json"
    } else if chars_contain(&l, "application/xml") || chars_contain(&l, "text/xml") {
        "xml"
    } else {
        "bin"
    }
}

/// `s` cut to fit `max_len` bytes: when longer, its first `max_len - 1` bytes
/// followed by an ellipsis.
pub open spec fn spec_truncate(s: &str, max_len: usize) -> Seq<char> {
    if s.len() > max_len {
        spec_byte_prefix(s@, max_len - 1) + "\u{2026}"@
    } else {
        s@
    }
}

/// Cuts `s` to `max_len` bytes with an ellipsis. The cut must fall on a
/// character boundary.
pub fn truncate(s: &str, max_len: usize) -> (res: String)
    requires
        s.len() > max_len ==> max_len >= 1 && is_char_boundary(encode_utf8(s@), max_len - 1),
    ensures
        res@ == spec_truncate(s, max_len),
{
    if s.len() > max_len {
        let mut r = byte_prefix(s, max_len - 1);
        push_str(&mut r, "\u{2026}");
        r
    } else {
        to_owned_string(s)
    }
}

/// The characters after the last `/` (all of them when there is none).
pub open spec fn spec_after_last_slash(s: Seq<char>) -> Seq<char>
    decreases s.len(),
{
    if s.len() == 0 {
        Seq::empty()
    } else if s.last() == '/' {
        Seq::empty()
    } else {
        spec_after_last_slash(s.drop_last()).push(s.last())
    }
}

/// The subtype of a content type as listed: what follows its last `/`.
pub fn short_type(content_type: &str) -> (res: String)
    ensures
        res@ == spec_after_last_slash(content_type@),
{
    let c = str_chars(content_type);
    let mut start: usize = c.len();
    assert(c@.take(c@.len() as int) =~= c@);
    while start > 0 && c[start - 1] != '/'
        invariant
            0 <= start <= c@.len(),
            c@ == content_type@,
            spec_after_last_slash(content_type@) == spec_after_last_slash(c@.take(start as int)) + c@.subrange(
                start as int,
                c@.len() as int,
            ),
        decreases start,
    {
        assert(c@.take(start as int).drop_last() =~= c@.take(start - 1));
        assert(c@.subrange(start - 1, c@.len() as int) =~= seq![c@[start - 1]] + c@.subrange(
            start as int,
            c@.len() as int,
        ));
        assert(spec_after_last_slash(c@.take(start - 1)).push(c@[start - 1]) + c@.subrange(start as int, c@.len() as int)
            =~= spec_after_last_slash(c@.take(start - 1)) + c@.subrange(start - 1, c@.len() as int));
        start = start - 1;
    }
    assert(spec_after_last_slash(c@.take(start as int)) =~= Seq::<char>::empty());
    let mut out: Vec<char> = Vec::new();
    let mut i: usize = start;
    while i < c.len()
        invariant
            0 <= start <= i <= c@.len(),
            out@ == c@.subrange(start as int, i as int),
        decreases c.len() - i,
    {
        out.push(c[i]);
        assert(out@ =~= c@.subrange(start as int, i + 1));
        i = i + 1;
    }
    assert(out@ =~= spec_after_last_slash(content_type@));
    string_from_chars(&out)
}

/// Three decimal digits, with leading zeros, for a value below 1000.
pub open spec fn three_digits(m: nat) -> Seq<char> {
    if m < 10 {
        "00"@ + decimal(m)
    } else if m < 100 {
        "0"@ + decimal(m)
    } else {
        decimal(m)
    }
}

/// A duration of at least a second: `Mm S.mmms` from a minute on, else `S.mmms`.
pub open spec fn spec_format_duration(secs: nat, millis: nat) -> Seq<char> {
    if secs >= 60 {
        decimal(secs / 60) + "m "@ + decimal(secs % 60) + "."@ + three_digits(millis) + "s"@
    } else {
        decimal(secs) + "."@ + three_digits(millis) + "s"@
    }
}

/// Formats a duration of `secs` whole seconds and `subsec_millis`
/// milliseconds; nothing for durations under a second, which are shown in
/// fractional milliseconds.
pub fn format_duration(secs: u64, subsec_millis: u32) -> (res: Option<String>)
    requires
        subsec_millis < 1000,
    ensures
        secs == 0 <==> res is None,
        res matches Some(t) ==> t@ == spec_format_duration(secs as nat, subsec_millis as nat),
{
    if secs == 0 {
        return None;
    }
    let mut s = String::new();
    if secs >= 60 {
        push_u64_decimal(&mut s, secs / 60);
        push_str(&mut s, "m ");
        push_u64_decimal(&mut s, secs % 60);
    } else {
        push_u64_decimal(&mut s, secs);
    }
    push_str(&mut s, ".");
    if subsec_millis < 10 {
        push_str(&mut s, "00");
    } else if subsec_millis < 100 {
        push_str(&mut s, "0");
    }
    push_u64_decimal(&mut s, subsec_millis as u64);
    push_str(&mut s, "s");
    assert(s@ =~= spec_format_duration(secs as nat, subsec_millis as nat));
    Some(s)
}

/// Appends the decimal rendering of a 64-bit number.
fn push_u64_decimal(s: &mut String, n: u64)
    ensures
        final(s)@ == old(s)@ + decimal(n as nat),
{
    let d = crate::text::u128_to_decimal(n as u128);
    push_str(s, d.as_str());
}

/// `"true"` or `"false"`.
pub open spec fn bool_text(b: bool) -> Seq<char> {
    if b { "true"@ } else { "false"@ }
}

/// The first lines of a part's JSON object: its type, name, sizes and encoding.
pub open spec fn spec_json_part_head(p: MailPartSummary) -> Seq<char> {
    "    {\n"@ + "      \"content_type\": \""@ + spec_escape_json(p.content_type@) + "\",\n"@ + match p.filename {
        Some(f) => "      \"filename\": \""@ + spec_escape_json(f@) + "\",\n"@,
        None => "      \"filename\": null,\n"@,
    } + "      \"size\": "@ + decimal(p.size as nat) + ",\n"@ + "      \"encoded_size\": "@ + decimal(
        p.encoded_size as nat,
    ) + ",\n"@ + "      \"encoding\": \""@ + spec_escape_json(p.encoding@) + "\",\n"@
}

/// The last lines of a part's JSON object: its flags and offsets, with a
/// trailing comma unless it is the last.
pub open spec fn spec_json_part_tail(p: MailPartSummary, last: bool) -> Seq<char> {
    "      \"is_attachment\": "@ + bool_text(p.is_attachment) + ",\n"@ + "      \"is_base64\": "@ + bool_text(
        p.is_base64,
    ) + ",\n"@ + "      \"offset_start\": "@ + decimal(p.offset_start as nat) + ",\n"@ + "      \"offset_end\": "@
        + decimal(p.offset_end as nat) + "\n"@ + "    }"@ + (if last { Seq::<char>::empty() } else { ","@ }) + "\n"@
}

/// The JSON object of one part.
pub open spec fn spec_json_part(p: MailPartSummary, last: bool) -> Seq<char> {
    spec_json_part_head(p) + spec_json_part_tail(p, last)
}

/// The JSON objects of the first `n` parts of `parts`.
pub open spec fn spec_json_parts(parts: Seq<MailPartSummary>, n: int) -> Seq<char>
    decreases n,
{
    if n <= 0 {
        Seq::empty()
    } else {
        spec_json_parts(parts, n - 1) + spec_json_part(parts[n - 1], n - 1 == parts.len() - 1)
    }
}

/// A message's analysis as JSON: its headers and counts, then its top-level
/// parts.
pub open spec fn spec_json_summary(s: MailSummary) -> Seq<char> {
    "{\n"@ + "  \"subject\": \""@ + spec_escape_json(s.subject@) + "\",\n"@ + "  \"from\": \""@ + spec_escape_json(
        s.from@,
    ) + "\",\n"@ + "  \"date\": \""@ + spec_escape_json(s.date@) + "\",\n"@ + "  \"total_size\": "@ + decimal(
        s.total_size as nat,
    ) + ",\n"@ + "  \"parts_count\": "@ + decimal(s.parts@.len()) + ",\n"@ + "  \"attachment_count\": "@ + decimal(
        s.attachment_count as nat,
    ) + ",\n"@ + "  \"base64_count\": "@ + decimal(s.base64_count as nat) + ",\n"@ + "  \"structure_depth\": "@
        + decimal(s.structure_depth as nat) + ",\n"@ + "  \"parts\": [\n"@ + spec_json_parts(
        s.parts@,
        s.parts@.len() as int,
    ) + "  ]\n"@ + "}\n"@
}

fn push_bool(s: &mut String, b: bool)
    ensures
        final(s)@ == old(s)@ + bool_text(b),
{
    if b {
        push_str(s, "true");
    } else {
        push_str(s, "false");
    }
}

fn push_json_part_head(s: &mut String, p: &MailPartSummary)
    ensures
        final(s)@ == old(s)@ + spec_json_part_head(*p),
{
    let ghost s0 = s@;
    push_str(s, "    {\n");
    push_str(s, "      \"content_type\": \"");
    push_str(s, escape_json(p.content_type.as_str()).as_str());
    push_str(s, "\",\n");
    match &p.filename {
        Some(f) => {
            push_str(s, "      \"filename\": \"");
            push_str(s, escape_json(f.as_str()).as_str());
            push_str(s, "\",\n");
        },
        None => push_str(s, "      \"filename\": null,\n"),
    }
    push_str(s, "      \"size\": ");
    push_decimal(s, p.size);
    push_str(s, ",\n");
    push_str(s, "      \"encoded_size\": ");
    push_decimal(s, p.encoded_size);
    push_str(s, ",\n");
    push_str(s, "      \"encoding\": \"");
    push_str(s, escape_json(p.encoding.as_str()).as_str());
    push_str(s, "\",\n");
    assert(s@ =~= s0 + spec_json_part_head(*p));
}

#[verifier::rlimit(40)]
#[verifier::spinoff_prover]
fn push_json_part_tail(s: &mut String, p: &MailPartSummary, last: bool)
    ensures
        final(s)@ == old(s)@ + spec_json_part_tail(*p, last),
{
    let ghost s0 = s@;
    push_str(s, "      \"is_attachment\": ");
    push_bool(s, p.is_attachment);
    push_str(s, ",\n");
    push_str(s, "      \"is_base64\": ");
    push_bool(s, p.is_base64);
    push_str(s, ",\n");
    push_str(s, "      \"offset_start\": ");
    push_decimal(s, p.offset_start);
    push_str(s, ",\n");
    push_str(s, "      \"offset_end\": ");
    push_decimal(s, p.offset_end);
    push_str(s, "\n");
    push_str(s, "    }");
    let ghost s1 = s@;
    if !last {
        push_str(s, ",");
    }
    assert(s@ == s1 + (if last { Seq::<char>::empty() } else { ","@ }));
    push_str(s, "\n");
    assert(s@ =~= s0 + spec_json_part_tail(*p, last));
}

fn push_json_part(s: &mut String, p: &MailPartSummary, last: bool)
    ensures
        final(s)@ == old(s)@ + spec_json_part(*p, last),
{
    let ghost s0 = s@;
    push_json_part_head(s, p);
    push_json_part_tail(s, p, last);
    assert(s@ =~= s0 + spec_json_part(*p, last));
}

/// A message's analysis as JSON (see [`spec_json_summary`]).
pub fn json_summary(summary: &MailSummary) -> (res: String)
    ensures
        res@ == spec_json_summary(*summary),
{
    let mut s = String::new();
    push_str(&mut s, "{\n");
    push_str(&mut s, "  \"subject\": \"");
    push_str(&mut s, escape_json(summary.subject.as_str()).as_str());
    push_str(&mut s, "\",\n");
    push_str(&mut s, "  \"from\": \"");
    push_str(&mut s, escape_json(summary.from.as_str()).as_str());
    push_str(&mut s, "\",\n");
    push_str(&mut s, "  \"date\": \"");
    push_str(&mut s, escape_json(summary.date.as_str()).as_str());
    push_str(&mut s, "\",\n");
    push_str(&mut s, "  \"total_size\": ");
    push_decimal(&mut s, summary.total_size);
    push_str(&mut s, ",\n");
    push_str(&mut s, "  \"parts_count\": ");
    push_decimal(&mut s, summary.parts.len());
    push_str(&mut s, ",\n");
    push_str(&mut s, "  \"attachment_count\": ");
    push_decimal(&mut s, summary.attachment_count);
    push_str(&mut s, ",\n");
    push_str(&mut s, "  \"base64_count\": ");
    push_decimal(&mut s, summary.base64_count);
    push_str(&mut s, ",\n");
    push_str(&mut s, "  \"structure_depth\": ");
    push_decimal(&mut s, summary.structure_depth);
    push_str(&mut s, ",\n");
    push_str(&mut s, "  \"parts\": [\n");
    let ghost head = s@;
    let n = summary.parts.len();
    let mut i: usize = 0;
    while i < n
        invariant
            0 <= i <= n,
            n == summary.parts@.len(),
            s@ == head + spec_json_parts(summary.parts@, i as int),
        decreases n - i,
    {
        push_json_part(&mut s, &summary.parts[i], i == n - 1);
        i = i + 1;
    }
    push_str(&mut s, "  ]\n");
    push_str(&mut s, "}\n");
    assert(s@ =~= spec_json_summary(*summary));
    s
}

/// The parts to extract, by 1-based index: the one asked for, or all of them,
/// or the attachments.
pub open spec fn spec_parts_to_extract(parts: Seq<MailPartSummary>, all: bool, n: int) -> Seq<usize>
    decreases n,
{
    if n <= 0 {
        Seq::empty()
    } else {
        spec_parts_to_extract(parts, all, n - 1) + if all || parts[n - 1].is_attachment {
            seq![n as usize]
        } else {
            Seq::empty()
        }
    }
}

/// The 1-based indices of the parts to extract: the part asked for, else all
/// parts when `all`, else the attachments. Fails when the index asked for is
/// not that of a part.
pub fn parts_to_extract(summary: &MailSummary, part_index: Option<usize>, all: bool) -> (res: Result<Vec<usize>, MailCrushError>)
    ensures
        match part_index {
            Some(idx) => if idx == 0 || idx > summary.parts@.len() {
                res matches Err(MailCrushError::InvalidStructure(m)) && m@ == "Part index "@ + decimal(idx as nat)
                    + " is out of range (1-"@ + decimal(summary.parts@.len()) + ")"@
            } else {
                res matches Ok(v) && v@ == seq![idx]
            },
            None => res matches Ok(v) && v@ == spec_parts_to_extract(summary.parts@, all, summary.parts@.len() as int),
        },
{
    match part_index {
        Some(idx) => {
            if idx == 0 || idx > summary.parts.len() {
                let mut m = to_owned_string("Part index ");
                push_decimal(&mut m, idx);
                push_str(&mut m, " is out of range (1-");
                push_decimal(&mut m, summary.parts.len());
                push_str(&mut m, ")");
                return Err(MailCrushError::InvalidStructure(m));
            }
            let mut v: Vec<usize> = Vec::new();
            v.push(idx);
            assert(v@ =~= seq![idx]);
            Ok(v)
        },
        None => {
            let mut v: Vec<usize> = Vec::new();
            let mut i: usize = 0;
            while i < summary.parts.len()
                invariant
                    0 <= i <= summary.parts@.len(),
                    v@ == spec_parts_to_extract(summary.parts@, all, i as int),
                decreases summary.parts.len() - i,
            {
                if all || summary.parts[i].is_attachment {
                    v.push(i + 1);
                }
                assert(v@ =~= spec_parts_to_extract(summary.parts@, all, i + 1));
                i = i + 1;
            }
            Ok(v)
        },
    }
}

/// The file name an extracted part is written to: its own, or `part_N.EXT`
/// with the extension guessed from its content type.
pub open spec fn spec_extract_file_name(p: MailPartSummary, idx: usize) -> Seq<char> {
    match p.filename {
        Some(f) => f@,
        None => "part_"@ + decimal(idx as nat) + "."@ + spec_guess_extension(p.content_type@),
    }
}

/// The file name an extracted part is written to.
pub fn extract_file_name(p: &MailPartSummary, idx: usize) -> (res: String)
    ensures
        res@ == spec_extract_file_name(*p, idx),
{
    match &p.filename {
        Some(f) => f.clone(),
        None => {
            let mut s = to_owned_string("part_");
            push_decimal(&mut s, idx);
            push_str(&mut s, ".");
            push_str(&mut s, guess_extension(p.content_type.as_str()));
            s
        },
    }
}

/// The name shown for a part in the report table before it is cut to width:
/// the first 15 bytes of the content type with the file name, or the content
/// type alone.
pub open spec fn spec_report_name_full(r: PartCompressionReport) -> Seq<char> {
    match r.filename {
        Some(f) => spec_byte_prefix(r.content_type@, spec_type_cut(r)) + " ("@ + f@ + ")"@,
        None => r.content_type@,
    }
}

/// The name shown for a part in the report table: cut to its first 27 bytes
/// and an ellipsis when longer than 30 bytes.
pub open spec fn spec_report_name(r: PartCompressionReport) -> Seq<char> {
    let full = spec_report_name_full(r);
    if byte_len(full) > 30 {
        spec_byte_prefix(full, 27) + "..."@
    } else {
        full
    }
}

/// The cuts of the report name fall on character boundaries.
pub open spec fn spec_report_name_cuttable(r: PartCompressionReport) -> bool {
    let ct = encode_utf8(r.content_type@);
    &&& r.filename is Some ==> is_char_boundary(ct, spec_type_cut(r))
    &&& byte_len(spec_report_name_full(r)) > 30 ==> is_char_boundary(encode_utf8(spec_report_name_full(r)), 27)
}

/// The content type's byte length, or 15 when it is longer.
pub open spec fn spec_type_cut(r: PartCompressionReport) -> int {
    let n = byte_len(r.content_type@);
    if n < 15 { n as int } else { 15 }
}

/// The report name before it is cut to width.
fn report_name_full(r: &PartCompressionReport) -> (res: String)
    requires
        r.filename is Some ==> is_char_boundary(encode_utf8(r.content_type@), spec_type_cut(*r)),
    ensures
        res@ == spec_report_name_full(*r),
{
    match &r.filename {
        Some(f) => {
            let ct = r.content_type.as_str();
            let n = if ct.len() < 15 { ct.len() } else { 15 };
            let mut s = byte_prefix(ct, n);
            push_str(&mut s, " (");
            push_str(&mut s, f.as_str());
            push_str(&mut s, ")");
            s
        },
        None => r.content_type.clone(),
    }
}

/// The name shown for a part in the report table (see [`spec_report_name`]).
pub fn report_name(r: &PartCompressionReport) -> (res: String)
    requires
        spec_report_name_cuttable(*r),
    ensures
        res@ == spec_report_name(*r),
{
    let full = report_name_full(r);
    if full.as_str().len() > 30 {
        let mut s = byte_prefix(full.as_str(), 27);
        push_str(&mut s, "...");
        s
    } else {
        full
    }
}

/// Whether a report name can be cut as the table needs.
pub fn report_name_cuttable(r: &PartCompressionReport) -> (res: bool)
    ensures
        res == spec_report_name_cuttable(*r),
{
    let ct = r.content_type.as_str();
    let n = if ct.len() < 15 { ct.len() } else { 15 };
    if r.filename.is_some() && !ct.is_char_boundary(n) {
        return false;
    }
    let full = report_name_full(r);
    !(full.as_str().len() > 30 && !full.as_str().is_char_boundary(27))
}

/// The positions of the parts whose reconstruction was not verified.
pub fn failed_parts(report: &CompressionReport) -> (res: Vec<usize>)
    ensures
        forall|k: int| 0 <= k < res@.len() ==> res@[k] < report.part_reports@.len() && !(
        #[trigger] report.part_reports@[res@[k] as int]).reconstruction_verified,
        forall|j: int| 0 <= j < report.part_reports@.len() && !(#[trigger] report.part_reports@[j]).reconstruction_verified
            ==> res@.contains(j as usize),
        forall|a: int, b: int| 0 <= a < b < res@.len() ==> res@[a] < res@[b],
{
    let mut v: Vec<usize> = Vec::new();
    let mut i: usize = 0;
    while i < report.part_reports.len()
        invariant
            0 <= i <= report.part_reports@.len(),
            forall|k: int| 0 <= k < v@.len() ==> #[trigger] v@[k] < i,
            forall|k: int| 0 <= k < v@.len() ==> !(#[trigger] report.part_reports@[v@[k] as int]).reconstruction_verified,
            forall|j: int| 0 <= j < i && !(#[trigger] report.part_reports@[j]).reconstruction_verified ==> v@.contains(
                j as usize,
            ),
            forall|a: int, b: int| 0 <= a < b < v@.len() ==> v@[a] < v@[b],
        decreases report.part_reports.len() - i,
    {
        if !report.part_reports[i].reconstruction_verified {
            let ghost before = v@;
            v.push(i);
            assert forall|a: int, b: int| 0 <= a < b < v@.len() implies v@[a] < v@[b] by {
                if b == v@.len() - 1 {
                    assert(v@[a] == before[a]);
                } else {
                    assert(v@[a] == before[a] && v@[b] == before[b]);
                }
            }
            assert forall|j: int| 0 <= j < i + 1 && !(#[trigger] report.part_reports@[j]).reconstruction_verified
                implies v@.contains(j as usize) by {
                if j < i {
                    assert(before.contains(j as usize));
                    let w = choose|w: int| 0 <= w < before.len() && before[w] == j as usize;
                    assert(v@[w] == j as usize);
                } else {
                    assert(v@[v@.len() - 1] == j as usize);
                }
            }
        }
        i = i + 1;
    }
    v
}

/// The batch summary line, shown when more than one item was processed.
pub open spec fn spec_batch_summary(st: BatchStats) -> Option<Seq<char>> {
    if st.total > 1 {
        Some(
            "\u{1f4ca} Batch Summary: "@ + decimal(st.total as nat) + " processed, "@ + decimal(st.success as nat)
                + " succeeded, "@ + decimal(st.failed as nat) + " failed"@,
        )
    } else {
        None
    }
}

impl BatchStats {
    /// The batch summary line (see [`spec_batch_summary`]).
    pub fn summary_text(&self) -> (res: Option<String>)
        ensures
            match spec_batch_summary(*self) {
                Some(t) => res matches Some(s) && s@ == t,
                None => res is None,
            },
    {
        if self.total > 1 {
            let mut s = to_owned_string("\u{1f4ca} Batch Summary: ");
            push_decimal(&mut s, self.total);
            push_str(&mut s, " processed, ");
            push_decimal(&mut s, self.success);
            push_str(&mut s, " succeeded, ");
            push_decimal(&mut s, self.failed);
            push_str(&mut s, " failed");
            Some(s)
        } else {
            None
        }
    }
}


/// Two spaces per level of nesting.
pub open spec fn indent(depth: nat) -> Seq<char> {
    Seq::new(2 * depth, |_i: int| ' ')
}

/// Every part of the tree starts no later than it ends.
pub open spec fn spec_offsets_ordered(p: MailPartSummary) -> bool
    decreases p,
{
    p.offset_start <= p.offset_end && spec_offsets_ordered_list(p.children@)
}

/// Every part of every tree of the list starts no later than it ends.
pub open spec fn spec_offsets_ordered_list(l: Seq<MailPartSummary>) -> bool
    decreases l,
{
    if l.len() == 0 {
        true
    } else {
        proof {
            assert(decreases_to!(l => l[l.len() - 1]));
        }
        spec_offsets_ordered_list(l.drop_last()) && spec_offsets_ordered(l.last())
    }
}

/// A part's title line: `Part N:` at the top level, `└─ Subpart N:` below.
pub open spec fn spec_part_title(p: MailPartSummary, index: nat, depth: nat) -> Seq<char> {
    indent(depth) + (if depth == 0 { "Part "@ } else { "\u{2514}\u{2500} Subpart "@ }) + decimal(index + 1) + ": "@
        + p.content_type@ + "\n"@
}

/// A part's attachment line, when it has a file name.
pub open spec fn spec_part_attachment(p: MailPartSummary, depth: nat) -> Seq<char> {
    match p.filename {
        Some(f) => indent(depth) + "   \u{1f4ce} Attachment: "@ + f@ + "\n"@,
        None => Seq::empty(),
    }
}

/// A part's size, encoding and offset lines.
pub open spec fn spec_part_figures(p: MailPartSummary, depth: nat) -> Seq<char> {
    let ind = indent(depth);
    ind + "   \u{1f4cf} Size: "@ + decimal(p.size as nat) + " bytes (encoded: "@ + decimal(p.encoded_size as nat)
        + " bytes)\n"@ + ind + "   \u{1f527} Encoding: "@ + p.encoding@ + "\n"@ + ind + "   \u{1f4cd} Offsets: "@
        + decimal(p.offset_start as nat) + ".."@ + decimal(p.offset_end as nat) + " (length: "@ + decimal(
        (p.offset_end - p.offset_start) as nat,
    ) + ")\n"@
}

/// A part's Base64 overhead line, when its body is encoded.
pub open spec fn spec_part_overhead_line(p: MailPartSummary, depth: nat) -> Seq<char> {
    if p.is_base64 {
        indent(depth) + "   \u{1f4be} Base64 overhead: "@ + decimal(
            (if p.encoded_size >= p.size { p.encoded_size - p.size } else { 0 }) as nat,
        ) + " bytes\n"@
    } else {
        Seq::empty()
    }
}

/// The lines describing one part, without its children.
pub open spec fn spec_part_head(p: MailPartSummary, index: nat, depth: nat) -> Seq<char> {
    spec_part_title(p, index, depth) + spec_part_attachment(p, depth) + spec_part_figures(p, depth)
        + spec_part_overhead_line(p, depth)
}

/// The lines describing a part and, below it, its children.
pub open spec fn spec_part_tree(p: MailPartSummary, index: nat, depth: nat) -> Seq<char>
    decreases p,
{
    spec_part_head(p, index, depth) + spec_part_trees(p.children@, depth + 1)
}

/// The lines describing each part of a list, numbered from 1, at `depth`.
pub open spec fn spec_part_trees(l: Seq<MailPartSummary>, depth: nat) -> Seq<char>
    decreases l,
{
    if l.len() == 0 {
        Seq::empty()
    } else {
        proof {
            assert(decreases_to!(l => l[l.len() - 1]));
        }
        spec_part_trees(l.drop_last(), depth) + spec_part_tree(l.last(), (l.len() - 1) as nat, depth)
    }
}

fn push_indent(s: &mut String, depth: usize)
    ensures
        final(s)@ == old(s)@ + indent(depth as nat),
{
    let ghost s0 = s@;
    let mut i: usize = 0;
    while i < depth
        invariant
            0 <= i <= depth,
            s@ == s0 + indent(i as nat),
        decreases depth - i,
    {
        s.push(' ');
        s.push(' ');
        assert(s@ =~= s0 + indent((i + 1) as nat));
        i = i + 1;
    }
}

fn push_part_title(s: &mut String, p: &MailPartSummary, index: usize, depth: usize)
    requires
        index < usize::MAX,
    ensures
        final(s)@ == old(s)@ + spec_part_title(*p, index as nat, depth as nat),
{
    let ghost s0 = s@;
    push_indent(s, depth);
    if depth == 0 {
        push_str(s, "Part ");
    } else {
        push_str(s, "\u{2514}\u{2500} Subpart ");
    }
    push_decimal(s, index + 1);
    push_str(s, ": ");
    push_str(s, p.content_type.as_str());
    push_str(s, "\n");
    assert(s@ =~= s0 + spec_part_title(*p, index as nat, depth as nat));
}

fn push_part_attachment(s: &mut String, p: &MailPartSummary, depth: usize)
    ensures
        final(s)@ == old(s)@ + spec_part_attachment(*p, depth as nat),
{
    let ghost s0 = s@;
    match &p.filename {
        Some(f) => {
            push_indent(s, depth);
            push_str(s, "   \u{1f4ce} Attachment: ");
            push_str(s, f.as_str());
            push_str(s, "\n");
        },
        None => {},
    }
    assert(s@ =~= s0 + spec_part_attachment(*p, depth as nat));
}

fn push_part_figures(s: &mut String, p: &MailPartSummary, depth: usize)
    requires
        p.offset_start <= p.offset_end,
    ensures
        final(s)@ == old(s)@ + spec_part_figures(*p, depth as nat),
{
    let ghost s0 = s@;
    push_indent(s, depth);
    push_str(s, "   \u{1f4cf} Size: ");
    push_decimal(s, p.size);
    push_str(s, " bytes (encoded: ");
    push_decimal(s, p.encoded_size);
    push_str(s, " bytes)\n");
    push_indent(s, depth);
    push_str(s, "   \u{1f527} Encoding: ");
    push_str(s, p.encoding.as_str());
    push_str(s, "\n");
    push_indent(s, depth);
    push_str(s, "   \u{1f4cd} Offsets: ");
    push_decimal(s, p.offset_start);
    push_str(s, "..");
    push_decimal(s, p.offset_end);
    push_str(s, " (length: ");
    push_decimal(s, p.offset_end - p.offset_start);
    push_str(s, ")\n");
    assert(s@ =~= s0 + spec_part_figures(*p, depth as nat));
}

fn push_part_overhead_line(s: &mut String, p: &MailPartSummary, depth: usize)
    ensures
        final(s)@ == old(s)@ + spec_part_overhead_line(*p, depth as nat),
{
    let ghost s0 = s@;
    if p.is_base64 {
        push_indent(s, depth);
        push_str(s, "   \u{1f4be} Base64 overhead: ");
        push_decimal(s, p.encoded_size.saturating_sub(p.size));
        push_str(s, " bytes\n");
    }
    assert(s@ =~= s0 + spec_part_overhead_line(*p, depth as nat));
}

fn push_part_head(s: &mut String, p: &MailPartSummary, index: usize, depth: usize)
    requires
        p.offset_start <= p.offset_end,
        index < usize::MAX,
    ensures
        final(s)@ == old(s)@ + spec_part_head(*p, index as nat, depth as nat),
{
    let ghost s0 = s@;
    push_part_title(s, p, index, depth);
    push_part_attachment(s, p, depth);
    push_part_figures(s, p, depth);
    push_part_overhead_line(s, p, depth);
    assert(s@ =~= s0 + spec_part_head(*p, index as nat, depth as nat));
}

fn push_part_tree(s: &mut String, p: &MailPartSummary, index: usize, depth: usize)
    requires
        spec_offsets_ordered(*p),
        index < usize::MAX,
        depth + 1 + max_depth(p.children@) <= usize::MAX,
    ensures
        final(s)@ == old(s)@ + spec_part_tree(*p, index as nat, depth as nat),
    decreases *p,
{
    let ghost s0 = s@;
    push_part_head(s, p, index, depth);
    let ghost s1 = s@;
    push_part_trees(s, &p.children, depth + 1);
    assert(s@ =~= s0 + spec_part_tree(*p, index as nat, depth as nat));
}

fn push_part_trees(s: &mut String, l: &Vec<MailPartSummary>, depth: usize)
    requires
        spec_offsets_ordered_list(l@),
        depth + max_depth(l@) <= usize::MAX,
    ensures
        final(s)@ == old(s)@ + spec_part_trees(l@, depth as nat),
    decreases l@,
{
    let ghost s0 = s@;
    let mut i: usize = 0;
    while i < l.len()
        invariant
            0 <= i <= l@.len(),
            spec_offsets_ordered_list(l@),
            depth + max_depth(l@) <= usize::MAX,
            s@ == s0 + spec_part_trees(l@.take(i as int), depth as nat),
        decreases l.len() - i,
    {
        proof {
            lemma_max_depth_parts(l@, i as int);
            lemma_ordered_list_at(l@, i as int);
            assert(l@.take(i + 1).drop_last() =~= l@.take(i as int));
            assert(l@.take(i + 1).last() == l@[i as int]);
            assert(decreases_to!(l@ => l@[i as int]));
        }
        push_part_tree(s, &l[i], i, depth);
        i = i + 1;
    }
    assert(l@.take(l@.len() as int) =~= l@);
}

proof fn lemma_ordered_list_at(l: Seq<MailPartSummary>, i: int)
    requires
        spec_offsets_ordered_list(l),
        0 <= i < l.len(),
    ensures
        spec_offsets_ordered(l[i]),
    decreases l.len(),
{
    if i < l.len() - 1 {
        assert(l.drop_last()[i] == l[i]);
        lemma_ordered_list_at(l.drop_last(), i);
    }
}

/// Whether every part of the trees starts no later than it ends.
pub fn offsets_ordered(l: &Vec<MailPartSummary>) -> (res: bool)
    ensures
        res == spec_offsets_ordered_list(l@),
    decreases l@,
{
    let mut i: usize = 0;
    while i < l.len()
        invariant
            0 <= i <= l@.len(),
            spec_offsets_ordered_list(l@.take(i as int)),
        decreases l.len() - i,
    {
        proof {
            assert(l@.take(i + 1).drop_last() =~= l@.take(i as int));
            assert(l@.take(i + 1).last() == l@[i as int]);
            assert(decreases_to!(l@ => l@[i as int]));
        }
        let p = &l[i];
        assert(spec_offsets_ordered(l@[i as int]) == (l@[i as int].offset_start <= l@[i as int].offset_end
            && spec_offsets_ordered_list(l@[i as int].children@)));
        if p.offset_start > p.offset_end || !offsets_ordered(&p.children) {
            proof {
                if spec_offsets_ordered_list(l@) {
                    lemma_ordered_list_at(l@, i as int);
                }
            }
            return false;
        }
        i = i + 1;
    }
    assert(l@.take(l@.len() as int) =~= l@);
    true
}

/// The structure section of a detailed analysis: the part tree from the
/// message's first part, every part with sizes, encoding and offsets, its
/// children indented below it.
pub fn part_tree_text(summary: &MailSummary) -> (res: String)
    requires
        spec_offsets_ordered_list(summary.parts@),
        max_depth(summary.parts@) <= usize::MAX,
    ensures
        res@ == spec_part_trees(spec_tree_roots(summary.parts@), 0),
{
    let mut s = String::new();
    if summary.parts.len() == 0 {
        assert(s@ =~= spec_part_trees(spec_tree_roots(summary.parts@), 0));
        return s;
    }
    proof {
        lemma_max_depth_parts(summary.parts@, 0);
        lemma_ordered_list_at(summary.parts@, 0);
    }
    push_part_tree(&mut s, &summary.parts[0], 0, 0);
    proof {
        let r = spec_tree_roots(summary.parts@);
        assert(r.drop_last() =~= Seq::<MailPartSummary>::empty());
        assert(r.last() == summary.parts@[0]);
        assert(spec_part_trees(r.drop_last(), 0) =~= Seq::<char>::empty());
        assert(spec_part_trees(r, 0) == spec_part_trees(r.drop_last(), 0) + spec_part_tree(r.last(), 0, 0));
    }
    assert(s@ =~= spec_part_trees(spec_tree_roots(summary.parts@), 0));
    s
}


/// Whether the nesting depth of the parts is at most `limit`.
pub fn depth_within(parts: &Vec<MailPartSummary>, limit: usize) -> (res: bool)
    ensures
        res == (max_depth(parts@) <= limit),
    decreases parts@,
{
    let mut i: usize = 0;
    while i < parts.len()
        invariant
            0 <= i <= parts@.len(),
            max_depth(parts@.take(i as int)) <= limit,
        decreases parts.len() - i,
    {
        proof {
            assert(parts@.take(i + 1).drop_last() =~= parts@.take(i as int));
            assert(parts@.take(i + 1).last() == parts@[i as int]);
            assert(decreases_to!(parts@ => parts@[i as int]));
        }
        if limit == 0 || !depth_within(&parts[i].children, limit - 1) {
            proof {
                lemma_max_depth_parts(parts@, i as int);
            }
            return false;
        }
        i = i + 1;
    }
    assert(parts@.take(parts@.len() as int) =~= parts@);
    true
}


/// The line of one recorded offset range.
pub open spec fn spec_offset_line(i: nat, r: (usize, usize)) -> Seq<char> {
    "    Part "@ + decimal(i + 1) + ": "@ + decimal(r.0 as nat) + ".."@ + decimal(r.1 as nat) + " ("@ + decimal(
        (r.1 - r.0) as nat,
    ) + " bytes)\n"@
}

/// The lines of the first `n` recorded offset ranges.
pub open spec fn spec_offset_lines(offsets: Seq<(usize, usize)>, n: int) -> Seq<char>
    decreases n,
{
    if n <= 0 {
        Seq::empty()
    } else {
        spec_offset_lines(offsets, n - 1) + spec_offset_line((n - 1) as nat, offsets[n - 1])
    }
}

/// The reconstruction section of a detailed analysis: the recorded offset
/// ranges with their lengths.
pub open spec fn spec_reconstruction_info(offsets: Seq<(usize, usize)>) -> Seq<char> {
    "\n\u{1f527} RECONSTRUCTION INFO:\n"@ + "  Total parts with offsets: "@ + decimal(offsets.len()) + "\n"@
        + "  Offset ranges:\n"@ + spec_offset_lines(offsets, offsets.len() as int)
}

/// Every recorded range starts no later than it ends.
pub open spec fn spec_ranges_ordered(offsets: Seq<(usize, usize)>) -> bool {
    forall|i: int| 0 <= i < offsets.len() ==> (#[trigger] offsets[i]).0 <= offsets[i].1
}

/// Whether every recorded range starts no later than it ends.
pub fn raw_offsets_ordered(summary: &MailSummary) -> (res: bool)
    ensures
        res == spec_ranges_ordered(summary.raw_offsets@),
{
    let mut i: usize = 0;
    while i < summary.raw_offsets.len()
        invariant
            0 <= i <= summary.raw_offsets@.len(),
            forall|j: int| 0 <= j < i ==> (#[trigger] summary.raw_offsets@[j]).0 <= summary.raw_offsets@[j].1,
        decreases summary.raw_offsets.len() - i,
    {
        let (a, b) = summary.raw_offsets[i];
        if a > b {
            return false;
        }
        i = i + 1;
    }
    true
}

/// The reconstruction section of a detailed analysis (see
/// [`spec_reconstruction_info`]).
pub fn reconstruction_info_text(summary: &MailSummary) -> (res: String)
    requires
        spec_ranges_ordered(summary.raw_offsets@),
    ensures
        res@ == spec_reconstruction_info(summary.raw_offsets@),
{
    let mut s = to_owned_string("\n\u{1f527} RECONSTRUCTION INFO:\n");
    push_str(&mut s, "  Total parts with offsets: ");
    push_decimal(&mut s, summary.raw_offsets.len());
    push_str(&mut s, "\n");
    push_str(&mut s, "  Offset ranges:\n");
    let ghost head = s@;
    let n = summary.raw_offsets.len();
    let mut i: usize = 0;
    while i < n
        invariant
            0 <= i <= n,
            n == summary.raw_offsets@.len(),
            spec_ranges_ordered(summary.raw_offsets@),
            s@ == head + spec_offset_lines(summary.raw_offsets@, i as int),
        decreases n - i,
    {
        let (a, b) = summary.raw_offsets[i];
        assert(summary.raw_offsets@[i as int].0 <= summary.raw_offsets@[i as int].1);
        let ghost before = s@;
        push_str(&mut s, "    Part ");
        push_decimal(&mut s, i + 1);
        push_str(&mut s, ": ");
        push_decimal(&mut s, a);
        push_str(&mut s, "..");
        push_decimal(&mut s, b);
        push_str(&mut s, " (");
        push_decimal(&mut s, b - a);
        push_str(&mut s, " bytes)\n");
        assert(s@ =~= before + spec_offset_line(i as nat, summary.raw_offsets@[i as int]));
        i = i + 1;
    }
    assert(s@ =~= spec_reconstruction_info(summary.raw_offsets@));
    s
}

/// In a part's JSON object, after the lines of its head and its
/// `"is_attachment"` flag comes the line `"is_base64": ` with `true` exactly
/// when the part's body is Base64-encoded, whatever its attachment flag.
#[verifier::rlimit(50)]
#[verifier::spinoff_prover]
pub proof fn lemma_json_part_base64_flag(p: MailPartSummary, last: bool)
    ensures
        ({
            let flags = spec_json_part_head(p) + "      \"is_attachment\": "@ + bool_text(p.is_attachment) + ",\n"@;
            let line = "      \"is_base64\": "@ + bool_text(p.is_base64) + ",\n"@;
            spec_json_part(p, last).take((flags + line).len() as int) == flags + line
        }),
        bool_text(p.is_base64) == "true"@ <==> p.is_base64,
{
    let head = spec_json_part_head(p);
    let att = "      \"is_attachment\": "@ + bool_text(p.is_attachment) + ",\n"@;
    let line = "      \"is_base64\": "@ + bool_text(p.is_base64) + ",\n"@;
    let tail = spec_json_part_tail(p, last);
    let post = tail.skip((att + line).len() as int);
    assert(tail.take((att + line).len() as int) =~= att + line);
    assert(tail =~= (att + line) + post);
    lemma_take_of_concat(head, att + line, post);
    assert(head + att + line =~= head + (att + line));
    lemma_true_is_not_false();
}

proof fn lemma_take_of_concat(a: Seq<char>, b: Seq<char>, c: Seq<char>)
    ensures
        (a + (b + c)).take((a + b).len() as int) == a + b,
{
    assert((a + (b + c)).take((a + b).len() as int) =~= a + b);
}

proof fn lemma_true_is_not_false()
    ensures
        "true"@ != "false"@,
{
    reveal_strlit("true");
    reveal_strlit("false");
    assert("false"@.len() != "true"@.len());
}

} // verus!
