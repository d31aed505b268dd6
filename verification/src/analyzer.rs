//! Mail structure analysis.

use vstd::prelude::*;

use crate::error::MailCrushError;
use crate::extractor::{mailbox_text, opt_or};
use crate::mime::{
    clone_opt_string, content_type_string, parse_mail, spec_content_type_string, spec_encoding_name,
    spec_parse_mail, MailAddress, MimePart, ParsedMail, TransferEncoding,
};
use crate::text::{push_str, to_owned_string};

verus! {

/// Summary of a single mail part (MIME part).
#[derive(Debug)]
pub struct MailPartSummary {
    /// Content type (e.g., "text/plain", "image/png").
    pub content_type: String,
    /// Filename if this is an attachment.
    pub filename: Option<String>,
    /// Decoded content size in bytes.
    pub size: usize,
    /// Encoded size in bytes (before decoding).
    pub encoded_size: usize,
    /// Encoding type (e.g., "Base64", "QuotedPrintable").
    pub encoding: String,
    /// Whether this part is an attachment.
    pub is_attachment: bool,
    /// Whether this part uses Base64 or QuotedPrintable encoding.
    pub is_base64: bool,
    /// Start offset in raw email bytes.
    pub offset_start: usize,
    /// End offset in raw email bytes.
    pub offset_end: usize,
    /// Child parts (for multipart messages).
    pub children: Vec<MailPartSummary>,
}

/// Complete summary of an analyzed email.
#[derive(Debug)]
pub struct MailSummary {
    /// Email subject.
    pub subject: String,
    /// Sender address.
    pub from: String,
    /// Email date.
    pub date: String,
    /// Total size in bytes.
    pub total_size: usize,
    /// All mail parts.
    pub parts: Vec<MailPartSummary>,
    /// Number of attachments.
    pub attachment_count: usize,
    /// Number of Base64 or quoted-printable encoded parts.
    pub base64_count: usize,
    /// Maximum nesting depth of parts.
    pub structure_depth: usize,
    /// Raw byte offsets for reconstruction.
    pub raw_offsets: Vec<(usize, usize)>,
}

/// Information needed to reconstruct an email part.
#[derive(Debug, Clone)]
pub struct ReconstructionPart {
    /// Content type.
    pub content_type: String,
    /// Filename if attachment.
    pub filename: Option<String>,
    /// Start offset in raw bytes.
    pub offset_start: usize,
    /// End offset in raw bytes.
    pub offset_end: usize,
    /// Whether Base64 encoded.
    pub is_base64: bool,
    /// Whether an attachment.
    pub is_attachment: bool,
}

/// Mail analyzer for parsing and analyzing email structure.
pub struct MailAnalyzer;

/// The fields of the summary of one parsed part, its children aside.
pub open spec fn spec_part_fields(s: MailPartSummary, p: MimePart) -> bool {
    &&& s.content_type@ == spec_content_type_string(p, "application/octet-stream"@)
    &&& s.filename == p.attachment_name
    &&& s.size == p.contents_len
    &&& s.encoded_size == p.raw_len as usize
    &&& s.encoding@ == spec_encoding_name(p.encoding)
    &&& s.is_attachment == (p.attachment_name is Some)
    &&& s.is_base64 == (p.encoding == TransferEncoding::Base64 || p.encoding == TransferEncoding::QuotedPrintable)
    &&& s.offset_start == p.offset_body as usize
    &&& s.offset_end == p.offset_end as usize
}

/// The positions among `subs` that name one of `n` parts, in order.
pub open spec fn spec_child_ids(n: int, subs: Seq<u32>) -> Seq<u32>
    decreases subs.len(),
{
    if subs.len() == 0 {
        Seq::empty()
    } else {
        let rest = spec_child_ids(n, subs.drop_last());
        if (subs.last() as int) < n {
            rest.push(subs.last())
        } else {
            rest
        }
    }
}

/// `s` summarizes part `i` of `parts` and, as its children, the parts that
/// the container lists as its sub-parts, each with its own children, down to
/// `fuel` levels.
pub open spec fn spec_tree_summary(s: MailPartSummary, parts: Seq<MimePart>, i: int, fuel: nat) -> bool
    decreases fuel,
{
    &&& 0 <= i < parts.len()
    &&& spec_part_fields(s, parts[i])
    &&& if fuel == 0 {
        s.children@.len() == 0
    } else {
        let ids = spec_child_ids(parts.len() as int, parts[i].sub_parts@);
        &&& s.children@.len() == ids.len()
        &&& forall|k: int|
            0 <= k < ids.len() ==> spec_tree_summary(#[trigger] s.children@[k], parts, ids[k] as int, (fuel - 1) as nat)
    }
}

/// The sender as shown: the first mailbox of From, or a default.
pub open spec fn spec_from_text(from: Option<Vec<MailAddress>>) -> Seq<char> {
    match from {
        Some(l) => if l@.len() > 0 {
            mailbox_text(l@[0])
        } else {
            "Unknown Sender"@
        },
        None => "Unknown Sender"@,
    }
}

/// The number of parts from position `i` on that satisfy `f`.
pub open spec fn count_parts(parts: Seq<MimePart>, f: spec_fn(MimePart) -> bool) -> nat
    decreases parts.len(),
{
    if parts.len() == 0 {
        0
    } else {
        count_parts(parts.drop_last(), f) + if f(parts.last()) {
            1nat
        } else {
            0nat
        }
    }
}

/// Parts that are attachments.
pub open spec fn is_attachment_part(p: MimePart) -> bool {
    p.attachment_name is Some
}

/// Parts with a Base64 or quoted-printable body.
pub open spec fn is_encoded_part(p: MimePart) -> bool {
    p.encoding == TransferEncoding::Base64 || p.encoding == TransferEncoding::QuotedPrintable
}

/// The nesting depth of a list of parts: one more than the deepest children.
pub open spec fn max_depth(parts: Seq<MailPartSummary>) -> nat
    decreases parts,
{
    if parts.len() == 0 {
        0
    } else {
        let rest = max_depth(parts.drop_last());
        let last = parts.last();
        proof {
            assert(decreases_to!(parts => parts[parts.len() - 1]));
        }
        let here = 1 + max_depth(last.children@);
        if rest >= here {
            rest
        } else {
            here
        }
    }
}

/// The nesting depth of part `i`: one more than the depth of its deepest
/// sub-part, looking at most `fuel` levels down.
pub open spec fn spec_part_depth(parts: Seq<MimePart>, i: int, fuel: nat) -> nat
    decreases fuel, 0int,
{
    if fuel == 0 || i < 0 || i >= parts.len() {
        0
    } else {
        1 + spec_subs_depth(parts, parts[i].sub_parts@, parts[i].sub_parts@.len() as int, (fuel - 1) as nat)
    }
}

/// The greatest depth among the first `k` sub-parts listed in `subs`.
pub open spec fn spec_subs_depth(parts: Seq<MimePart>, subs: Seq<u32>, k: int, fuel: nat) -> nat
    decreases fuel, k + 1,
{
    if k <= 0 {
        0
    } else {
        let a = spec_subs_depth(parts, subs, k - 1, fuel);
        let b = spec_part_depth(parts, subs[k - 1] as int, fuel);
        if a >= b {
            a
        } else {
            b
        }
    }
}

/// The nesting depth of a message's part tree, rooted at its first part: 1 for
/// a single-part message, 2 for a multipart holding single parts, and so on
/// (looking no deeper than the number of parts, which a tree of distinct
/// parts never exceeds).
pub open spec fn spec_structure_depth(parts: Seq<MimePart>) -> nat {
    spec_part_depth(parts, 0, parts.len())
}

/// The nesting depth of part `i`, looking at most `fuel` levels down.
fn part_depth(parts: &Vec<MimePart>, i: usize, fuel: usize) -> (res: usize)
    ensures
        res == spec_part_depth(parts@, i as int, fuel as nat),
        res <= fuel,
    decreases fuel,
{
    if fuel == 0 || i >= parts.len() {
        return 0;
    }
    let subs = &parts[i].sub_parts;
    let mut best: usize = 0;
    let mut k: usize = 0;
    while k < subs.len()
        invariant
            0 <= k <= subs@.len(),
            subs@ == parts@[i as int].sub_parts@,
            0 < fuel,
            best == spec_subs_depth(parts@, subs@, k as int, (fuel - 1) as nat),
            best <= fuel - 1,
        decreases subs.len() - k,
    {
        let d = part_depth(parts, subs[k] as usize, fuel - 1);
        if d > best {
            best = d;
        }
        k = k + 1;
    }
    1 + best
}

/// The nesting depth of a message's part tree (see [`spec_structure_depth`]).
fn structure_depth_of(parts: &Vec<MimePart>) -> (res: usize)
    ensures
        res == spec_structure_depth(parts@),
{
    part_depth(parts, 0, parts.len())
}

/// `summary` is the analysis of the parsed message `mail` of `len` bytes.
pub open spec fn spec_summary_of(summary: MailSummary, len: usize, mail: ParsedMail) -> bool {
    let parts = mail.parts@;
    &&& summary.subject@ == opt_or(mail.subject, "No Subject"@)
    &&& summary.from@ == spec_from_text(mail.from)
    &&& summary.date@ == opt_or(mail.date, "Unknown Date"@)
    &&& summary.total_size == len
    &&& summary.parts@.len() == parts.len()
    &&& forall|i: int| 0 <= i < parts.len() ==> spec_tree_summary(
        #[trigger] summary.parts@[i],
        parts,
        i,
        parts.len(),
    )
    &&& summary.attachment_count == count_parts(parts, |p: MimePart| is_attachment_part(p))
    &&& summary.base64_count == count_parts(parts, |p: MimePart| is_encoded_part(p))
    &&& summary.structure_depth == spec_structure_depth(parts)
    &&& summary.raw_offsets@.len() == parts.len()
    &&& forall|i: int| 0 <= i < parts.len() ==> (#[trigger] summary.raw_offsets@[i]) == (
        parts[i].offset_body as usize,
        parts[i].offset_end as usize,
    )
}


/// A deeper part is never deeper than its list.
pub(crate) proof fn lemma_max_depth_parts(parts: Seq<MailPartSummary>, i: int)
    requires
        0 <= i < parts.len(),
    ensures
        1 + max_depth(parts[i].children@) <= max_depth(parts),
        max_depth(parts.take(i)) <= max_depth(parts),
    decreases parts.len(),
{
    if i < parts.len() - 1 {
        lemma_max_depth_parts(parts.drop_last(), i);
        assert(parts.drop_last()[i] == parts[i]);
        assert(parts.drop_last().take(i) =~= parts.take(i));
    } else {
        assert(parts.drop_last() =~= parts.take(i));
    }
}

/// A summary as a reconstruction part.
pub open spec fn spec_reconstruction_of(p: MailPartSummary) -> ReconstructionPart {
    ReconstructionPart {
        content_type: p.content_type,
        filename: p.filename,
        offset_start: p.offset_start,
        offset_end: p.offset_end,
        is_base64: p.is_base64,
        is_attachment: p.is_attachment,
    }
}

/// A part and all its descendants, depth first, the part itself first.
pub open spec fn spec_flatten(p: MailPartSummary) -> Seq<ReconstructionPart>
    decreases p,
{
    seq![spec_reconstruction_of(p)] + spec_flatten_list(p.children@)
}

/// The parts of a list and all their descendants, depth first.
pub open spec fn spec_flatten_list(parts: Seq<MailPartSummary>) -> Seq<ReconstructionPart>
    decreases parts,
{
    if parts.len() == 0 {
        Seq::empty()
    } else {
        proof {
            assert(decreases_to!(parts => parts[parts.len() - 1]));
        }
        spec_flatten_list(parts.drop_last()) + spec_flatten(parts.last())
    }
}

/// An encoded part as listed in a compression analysis.
#[derive(Debug, Clone)]
pub struct EncodedPart {
    /// The part's file name, or its content type when it has none.
    pub label: String,
    /// Size of the encoded body.
    pub encoded_size: usize,
    /// Size of the decoded body.
    pub size: usize,
}

/// The encoded-part entry of a part.
pub open spec fn spec_encoded_entry(p: MailPartSummary) -> EncodedPart {
    EncodedPart {
        label: match p.filename {
            Some(f) => f,
            None => p.content_type,
        },
        encoded_size: p.encoded_size,
        size: p.size,
    }
}

/// The encoded parts among a part and its descendants, depth first.
pub open spec fn spec_encoded_of(p: MailPartSummary) -> Seq<EncodedPart>
    decreases p,
{
    (if p.is_base64 {
        seq![spec_encoded_entry(p)]
    } else {
        Seq::empty()
    }) + spec_encoded_list(p.children@)
}

/// The encoded parts among a list and all their descendants, depth first.
pub open spec fn spec_encoded_list(parts: Seq<MailPartSummary>) -> Seq<EncodedPart>
    decreases parts,
{
    if parts.len() == 0 {
        Seq::empty()
    } else {
        proof {
            assert(decreases_to!(parts => parts[parts.len() - 1]));
        }
        spec_encoded_list(parts.drop_last()) + spec_encoded_of(parts.last())
    }
}

fn encoded_entry(p: &MailPartSummary) -> (res: EncodedPart)
    ensures
        res@ == spec_encoded_entry(*p)@,
{
    EncodedPart {
        label: match &p.filename {
            Some(f) => f.clone(),
            None => p.content_type.clone(),
        },
        encoded_size: p.encoded_size,
        size: p.size,
    }
}

impl View for EncodedPart {
    type V = (Seq<char>, usize, usize);

    open spec fn view(&self) -> (Seq<char>, usize, usize) {
        (self.label@, self.encoded_size, self.size)
    }
}

/// The views of a list of encoded parts.
pub open spec fn encoded_views(v: Seq<EncodedPart>) -> Seq<(Seq<char>, usize, usize)> {
    v.map_values(|e: EncodedPart| e@)
}

fn append_encoded(a: &mut Vec<EncodedPart>, b: Vec<EncodedPart>)
    ensures
        encoded_views(final(a)@) == encoded_views(old(a)@) + encoded_views(b@),
{
    let mut b = b;
    let ghost a0 = a@;
    let ghost b0 = b@;
    a.append(&mut b);
    assert(encoded_views(a@) =~= encoded_views(a0) + encoded_views(b0));
}

fn reconstruction_of(p: &MailPartSummary) -> (res: ReconstructionPart)
    ensures
        res == spec_reconstruction_of(*p),
{
    ReconstructionPart {
        content_type: p.content_type.clone(),
        filename: clone_opt_string(&p.filename),
        offset_start: p.offset_start,
        offset_end: p.offset_end,
        is_base64: p.is_base64,
        is_attachment: p.is_attachment,
    }
}

/// Appends `b` to `a`.
fn append_parts(a: &mut Vec<ReconstructionPart>, b: Vec<ReconstructionPart>)
    ensures
        final(a)@ == old(a)@ + b@,
{
    let mut b = b;
    a.append(&mut b);
}

impl MailAnalyzer {
    /// The summary of one parsed part, without children.
    fn part_fields(part: &MimePart) -> (res: MailPartSummary)
        ensures
            spec_part_fields(res, *part),
            res.children@.len() == 0,
    {
        let encoding = part.encoding;
        MailPartSummary {
            content_type: content_type_string(part, "application/octet-stream"),
            filename: clone_opt_string(&part.attachment_name),
            size: part.contents_len,
            encoded_size: part.raw_len as usize,
            encoding: to_owned_string(encoding.name()),
            is_attachment: part.attachment_name.is_some(),
            is_base64: encoding == TransferEncoding::Base64 || encoding == TransferEncoding::QuotedPrintable,
            offset_start: part.offset_body as usize,
            offset_end: part.offset_end as usize,
            children: Vec::new(),
        }
    }

    /// The summary of part `i` with its sub-parts as children, down to `fuel`
    /// levels (see [`spec_tree_summary`]).
    fn tree_summary(parts: &Vec<MimePart>, i: usize, fuel: usize) -> (res: MailPartSummary)
        requires
            i < parts@.len(),
        ensures
            spec_tree_summary(res, parts@, i as int, fuel as nat),
        decreases fuel,
    {
        let mut s = Self::part_fields(&parts[i]);
        if fuel == 0 {
            return s;
        }
        let subs = &parts[i].sub_parts;
        let ghost n = parts@.len() as int;
        let mut children: Vec<MailPartSummary> = Vec::new();
        let mut k: usize = 0;
        while k < subs.len()
            invariant
                0 <= k <= subs@.len(),
                subs@ == parts@[i as int].sub_parts@,
                n == parts@.len(),
                fuel > 0,
                children@.len() == spec_child_ids(n, subs@.take(k as int)).len(),
                forall|m: int| 0 <= m < children@.len() ==> spec_tree_summary(
                    #[trigger] children@[m],
                    parts@,
                    spec_child_ids(n, subs@.take(k as int))[m] as int,
                    (fuel - 1) as nat,
                ),
            decreases subs.len() - k,
        {
            assert(subs@.take(k + 1).drop_last() =~= subs@.take(k as int));
            assert(subs@.take(k + 1).last() == subs@[k as int]);
            let id = subs[k];
            if (id as usize) < parts.len() {
                let c = Self::tree_summary(parts, id as usize, fuel - 1);
                children.push(c);
            }
            k = k + 1;
        }
        assert(subs@.take(subs@.len() as int) =~= subs@);
        s.children = children;
        s
    }

    /// Updates the counters and offsets with one parsed part.
    fn count_part(
        part: &MimePart,
        attachment_count: &mut usize,
        base64_count: &mut usize,
        raw_offsets: &mut Vec<(usize, usize)>,
    )
        requires
            *old(attachment_count) < usize::MAX,
            *old(base64_count) < usize::MAX,
        ensures
            *final(attachment_count) == *old(attachment_count) + if is_attachment_part(*part) { 1int } else { 0int },
            *final(base64_count) == *old(base64_count) + if is_encoded_part(*part) { 1int } else { 0int },
            final(raw_offsets)@ == old(raw_offsets)@.push((part.offset_body as usize, part.offset_end as usize)),
    {
        let encoding = part.encoding;
        if encoding == TransferEncoding::Base64 || encoding == TransferEncoding::QuotedPrintable {
            *base64_count = *base64_count + 1;
        }
        if part.attachment_name.is_some() {
            *attachment_count = *attachment_count + 1;
        }
        raw_offsets.push((part.offset_body as usize, part.offset_end as usize));
    }

    /// Summarizes every parsed part in order, each with its sub-parts as
    /// children.
    fn analyze_part_tree(
        parts: &Vec<MimePart>,
        attachment_count: &mut usize,
        base64_count: &mut usize,
        raw_offsets: &mut Vec<(usize, usize)>,
    ) -> (res: Vec<MailPartSummary>)
        requires
            *old(attachment_count) == 0,
            *old(base64_count) == 0,
            old(raw_offsets)@.len() == 0,
        ensures
            res@.len() == parts@.len(),
            forall|i: int| 0 <= i < parts@.len() ==> spec_tree_summary(#[trigger] res@[i], parts@, i, parts@.len()),
            *final(attachment_count) == count_parts(parts@, |p: MimePart| is_attachment_part(p)),
            *final(base64_count) == count_parts(parts@, |p: MimePart| is_encoded_part(p)),
            final(raw_offsets)@.len() == parts@.len(),
            forall|i: int| 0 <= i < parts@.len() ==> (#[trigger] final(raw_offsets)@[i]) == (
                parts@[i].offset_body as usize,
                parts@[i].offset_end as usize,
            ),
    {
        let mut summaries: Vec<MailPartSummary> = Vec::new();
        let mut i: usize = 0;
        while i < parts.len()
            invariant
                0 <= i <= parts@.len(),
                summaries@.len() == i,
                forall|k: int| 0 <= k < i ==> spec_tree_summary(#[trigger] summaries@[k], parts@, k, parts@.len()),
                *attachment_count == count_parts(parts@.take(i as int), |p: MimePart| is_attachment_part(p)),
                *base64_count == count_parts(parts@.take(i as int), |p: MimePart| is_encoded_part(p)),
                *attachment_count <= i,
                *base64_count <= i,
                raw_offsets@.len() == i,
                forall|k: int| 0 <= k < i ==> (#[trigger] raw_offsets@[k]) == (
                    parts@[k].offset_body as usize,
                    parts@[k].offset_end as usize,
                ),
            decreases parts.len() - i,
        {
            assert(parts@.take(i + 1).drop_last() =~= parts@.take(i as int));
            assert(parts@.take(i + 1).last() == parts@[i as int]);
            Self::count_part(&parts[i], attachment_count, base64_count, raw_offsets);
            let summary = Self::tree_summary(parts, i, parts.len());
            summaries.push(summary);
            i = i + 1;
        }
        assert(parts@.take(parts@.len() as int) =~= parts@);
        summaries
    }

    /// The nesting depth of a list of parts.
    pub fn calculate_max_depth(parts: &Vec<MailPartSummary>) -> (res: usize)
        requires
            max_depth(parts@) <= usize::MAX,
        ensures
            res == max_depth(parts@),
        decreases parts@,
    {
        let mut best: usize = 0;
        let mut i: usize = 0;
        while i < parts.len()
            invariant
                0 <= i <= parts@.len(),
                max_depth(parts@) <= usize::MAX,
                best == max_depth(parts@.take(i as int)),
            decreases parts.len() - i,
        {
            proof {
                lemma_max_depth_parts(parts@, i as int);
                assert(parts@.take(i + 1).drop_last() =~= parts@.take(i as int));
                assert(parts@.take(i + 1).last() == parts@[i as int]);
                assert(decreases_to!(parts@ => parts@[i as int]));
            }
            let child = Self::calculate_max_depth(&parts[i].children);
            let here = 1 + child;
            if here > best {
                best = here;
            }
            i = i + 1;
        }
        assert(parts@.take(parts@.len() as int) =~= parts@);
        best
    }

    /// The analysis of a parsed message of `len` bytes.
    pub fn analyze_parsed(len: usize, mail: &ParsedMail) -> (res: MailSummary)
        ensures
            spec_summary_of(res, len, *mail),
    {
        let subject = match &mail.subject {
            Some(s) => s.clone(),
            None => to_owned_string("No Subject"),
        };
        let mut from = String::new();
        match &mail.from {
            Some(l) => {
                if l.len() > 0 {
                    crate::extractor::push_mailbox_text(&mut from, &l[0]);
                } else {
                    push_str(&mut from, "Unknown Sender");
                }
            },
            None => push_str(&mut from, "Unknown Sender"),
        }
        let date = match &mail.date {
            Some(d) => d.clone(),
            None => to_owned_string("Unknown Date"),
        };
        let mut attachment_count: usize = 0;
        let mut base64_count: usize = 0;
        let mut raw_offsets: Vec<(usize, usize)> = Vec::new();
        let parts = Self::analyze_part_tree(&mail.parts, &mut attachment_count, &mut base64_count, &mut raw_offsets);
        let structure_depth = structure_depth_of(&mail.parts);
        MailSummary {
            subject,
            from,
            date,
            total_size: len,
            parts,
            attachment_count,
            base64_count,
            structure_depth,
            raw_offsets,
        }
    }

    /// Analyzes email content from raw bytes.
    pub fn analyze_mail(content: &[u8]) -> (res: Result<MailSummary, MailCrushError>)
        ensures
            content@.len() == 0 <==> (res matches Err(e) && e is EmptyMail),
            content@.len() > 0 ==> match spec_parse_mail(content@) {
                None => res matches Err(MailCrushError::ParseError(m)) && m@ == "Failed to parse email"@,
                Some(mail) => res matches Ok(summary) && spec_summary_of(summary, content@.len() as usize, mail),
            },
    {
        if content.len() == 0 {
            return Err(MailCrushError::EmptyMail);
        }
        match parse_mail(content) {
            Some(mail) => Ok(Self::analyze_parsed(content.len(), &mail)),
            None => Err(MailCrushError::ParseError(to_owned_string("Failed to parse email"))),
        }
    }

    /// The raw bytes of a part, or an error when its end lies past the message.
    pub fn extract_part_data<'a>(&self, part: &MailPartSummary, raw_content: &'a [u8]) -> (res: Result<
        &'a [u8],
        MailCrushError,
    >)
        requires
            part.offset_end > raw_content@.len() || part.offset_start <= part.offset_end,
        ensures
            part.offset_end > raw_content@.len() ==> (res matches Err(e) && e is InvalidStructure),
            part.offset_end <= raw_content@.len() ==> (res matches Ok(d) && d@ == raw_content@.subrange(
                part.offset_start as int,
                part.offset_end as int,
            )),
    {
        if part.offset_end > raw_content.len() {
            let mut msg = String::new();
            push_str(&mut msg, "Part offset out of bounds: ");
            crate::text::push_decimal(&mut msg, part.offset_start);
            push_str(&mut msg, "-");
            crate::text::push_decimal(&mut msg, part.offset_end);
            return Err(MailCrushError::InvalidStructure(msg));
        }
        Ok(&raw_content[part.offset_start..part.offset_end])
    }

    /// A part and all its descendants as reconstruction parts, depth first.
    pub fn flatten_parts(part: &MailPartSummary) -> (res: Vec<ReconstructionPart>)
        ensures
            res@ == spec_flatten(*part),
        decreases *part,
    {
        let mut parts: Vec<ReconstructionPart> = Vec::new();
        parts.push(reconstruction_of(part));
        let rest = Self::flatten_list(&part.children);
        append_parts(&mut parts, rest);
        parts
    }

    /// The parts of a list and all their descendants, depth first.
    fn flatten_list(list: &Vec<MailPartSummary>) -> (res: Vec<ReconstructionPart>)
        ensures
            res@ == spec_flatten_list(list@),
        decreases list@,
    {
        let mut out: Vec<ReconstructionPart> = Vec::new();
        let mut i: usize = 0;
        while i < list.len()
            invariant
                0 <= i <= list@.len(),
                out@ == spec_flatten_list(list@.take(i as int)),
            decreases list.len() - i,
        {
            proof {
                assert(list@.take(i + 1).drop_last() =~= list@.take(i as int));
                assert(list@.take(i + 1).last() == list@[i as int]);
                assert(decreases_to!(list@ => list@[i as int]));
            }
            let sub = Self::flatten_parts(&list[i]);
            append_parts(&mut out, sub);
            i = i + 1;
        }
        assert(list@.take(list@.len() as int) =~= list@);
        out
    }
}

impl MailAnalyzer {
    /// The encoded parts among a part and its descendants, depth first.
    fn encoded_of(part: &MailPartSummary) -> (res: Vec<EncodedPart>)
        ensures
            encoded_views(res@) == encoded_views(spec_encoded_of(*part)),
        decreases *part,
    {
        let mut out: Vec<EncodedPart> = Vec::new();
        if part.is_base64 {
            out.push(encoded_entry(part));
        }
        assert(encoded_views(out@) =~= encoded_views(if part.is_base64 {
            seq![spec_encoded_entry(*part)]
        } else {
            Seq::empty()
        }));
        let rest = Self::encoded_list(&part.children);
        append_encoded(&mut out, rest);
        proof {
            let head = if part.is_base64 { seq![spec_encoded_entry(*part)] } else { Seq::<EncodedPart>::empty() };
            assert(encoded_views(head + spec_encoded_list(part.children@)) =~= encoded_views(head) + encoded_views(
                spec_encoded_list(part.children@),
            ));
        }
        out
    }

    /// The encoded parts among a list and all their descendants, depth first.
    fn encoded_list(list: &Vec<MailPartSummary>) -> (res: Vec<EncodedPart>)
        ensures
            encoded_views(res@) == encoded_views(spec_encoded_list(list@)),
        decreases list@,
    {
        let mut out: Vec<EncodedPart> = Vec::new();
        let mut i: usize = 0;
        while i < list.len()
            invariant
                0 <= i <= list@.len(),
                encoded_views(out@) == encoded_views(spec_encoded_list(list@.take(i as int))),
            decreases list.len() - i,
        {
            proof {
                assert(list@.take(i + 1).drop_last() =~= list@.take(i as int));
                assert(list@.take(i + 1).last() == list@[i as int]);
                assert(decreases_to!(list@ => list@[i as int]));
            }
            let sub = Self::encoded_of(&list[i]);
            append_encoded(&mut out, sub);
            proof {
                let a = spec_encoded_list(list@.take(i as int));
                let b = spec_encoded_of(list@[i as int]);
                assert(encoded_views(a + b) =~= encoded_views(a) + encoded_views(b));
            }
            i = i + 1;
        }
        assert(list@.take(list@.len() as int) =~= list@);
        out
    }
}

/// The top of the part tree: the message's first part, which holds the others
/// as its descendants (nothing for a message without parts).
pub open spec fn spec_tree_roots(parts: Seq<MailPartSummary>) -> Seq<MailPartSummary> {
    if parts.len() == 0 {
        Seq::empty()
    } else {
        seq![parts[0]]
    }
}

impl MailSummary {
    /// The parts with a Base64 or quoted-printable body, walking the part tree
    /// from the message's first part, depth first.
    pub fn encoded_parts(&self) -> (res: Vec<EncodedPart>)
        ensures
            encoded_views(res@) == encoded_views(spec_encoded_list(spec_tree_roots(self.parts@))),
    {
        if self.parts.len() == 0 {
            let v: Vec<EncodedPart> = Vec::new();
            assert(encoded_views(v@) =~= encoded_views(spec_encoded_list(spec_tree_roots(self.parts@))));
            return v;
        }
        let v = MailAnalyzer::encoded_of(&self.parts[0]);
        proof {
            let r = spec_tree_roots(self.parts@);
            assert(r.drop_last() =~= Seq::<MailPartSummary>::empty());
            assert(spec_encoded_list(r) =~= spec_encoded_list(r.drop_last()) + spec_encoded_of(r.last()));
            assert(spec_encoded_list(r) =~= spec_encoded_of(self.parts@[0]));
        }
        v
    }

    /// The reconstruction parts of the part tree, walked from the message's
    /// first part, depth first: every part once.
    pub fn get_reconstruction_map(&self) -> (res: Vec<ReconstructionPart>)
        ensures
            res@ == spec_flatten_list(spec_tree_roots(self.parts@)),
    {
        if self.parts.len() == 0 {
            let v: Vec<ReconstructionPart> = Vec::new();
            assert(v@ =~= spec_flatten_list(spec_tree_roots(self.parts@)));
            return v;
        }
        let v = MailAnalyzer::flatten_parts(&self.parts[0]);
        proof {
            let r = spec_tree_roots(self.parts@);
            assert(r.drop_last() =~= Seq::<MailPartSummary>::empty());
            assert(r.last() == self.parts@[0]);
            assert(spec_flatten_list(r.drop_last()) =~= Seq::<ReconstructionPart>::empty());
            assert(spec_flatten_list(r) == spec_flatten_list(r.drop_last()) + spec_flatten(r.last()));
            assert(spec_flatten_list(r) =~= spec_flatten(self.parts@[0]));
        }
        v
    }
}

} // verus!
