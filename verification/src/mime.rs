//! The MIME structure of a message, as the parser reports it.

use vstd::prelude::*;

use mail_parser::MimeHeaders as _;

use crate::text::{push_str, seq_starts_with, spec_to_lowercase};

verus! {

/// Content-Transfer-Encoding of a part.
#[derive(Debug, Clone, Copy, PartialEq, Eq, Structural)]
pub enum TransferEncoding {
    /// No transfer encoding (7bit, 8bit or binary).
    Identity,
    /// Quoted-printable.
    QuotedPrintable,
    /// Base64.
    Base64,
}

/// The name the encoding is reported under.
pub open spec fn spec_encoding_name(e: TransferEncoding) -> Seq<char> {
    match e {
        TransferEncoding::Identity => "None"@,
        TransferEncoding::QuotedPrintable => "QuotedPrintable"@,
        TransferEncoding::Base64 => "Base64"@,
    }
}

impl TransferEncoding {
    /// The name the encoding is reported under.
    pub fn name(&self) -> (res: &'static str)
        ensures
            res@ == spec_encoding_name(*self),
    {
        match self {
            TransferEncoding::Identity => "None",
            TransferEncoding::QuotedPrintable => "QuotedPrintable",
            TransferEncoding::Base64 => "Base64",
        }
    }
}

/// A mailbox: display name and address, each possibly absent.
#[derive(Debug, Clone)]
pub struct MailAddress {
    pub name: Option<String>,
    pub address: Option<String>,
}

/// A Content-Type header: type and optional subtype.
#[derive(Debug, Clone)]
pub struct ContentTypeInfo {
    pub ctype: String,
    pub subtype: Option<String>,
}

/// One MIME part with its byte offsets in the raw message.
#[derive(Debug, Clone)]
pub struct MimePart {
    /// The part's Content-Type, if it has one.
    pub content_type: Option<ContentTypeInfo>,
    /// The attachment file name (Content-Disposition filename, or Content-Type name).
    pub attachment_name: Option<String>,
    /// The transfer encoding of the body.
    pub encoding: TransferEncoding,
    /// Offset of the body in the raw message.
    pub offset_body: u32,
    /// Offset just past the body in the raw message.
    pub offset_end: u32,
    /// Length of the part, headers included.
    pub raw_len: u32,
    /// Length of the decoded contents.
    pub contents_len: usize,
    /// For a multipart container, the positions of its parts in the part list.
    pub sub_parts: Vec<u32>,
}

/// An attachment as listed by the parser.
#[derive(Debug, Clone)]
pub struct AttachmentInfo {
    pub name: Option<String>,
    pub len: usize,
}

/// A parsed message: the headers the library reads and the flat list of parts.
#[derive(Debug, Clone)]
pub struct ParsedMail {
    pub subject: Option<String>,
    pub from: Option<Vec<MailAddress>>,
    pub to: Option<Vec<MailAddress>>,
    pub cc: Option<Vec<MailAddress>>,
    /// The Date header in RFC 3339 form.
    pub date: Option<String>,
    /// The first plain-text body.
    pub body_text: Option<String>,
    /// The first HTML body.
    pub body_html: Option<String>,
    pub attachments: Vec<AttachmentInfo>,
    pub parts: Vec<MimePart>,
}

/// What `mail_parser` makes of the raw bytes of a message.
pub uninterp spec fn spec_parse_mail(raw: Seq<u8>) -> Option<ParsedMail>;

/// The outside message type.
#[verifier::external_type_specification]
#[verifier::external_body]
pub struct ExMessagePart<'x>(mail_parser::MessagePart<'x>);

/// The outside address type.
#[verifier::external_type_specification]
#[verifier::external_body]
pub struct ExAddress<'x>(mail_parser::Address<'x>);

/// Parses a message with `mail_parser::MessageParser::default().parse` and
/// copies out the fields the library reads. The result is named, not spelled
/// out: what the parser makes of a message is its own. When it finds no
/// headers, as in empty input, it gives nothing.
#[verifier::external_body]
pub(crate) fn parse_mail(raw: &[u8]) -> (res: Option<ParsedMail>)
    ensures
        res == spec_parse_mail(raw@),
        raw@.len() == 0 ==> res is None,
{
    let m = mail_parser::MessageParser::default().parse(raw)?;
    Some(ParsedMail {
        subject: m.subject().map(str::to_string),
        from: m.from().map(mailbox_list),
        to: m.to().map(mailbox_list),
        cc: m.cc().map(mailbox_list),
        date: m.date().map(|d| d.to_rfc3339()),
        body_text: m.body_text(0).map(|b| b.into_owned()),
        body_html: m.body_html(0).map(|b| b.into_owned()),
        attachments: m.attachments().map(attachment_info).collect(),
        parts: m.parts.iter().map(mime_part).collect(),
    })
}

/// Copies the mailboxes of an address header (`Address::iter`), used by `parse_mail`.
#[verifier::external_body]
fn mailbox_list(a: &mail_parser::Address) -> Vec<MailAddress> {
    a.iter().map(|x| MailAddress { name: x.name().map(str::to_string), address: x.address().map(str::to_string) }).collect()
}

/// Copies the name and length of an attachment, used by `parse_mail`.
#[verifier::external_body]
fn attachment_info(p: &mail_parser::MessagePart) -> AttachmentInfo {
    AttachmentInfo { name: p.attachment_name().map(str::to_string), len: p.len() }
}

/// Copies the fields of a part, used by `parse_mail`.
#[verifier::external_body]
fn mime_part(p: &mail_parser::MessagePart) -> MimePart {
    MimePart {
        content_type: p.content_type().map(|c| ContentTypeInfo { ctype: c.ctype().to_string(), subtype: c.subtype().map(str::to_string) }),
        attachment_name: p.attachment_name().map(str::to_string),
        encoding: match p.encoding {
            mail_parser::Encoding::QuotedPrintable => TransferEncoding::QuotedPrintable,
            mail_parser::Encoding::Base64 => TransferEncoding::Base64,
            mail_parser::Encoding::None => TransferEncoding::Identity,
        },
        offset_body: p.offset_body,
        offset_end: p.offset_end,
        raw_len: p.raw_len(),
        contents_len: p.contents().len(),
        sub_parts: sub_part_ids(p),
    }
}

/// Copies the positions of a container's sub-parts (`PartType::Multipart`),
/// used by `parse_mail`; other parts have none.
#[verifier::external_body]
fn sub_part_ids(p: &mail_parser::MessagePart) -> Vec<u32> {
    match &p.body {
        mail_parser::PartType::Multipart(ids) => ids.clone(),
        _ => Vec::new(),
    }
}

/// The content type string of a part: `type/subtype`, or the type alone when
/// it has no subtype, or `default` when the part has no Content-Type.
pub open spec fn spec_content_type_string(p: MimePart, default: Seq<char>) -> Seq<char> {
    match p.content_type {
        Some(ct) => match ct.subtype {
            Some(sub) => ct.ctype@ + "/"@ + sub@,
            None => ct.ctype@,
        },
        None => default,
    }
}

/// Whether a content type string names a multipart container.
pub open spec fn is_multipart_type(ct: Seq<char>) -> bool {
    seq_starts_with(spec_to_lowercase(ct), "multipart/"@)
}

/// The content type string of a part (see [`spec_content_type_string`]).
pub fn content_type_string(p: &MimePart, default: &str) -> (res: String)
    ensures
        res@ == spec_content_type_string(*p, default@),
{
    let mut s = String::new();
    match &p.content_type {
        Some(ct) => {
            push_str(&mut s, ct.ctype.as_str());
            match &ct.subtype {
                Some(sub) => {
                    push_str(&mut s, "/");
                    push_str(&mut s, sub.as_str());
                },
                None => {},
            }
        },
        None => push_str(&mut s, default),
    }
    s
}

/// A copy of an optional string.
pub fn clone_opt_string(s: &Option<String>) -> (res: Option<String>)
    ensures
        res == *s,
{
    match s {
        Some(t) => Some(t.clone()),
        None => None,
    }
}

} // verus!
