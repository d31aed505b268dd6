//! Readable text of an email: a header block, the body, and an attachment footer.

use vstd::prelude::*;

use vstd::arithmetic::power2::pow2;

use crate::error::io_error_text;
use crate::mime::{parse_mail, spec_parse_mail, MailAddress, ParsedMail};
use crate::text::{concat, decimal, seq_starts_with, push_str, replace_all, replace_chars, string_from_chars, str_chars, to_owned_string, u128_to_decimal};

verus! {

/// Errors returned by [`get_text_content`].
#[derive(Debug)]
pub enum Error {
    /// The supplied byte slice was empty.
    EmptyMail,
    /// The parser could not parse the message.
    ParseError(String),
    /// The email contains no text or HTML body.
    NoContent,
    /// An I/O error occurred.
    Io(std::io::Error),
}

impl Error {
    /// The human-readable message of the error.
    pub fn message(&self) -> (res: String)
        ensures
            match self {
                Error::EmptyMail => res@ == "empty mail content"@,
                Error::ParseError(m) => res@ == "failed to parse email: "@ + m@,
                Error::NoContent => res@ == "no text content available in the email"@,
                Error::Io(_) => true,
            },
    {
        match self {
            Error::EmptyMail => to_owned_string("empty mail content"),
            Error::ParseError(m) => concat("failed to parse email: ", m.as_str()),
            Error::NoContent => to_owned_string("no text content available in the email"),
            Error::Io(e) => io_error_text(e),
        }
    }
}

impl From<std::io::Error> for Error {
    fn from(err: std::io::Error) -> (res: Self) {
        Error::Io(err)
    }
}

impl vstd::std_specs::convert::FromSpecImpl<std::io::Error> for Error {
    open spec fn obeys_from_spec() -> bool {
        true
    }

    open spec fn from_spec(v: std::io::Error) -> Self {
        Error::Io(v)
    }
}

/// The number of binary digits of `b`.
pub open spec fn bit_length(b: nat) -> nat
    decreases b,
{
    if b == 0 {
        0
    } else {
        1 + bit_length(b / 2)
    }
}

/// The value of `b` converted to a 64-bit float: exact up to 53 significant
/// bits, otherwise rounded to the nearest multiple of the last kept bit, ties
/// to even.
pub open spec fn f64_value(b: nat) -> nat {
    if bit_length(b) <= 53 {
        b
    } else {
        let p = pow2((bit_length(b) - 53) as nat);
        let q = b / p;
        let r = b % p;
        if 2 * r > p || (2 * r == p && q % 2 == 1) {
            (q + 1) * p
        } else {
            q * p
        }
    }
}

/// `10 * f / unit` rounded to the nearest integer, ties to even: the tenths
/// shown when `f / unit` is printed with one decimal.
pub open spec fn rounded_tenths(f: nat, unit: nat) -> nat
    recommends
        unit > 0,
{
    let n = 10 * f;
    let q = n / unit;
    let r = n % unit;
    if 2 * r > unit || (2 * r == unit && q % 2 == 1) {
        q + 1
    } else {
        q
    }
}

/// A number of tenths written with one decimal.
pub open spec fn one_decimal(t: nat) -> Seq<char> {
    decimal(t / 10) + "."@ + decimal(t % 10)
}

/// A byte size in a human-readable way: MB or KB with one decimal, or bytes.
pub open spec fn spec_format_size(bytes: nat) -> Seq<char> {
    if bytes >= 1_048_576 {
        one_decimal(rounded_tenths(f64_value(bytes), 1_048_576)) + " MB"@
    } else if bytes >= 1024 {
        one_decimal(rounded_tenths(bytes, 1024)) + " KB"@
    } else {
        decimal(bytes) + " bytes"@
    }
}

fn bit_length_exec(b: u128) -> (res: u128)
    requires
        b <= u64::MAX,
    ensures
        res == bit_length(b as nat),
        res <= 64,
{
    proof {
        vstd::arithmetic::power2::lemma2_to64();
        lemma_bit_length_bound(b as nat, 64);
    }
    let mut x = b;
    let mut n: u128 = 0;
    while x > 0
        invariant
            bit_length(b as nat) == n + bit_length(x as nat),
            n + bit_length(x as nat) <= 64,
        decreases x,
    {
        x = x / 2;
        n = n + 1;
    }
    n
}

proof fn lemma_bit_length_bound(b: nat, k: nat)
    requires
        b < pow2(k),
    ensures
        bit_length(b) <= k,
    decreases k,
{
    if b > 0 && k > 0 {
        vstd::arithmetic::power2::lemma_pow2_unfold(k);
        lemma_bit_length_bound(b / 2, (k - 1) as nat);
    } else if b > 0 && k == 0 {
        vstd::arithmetic::power2::lemma2_to64();
    }
}

fn pow2_exec(k: u128) -> (res: u128)
    requires
        k <= 64,
    ensures
        res == pow2(k as nat),
{
    let mut p: u128 = 1;
    let mut i: u128 = 0;
    proof {
        vstd::arithmetic::power2::lemma2_to64();
    }
    while i < k
        invariant
            0 <= i <= k <= 64,
            p == pow2(i as nat),
        decreases k - i,
    {
        proof {
            vstd::arithmetic::power2::lemma_pow2_unfold((i + 1) as nat);
            vstd::arithmetic::power2::lemma_pow2_strictly_increases(i as nat, 64);
            vstd::arithmetic::power2::lemma2_to64();
        }
        p = p * 2;
        i = i + 1;
    }
    p
}

/// Renders tenths with one decimal.
fn push_one_decimal(s: &mut String, t: u128)
    ensures
        final(s)@ == old(s)@ + one_decimal(t as nat),
{
    let int_part = u128_to_decimal(t / 10);
    push_str(s, int_part.as_str());
    push_str(s, ".");
    let frac = u128_to_decimal(t % 10);
    push_str(s, frac.as_str());
    assert(final(s)@ =~= old(s)@ + one_decimal(t as nat));
}

/// Formats a byte size in a human-readable way.
pub fn format_size(bytes: usize) -> (res: String)
    ensures
        res@ == spec_format_size(bytes as nat),
{
    let mut s = String::new();
    if bytes >= 1_048_576 {
        let b = bytes as u128;
        let bl = bit_length_exec(b);
        proof {
            vstd::arithmetic::power2::lemma2_to64();
            lemma_bit_length_bound(b as nat, 64);
        }
        let f: u128 = if bl <= 53 {
            b
        } else {
            let p = pow2_exec(bl - 53);
            let q = b / p;
            let r = b % p;
            proof {
                vstd::arithmetic::div_mod::lemma_fundamental_div_mod(b as int, p as int);
                assert(q * p <= b) by (nonlinear_arith) requires q == b / p, p > 0, r == b % p, b == p * q + r, r >= 0;
            }
            if 2 * r > p || (2 * r == p && q % 2 == 1) {
                assert((q + 1) * p <= b + p) by (nonlinear_arith) requires q * p <= b;
                (q + 1) * p
            } else {
                q * p
            }
        };
        assert(f == f64_value(bytes as nat));
        let n = 10 * f;
        let q = n / 1_048_576;
        let r = n % 1_048_576;
        let t = if 2 * r > 1_048_576 || (2 * r == 1_048_576 && q % 2 == 1) {
            q + 1
        } else {
            q
        };
        push_one_decimal(&mut s, t);
        push_str(&mut s, " MB");
    } else if bytes >= 1024 {
        let n = 10 * (bytes as u128);
        let q = n / 1024;
        let r = n % 1024;
        let t = if 2 * r > 1024 || (2 * r == 1024 && q % 2 == 1) {
            q + 1
        } else {
            q
        };
        push_one_decimal(&mut s, t);
        push_str(&mut s, " KB");
    } else {
        let d = u128_to_decimal(bytes as u128);
        push_str(&mut s, d.as_str());
        push_str(&mut s, " bytes");
    }
    s
}


/// The characters outside tags from position `i`, line endings collapsed: a
/// run of CR/LF outside tags gives one LF.
pub open spec fn strip_tags_from(s: Seq<char>, i: int, inside_tag: bool, last_was_newline: bool) -> Seq<char>
    decreases s.len() - i,
{
    if i < 0 || i >= s.len() {
        Seq::empty()
    } else {
        let c = s[i];
        if c == '<' {
            strip_tags_from(s, i + 1, true, last_was_newline)
        } else if c == '>' {
            strip_tags_from(s, i + 1, false, last_was_newline)
        } else if !inside_tag {
            if c == '\n' || c == '\r' {
                if !last_was_newline {
                    seq!['\n'] + strip_tags_from(s, i + 1, inside_tag, true)
                } else {
                    strip_tags_from(s, i + 1, inside_tag, true)
                }
            } else {
                seq![c] + strip_tags_from(s, i + 1, inside_tag, false)
            }
        } else {
            strip_tags_from(s, i + 1, inside_tag, last_was_newline)
        }
    }
}

/// The common HTML entities decoded, in this order: `&amp;`, `&lt;`, `&gt;`,
/// `&quot;`, `&#39;`, `&nbsp;`.
pub open spec fn decode_entities(s: Seq<char>) -> Seq<char> {
    replace_all(
        replace_all(
            replace_all(
                replace_all(replace_all(replace_all(s, "&amp;"@, "&"@), "&lt;"@, "<"@), "&gt;"@, ">"@),
                "&quot;"@,
                "\""@,
            ),
            "&#39;"@,
            "'"@,
        ),
        "&nbsp;"@,
        " "@,
    )
}

/// Very basic HTML tag stripping: text outside tags, line endings collapsed,
/// common entities decoded.
pub open spec fn spec_strip_html_tags(html: Seq<char>) -> Seq<char> {
    decode_entities(strip_tags_from(html, 0, false, false))
}

/// Strips HTML tags, collapses line endings, and decodes common entities.
pub fn strip_html_tags(html: &str) -> (res: String)
    ensures
        res@ == spec_strip_html_tags(html@),
{
    let chars = str_chars(html);
    let mut result: Vec<char> = Vec::new();
    let mut inside_tag = false;
    let mut last_was_newline = false;
    let mut i: usize = 0;
    while i < chars.len()
        invariant
            0 <= i <= chars@.len(),
            chars@ == html@,
            result@ + strip_tags_from(html@, i as int, inside_tag, last_was_newline)
                == strip_tags_from(html@, 0, false, false),
        decreases chars.len() - i,
    {
        let ghost before = result@;
        let ghost (in0, nl0) = (inside_tag, last_was_newline);
        let c = chars[i];
        if c == '<' {
            inside_tag = true;
        } else if c == '>' {
            inside_tag = false;
        } else if !inside_tag {
            if c == '\n' || c == '\r' {
                if !last_was_newline {
                    result.push('\n');
                    last_was_newline = true;
                } else {
                    last_was_newline = true;
                }
            } else {
                last_was_newline = false;
                result.push(c);
            }
        }
        assert(result@ + strip_tags_from(html@, i + 1, inside_tag, last_was_newline)
            =~= before + strip_tags_from(html@, i as int, in0, nl0));
        i = i + 1;
    }
    assert(result@ + Seq::<char>::empty() =~= result@);
    proof {
        reveal_strlit("&amp;");
        reveal_strlit("&lt;");
        reveal_strlit("&gt;");
        reveal_strlit("&quot;");
        reveal_strlit("&#39;");
        reveal_strlit("&nbsp;");
    }
    let r1 = replace_chars(&result, "&amp;", "&");
    let r2 = replace_chars(&r1, "&lt;", "<");
    let r3 = replace_chars(&r2, "&gt;", ">");
    let r4 = replace_chars(&r3, "&quot;", "\"");
    let r5 = replace_chars(&r4, "&#39;", "'");
    let r6 = replace_chars(&r5, "&nbsp;", " ");
    string_from_chars(&r6)
}


/// What `html2text::from_read` renders for the HTML text at the given width,
/// if it succeeds.
pub uninterp spec fn spec_html2text(html: Seq<char>, width: usize) -> Option<Seq<char>>;

/// Calls `html2text::from_read` on the bytes of the HTML text; `None` when it
/// reports an error. The rendering is named, not spelled out.
#[verifier::external_body]
pub(crate) fn html_to_text(html: &str, width: usize) -> (res: Option<String>)
    ensures
        res is Some <==> spec_html2text(html@, width) is Some,
        res matches Some(t) ==> t@ == spec_html2text(html@, width)->0,
{
    html2text::from_read(html.as_bytes(), width).ok()
}

/// An optional string, or a default.
pub open spec fn opt_or(s: Option<String>, default: Seq<char>) -> Seq<char> {
    match s {
        Some(t) => t@,
        None => default,
    }
}

/// A mailbox as shown: `name <address>`, or the bare address.
pub open spec fn mailbox_text(a: MailAddress) -> Seq<char> {
    match a.name {
        Some(n) => n@ + " <"@ + opt_or(a.address, ""@) + ">"@,
        None => opt_or(a.address, ""@),
    }
}

/// Mailboxes joined by `", "`.
pub open spec fn mailbox_list_text(l: Seq<MailAddress>) -> Seq<char>
    decreases l.len(),
{
    if l.len() == 0 {
        Seq::empty()
    } else if l.len() == 1 {
        mailbox_text(l[0])
    } else {
        mailbox_list_text(l.drop_last()) + ", "@ + mailbox_text(l.last())
    }
}

/// The horizontal rule: 78 box-drawing characters.
pub open spec fn rule_line() -> Seq<char> {
    Seq::new(78, |_i: int| '\u{2500}')
}

/// The From line: the first sender, or `Unknown`.
pub open spec fn spec_from_line(mail: ParsedMail) -> Seq<char> {
    let from = match mail.from {
        Some(l) => if l@.len() > 0 {
            mailbox_text(l@[0])
        } else {
            "Unknown"@
        },
        None => "Unknown"@,
    };
    "From:    "@ + from + "\n"@
}

/// The header block: From; To, Cc and Date when all headers are asked for;
/// then Subject, then a rule or an empty line.
pub open spec fn spec_header_block(mail: ParsedMail, all_headers: bool, separator: bool) -> Seq<char> {
    let to = match mail.to {
        Some(l) => mailbox_list_text(l@),
        None => "Unknown"@,
    };
    let cc_line = match mail.cc {
        Some(l) => "Cc:      "@ + mailbox_list_text(l@) + "\n"@,
        None => Seq::empty(),
    };
    let date = opt_or(mail.date, "Unknown Date"@);
    let headers = if all_headers {
        spec_from_line(mail) + "To:      "@ + to + "\n"@ + cc_line + "Date:    "@ + date + "\n"@
    } else {
        Seq::empty()
    };
    let sep = if separator {
        rule_line() + "\n"@
    } else {
        "\n"@
    };
    headers + "Subject: "@ + opt_or(mail.subject, "(No Subject)"@) + "\n"@ + sep
}

/// The body in the requested mode, with its fallbacks.
pub open spec fn spec_body_block(mail: ParsedMail, text: bool, html2text: bool) -> Seq<char> {
    if text {
        match mail.body_text {
            Some(b) => b@ + "\n"@,
            None => match mail.body_html {
                Some(h) => "[No plain text version available, showing stripped HTML]\n"@ + "\n"@ + spec_strip_html_tags(h@)
                    + "\n"@,
                None => "[No text content available]\n"@,
            },
        }
    } else {
        let html = if html2text {
            match mail.body_html {
                Some(h) => Some(match spec_html2text(h@, 78) {
                    Some(r) => r,
                    None => h@,
                }),
                None => None,
            }
        } else {
            match mail.body_html {
                Some(h) => Some(h@),
                None => None,
            }
        };
        match html {
            Some(h) => h + "\n"@,
            None => match mail.body_text {
                Some(b) => "[No HTML version available, showing plain text]\n"@ + "\n"@ + b@ + "\n"@,
                None => "[No content available]\n"@,
            },
        }
    }
}

/// The lines listing the parts that have an attachment name, from position `i`.
pub open spec fn attachment_lines(parts: Seq<crate::mime::MimePart>, i: int) -> Seq<char>
    decreases parts.len() - i,
{
    if i < 0 || i >= parts.len() {
        Seq::empty()
    } else {
        let p = parts[i];
        let line = match p.attachment_name {
            Some(n) => "   "@ + n@ + " ("@ + spec_format_size(p.contents_len as nat) + ")\n"@,
            None => Seq::empty(),
        };
        line + attachment_lines(parts, i + 1)
    }
}

/// The number of parts with an attachment name, from position `i`.
pub open spec fn attachment_count(parts: Seq<crate::mime::MimePart>, i: int) -> nat
    decreases parts.len() - i,
{
    if i < 0 || i >= parts.len() {
        0
    } else {
        (if parts[i].attachment_name is Some {
            1nat
        } else {
            0nat
        }) + attachment_count(parts, i + 1)
    }
}

/// The attachment footer: nothing when no part has an attachment name.
pub open spec fn spec_attachment_block(mail: ParsedMail) -> Seq<char> {
    let n = attachment_count(mail.parts@, 0);
    if n == 0 {
        Seq::empty()
    } else {
        "\n"@ + rule_line() + "\n"@ + "\u{1F4CE} Attachments ("@ + decimal(n) + "):\n"@ + "\n"@ + attachment_lines(
            mail.parts@,
            0,
        )
    }
}

/// The whole text: header block, body, and the attachment footer when asked for.
pub open spec fn spec_text_content(
    mail: ParsedMail,
    text: bool,
    html2text: bool,
    attachments: bool,
    all_headers: bool,
    separator: bool,
) -> Seq<char> {
    spec_header_block(mail, all_headers, separator) + spec_body_block(mail, text, html2text) + if attachments {
        spec_attachment_block(mail)
    } else {
        Seq::empty()
    }
}

fn push_opt_or(s: &mut String, o: &Option<String>, default: &str)
    ensures
        final(s)@ == old(s)@ + opt_or(*o, default@),
{
    match o {
        Some(t) => push_str(s, t.as_str()),
        None => push_str(s, default),
    }
}

/// Appends a mailbox as shown.
pub fn push_mailbox_text(s: &mut String, a: &MailAddress)
    ensures
        final(s)@ == old(s)@ + mailbox_text(*a),
{
    let ghost s0 = s@;
    match &a.name {
        Some(n) => {
            push_str(s, n.as_str());
            push_str(s, " <");
            push_opt_or(s, &a.address, "");
            push_str(s, ">");
        },
        None => push_opt_or(s, &a.address, ""),
    }
    assert(s@ =~= s0 + mailbox_text(*a));
}

fn push_mailbox_list(s: &mut String, l: &Vec<MailAddress>)
    ensures
        final(s)@ == old(s)@ + mailbox_list_text(l@),
{
    let ghost s0 = s@;
    let mut i: usize = 0;
    while i < l.len()
        invariant
            0 <= i <= l@.len(),
            s@ == s0 + mailbox_list_text(l@.take(i as int)),
        decreases l.len() - i,
    {
        let ghost prev = s@;
        if i > 0 {
            push_str(s, ", ");
        }
        push_mailbox_text(s, &l[i]);
        assert(l@.take(i + 1).drop_last() =~= l@.take(i as int));
        if i == 0 {
            assert(mailbox_list_text(l@.take(1)) == mailbox_text(l@[0]));
        }
        assert(s@ =~= s0 + mailbox_list_text(l@.take(i + 1)));
        i = i + 1;
    }
    assert(l@.take(l@.len() as int) =~= l@);
}

fn push_rule(s: &mut String)
    ensures
        final(s)@ == old(s)@ + rule_line(),
{
    let ghost s0 = s@;
    let mut i: usize = 0;
    while i < 78
        invariant
            0 <= i <= 78,
            s@ == s0 + Seq::new(i as nat, |_k: int| '\u{2500}'),
        decreases 78 - i,
    {
        s.push('\u{2500}');
        assert(s@ =~= s0 + Seq::new((i + 1) as nat, |_k: int| '\u{2500}'));
        i = i + 1;
    }
    assert(s@ =~= s0 + rule_line());
}

/// Appends the From line (see [`spec_from_line`]).
fn push_from_line(out: &mut String, mail: &ParsedMail)
    ensures
        final(out)@ == old(out)@ + spec_from_line(*mail),
{
    push_str(out, "From:    ");
    match &mail.from {
        Some(l) => {
            if l.len() > 0 {
                push_mailbox_text(out, &l[0]);
            } else {
                push_str(out, "Unknown");
            }
        },
        None => push_str(out, "Unknown"),
    }
    push_str(out, "\n");
    assert(out@ =~= old(out)@ + spec_from_line(*mail));
}

/// The header block of the text (see [`spec_header_block`]).
#[verifier::rlimit(60)]
#[verifier::spinoff_prover]
pub fn header_block(mail: &ParsedMail, all_headers: bool, separator: bool) -> (res: String)
    ensures
        res@ == spec_header_block(*mail, all_headers, separator),
{
    let mut out = String::new();
    if all_headers {
        push_from_line(&mut out, mail);
        push_str(&mut out, "To:      ");
        match &mail.to {
            Some(l) => push_mailbox_list(&mut out, l),
            None => push_str(&mut out, "Unknown"),
        }
        push_str(&mut out, "\n");
        match &mail.cc {
            Some(l) => {
                push_str(&mut out, "Cc:      ");
                push_mailbox_list(&mut out, l);
                push_str(&mut out, "\n");
            },
            None => {},
        }
        push_str(&mut out, "Date:    ");
        push_opt_or(&mut out, &mail.date, "Unknown Date");
        push_str(&mut out, "\n");
    }
    push_str(&mut out, "Subject: ");
    push_opt_or(&mut out, &mail.subject, "(No Subject)");
    push_str(&mut out, "\n");
    if separator {
        push_rule(&mut out);
        push_str(&mut out, "\n");
    } else {
        push_str(&mut out, "\n");
    }
    assert(out@ =~= spec_header_block(*mail, all_headers, separator));
    out
}

/// The body of the text (see [`spec_body_block`]).
pub fn body_block(mail: &ParsedMail, text: bool, html2text: bool) -> (res: String)
    ensures
        res@ == spec_body_block(*mail, text, html2text),
{
    let mut out = String::new();
    if text {
        match &mail.body_text {
            Some(body) => {
                push_str(&mut out, body.as_str());
                push_str(&mut out, "\n");
            },
            None => match &mail.body_html {
                Some(html) => {
                    push_str(&mut out, "[No plain text version available, showing stripped HTML]\n");
                    push_str(&mut out, "\n");
                    let stripped = strip_html_tags(html.as_str());
                    push_str(&mut out, stripped.as_str());
                    push_str(&mut out, "\n");
                },
                None => push_str(&mut out, "[No text content available]\n"),
            },
        }
    } else {
        let html: Option<String> = if html2text {
            match &mail.body_html {
                Some(h) => Some(match html_to_text(h.as_str(), 78) {
                    Some(r) => r,
                    None => h.clone(),
                }),
                None => None,
            }
        } else {
            match &mail.body_html {
                Some(h) => Some(h.clone()),
                None => None,
            }
        };
        match &html {
            Some(h) => {
                push_str(&mut out, h.as_str());
                push_str(&mut out, "\n");
            },
            None => match &mail.body_text {
                Some(body) => {
                    push_str(&mut out, "[No HTML version available, showing plain text]\n");
                    push_str(&mut out, "\n");
                    push_str(&mut out, body.as_str());
                    push_str(&mut out, "\n");
                },
                None => push_str(&mut out, "[No content available]\n"),
            },
        }
    }
    assert(out@ =~= spec_body_block(*mail, text, html2text));
    out
}

/// The attachment footer of the text (see [`spec_attachment_block`]).
pub fn attachment_block(mail: &ParsedMail) -> (res: String)
    ensures
        res@ == spec_attachment_block(*mail),
{
    let parts = &mail.parts;
    let mut count: usize = 0;
    let mut lines = String::new();
    let mut i: usize = parts.len();
    while i > 0
        invariant
            0 <= i <= parts@.len(),
            count == attachment_count(parts@, i as int),
            count <= parts@.len() - i,
            lines@ == attachment_lines(parts@, i as int),
        decreases i,
    {
        i = i - 1;
        let p = &parts[i];
        let mut line = String::new();
        match &p.attachment_name {
            Some(name) => {
                push_str(&mut line, "   ");
                push_str(&mut line, name.as_str());
                push_str(&mut line, " (");
                let size = format_size(p.contents_len);
                push_str(&mut line, size.as_str());
                push_str(&mut line, ")\n");
                assert(count < parts.len());
                count = count + 1;
            },
            None => {},
        }
        push_str(&mut line, lines.as_str());
        lines = line;
        assert(lines@ =~= attachment_lines(parts@, i as int));
    }
    let mut out = String::new();
    if count > 0 {
        push_str(&mut out, "\n");
        push_rule(&mut out);
        push_str(&mut out, "\n");
        push_str(&mut out, "\u{1F4CE} Attachments (");
        let d = u128_to_decimal(count as u128);
        push_str(&mut out, d.as_str());
        push_str(&mut out, "):\n");
        push_str(&mut out, "\n");
        push_str(&mut out, lines.as_str());
    }
    assert(out@ =~= spec_attachment_block(*mail));
    out
}

/// The formatted text of a parsed message (see [`spec_text_content`]).
pub fn text_content_of(
    mail: &ParsedMail,
    text: bool,
    html2text: bool,
    attachments: bool,
    all_headers: bool,
    separator: bool,
) -> (res: String)
    ensures
        res@ == spec_text_content(*mail, text, html2text, attachments, all_headers, separator),
{
    let mut out = header_block(mail, all_headers, separator);
    let body = body_block(mail, text, html2text);
    push_str(&mut out, body.as_str());
    if attachments {
        let footer = attachment_block(mail);
        push_str(&mut out, footer.as_str());
    }
    assert(out@ =~= spec_text_content(*mail, text, html2text, attachments, all_headers, separator));
    out
}

/// Extracts the formatted text content from raw email bytes: a header block
/// (From, To, Cc and Date when asked for, then Subject), the body in the
/// requested mode, and an optional attachment footer. A message with neither a
/// plain-text nor an HTML body has no content to show.
///
/// Body mode: `text` shows the plain-text body, falling back to stripped HTML;
/// otherwise the HTML body is shown, converted to text when `html2text` is
/// set, falling back to the plain-text body.
pub fn get_text_content(
    file_content: &Vec<u8>,
    text: bool,
    html2text: bool,
    attachments: bool,
    all_headers: bool,
    separator: bool,
) -> (res: Result<String, Error>)
    ensures
        file_content@.len() == 0 <==> (res matches Err(e) && e is EmptyMail),
        file_content@.len() > 0 ==> match spec_parse_mail(file_content@) {
            None => res matches Err(e) && e == Error::ParseError(e->ParseError_0) && e->ParseError_0@ == "mail-parser returned None"@,
            Some(mail) => if mail.body_text is None && mail.body_html is None {
                res matches Err(e) && e is NoContent
            } else {
                res matches Ok(s) && s@ == spec_text_content(mail, text, html2text, attachments, all_headers, separator)
            },
        },
{
    if file_content.len() == 0 {
        return Err(Error::EmptyMail);
    }
    match parse_mail(file_content.as_slice()) {
        Some(mail) => {
            if mail.body_text.is_none() && mail.body_html.is_none() {
                return Err(Error::NoContent);
            }
            Ok(text_content_of(&mail, text, html2text, attachments, all_headers, separator))
        },
        None => Err(Error::ParseError(to_owned_string("mail-parser returned None"))),
    }
}


/// The text the show command prints: the text content, with the From line
/// before it when the full header block is not asked for (the command always
/// shows the sender and the subject).
pub open spec fn spec_show_text(
    mail: ParsedMail,
    text: bool,
    html2text: bool,
    attachments: bool,
    all_headers: bool,
    separator: bool,
) -> Seq<char> {
    (if all_headers {
        Seq::empty()
    } else {
        spec_from_line(mail)
    }) + spec_text_content(mail, text, html2text, attachments, all_headers, separator)
}

/// What the show command prints for raw email bytes (see [`spec_show_text`]);
/// fails as [`get_text_content`] does.
pub fn show_text(
    file_content: &Vec<u8>,
    text: bool,
    html2text: bool,
    attachments: bool,
    all_headers: bool,
    separator: bool,
) -> (res: Result<String, Error>)
    ensures
        file_content@.len() == 0 <==> (res matches Err(e) && e is EmptyMail),
        file_content@.len() > 0 ==> match spec_parse_mail(file_content@) {
            None => res matches Err(e) && e == Error::ParseError(e->ParseError_0) && e->ParseError_0@ == "mail-parser returned None"@,
            Some(mail) => if mail.body_text is None && mail.body_html is None {
                res matches Err(e) && e is NoContent
            } else {
                res matches Ok(s) && s@ == spec_show_text(mail, text, html2text, attachments, all_headers, separator)
            },
        },
{
    if file_content.len() == 0 {
        return Err(Error::EmptyMail);
    }
    match parse_mail(file_content.as_slice()) {
        Some(mail) => {
            if mail.body_text.is_none() && mail.body_html.is_none() {
                return Err(Error::NoContent);
            }
            let mut out = String::new();
            if !all_headers {
                push_from_line(&mut out, &mail);
            }
            let content = text_content_of(&mail, text, html2text, attachments, all_headers, separator);
            push_str(&mut out, content.as_str());
            assert(out@ =~= spec_show_text(mail, text, html2text, attachments, all_headers, separator));
            Ok(out)
        },
        None => Err(Error::ParseError(to_owned_string("mail-parser returned None"))),
    }
}

/// Asking for attachments appends the attachment footer and changes nothing
/// else: no footer when no part has an attachment name, else a rule, the count
/// and one line per named part.
pub proof fn lemma_attachment_footer(mail: ParsedMail, text: bool, html2text: bool, all_headers: bool, separator: bool)
    ensures
        spec_text_content(mail, text, html2text, true, all_headers, separator) == spec_text_content(
            mail,
            text,
            html2text,
            false,
            all_headers,
            separator,
        ) + spec_attachment_block(mail),
        attachment_count(mail.parts@, 0) == 0 ==> spec_attachment_block(mail) == Seq::<char>::empty(),
        attachment_count(mail.parts@, 0) > 0 ==> spec_attachment_block(mail) == "\n"@ + rule_line() + "\n"@
            + "\u{1F4CE} Attachments ("@ + decimal(attachment_count(mail.parts@, 0)) + "):\n"@ + "\n"@
            + attachment_lines(mail.parts@, 0),
{
    assert(spec_text_content(mail, text, html2text, false, all_headers, separator) + spec_attachment_block(mail)
        =~= spec_text_content(mail, text, html2text, true, all_headers, separator));
}

/// With all headers asked for, a message's Cc list shows as one line,
/// `Cc:      ` and its mailboxes joined by `, `, placed right after the To
/// line and before the Date line; the rest of the header block is that of the
/// same message without a Cc list. Without all headers, the Cc list changes
/// nothing.
#[verifier::rlimit(50)]
#[verifier::spinoff_prover]
pub proof fn lemma_cc_line_follows_to(mail: ParsedMail, cc: Vec<MailAddress>, separator: bool)
    requires
        mail.cc == Some(cc),
    ensures
        ({
            let to_text = match mail.to {
                Some(l) => mailbox_list_text(l@),
                None => "Unknown"@,
            };
            let head = spec_from_line(mail) + "To:      "@ + to_text + "\n"@;
            let base = spec_header_block(ParsedMail { cc: None, ..mail }, true, separator);
            &&& base.take(head.len() as int) == head
            &&& seq_starts_with(base.skip(head.len() as int), "Date:    "@)
            &&& spec_header_block(mail, true, separator) == head + "Cc:      "@ + mailbox_list_text(cc@) + "\n"@
                + base.skip(head.len() as int)
        }),
        spec_header_block(mail, false, separator) == spec_header_block(ParsedMail { cc: None, ..mail }, false, separator),
{
    let without = ParsedMail { cc: None, ..mail };
    let to_text = match mail.to {
        Some(l) => mailbox_list_text(l@),
        None => "Unknown"@,
    };
    let head = spec_from_line(mail) + "To:      "@ + to_text + "\n"@;
    let sep = if separator {
        rule_line() + "\n"@
    } else {
        "\n"@
    };
    let rest = opt_or(mail.date, "Unknown Date"@) + "\n"@ + "Subject: "@ + opt_or(mail.subject, "(No Subject)"@)
        + "\n"@ + sep;
    assert(spec_from_line(without) == spec_from_line(mail));
    let base = spec_header_block(without, true, separator);
    assert(base =~= head + ("Date:    "@ + rest));
    assert(base.take(head.len() as int) =~= head);
    assert(base.skip(head.len() as int) =~= "Date:    "@ + rest);
    assert(("Date:    "@ + rest).subrange(0, "Date:    "@.len() as int) =~= "Date:    "@);
    assert(spec_header_block(mail, true, separator) =~= head + "Cc:      "@ + mailbox_list_text(cc@) + "\n"@
        + ("Date:    "@ + rest));
}

} // verus!
