//! The text shown for a message read back from storage: its main headers, a
//! preview of its body, and its attachments.

use vstd::prelude::*;

use crate::error::MailCrushError;
use crate::extractor::{mailbox_text, push_mailbox_text};
use crate::mime::{parse_mail, spec_parse_mail, AttachmentInfo, ParsedMail};
use crate::text::{decimal, push_decimal, push_str, seq_starts_with, spec_trim, str_chars, string_from_chars, to_owned_string, trim_chars};
use vstd::utf8::encode_utf8;

verus! {

/// The characters outside `<...>` tags, and whether the text ends inside a tag.
pub open spec fn spec_outside_tags(s: Seq<char>) -> (Seq<char>, bool)
    decreases s.len(),
{
    if s.len() == 0 {
        (Seq::empty(), false)
    } else {
        let (out, in_tag) = spec_outside_tags(s.drop_last());
        let c = s.last();
        if c == '<' {
            (out, true)
        } else if c == '>' {
            (out, false)
        } else if !in_tag {
            (out.push(c), in_tag)
        } else {
            (out, in_tag)
        }
    }
}

/// The lines of `s`: the pieces between line feeds (at least one piece).
pub open spec fn spec_split_lines(s: Seq<char>) -> Seq<Seq<char>>
    decreases s.len(),
{
    if s.len() == 0 {
        seq![Seq::empty()]
    } else {
        let init = spec_split_lines(s.drop_last());
        if s.last() == '\n' {
            init.push(Seq::empty())
        } else {
            init.update(init.len() - 1, init.last().push(s.last()))
        }
    }
}

/// The trimmed lines that are not empty once trimmed.
pub open spec fn spec_kept_lines(lines: Seq<Seq<char>>) -> Seq<Seq<char>>
    decreases lines.len(),
{
    if lines.len() == 0 {
        Seq::empty()
    } else {
        spec_kept_lines(lines.drop_last()) + if spec_trim(lines.last()).len() > 0 {
            seq![spec_trim(lines.last())]
        } else {
            Seq::empty()
        }
    }
}

/// Lines joined by line feeds.
pub open spec fn spec_join_lines(lines: Seq<Seq<char>>) -> Seq<char>
    decreases lines.len(),
{
    if lines.len() == 0 {
        Seq::empty()
    } else if lines.len() == 1 {
        lines[0]
    } else {
        spec_join_lines(lines.drop_last()) + seq!['\n'] + lines.last()
    }
}

/// HTML reduced to text for a preview: the characters outside tags, each line
/// trimmed, empty lines dropped, joined by line feeds.
pub open spec fn spec_preview_text_of_html(html: Seq<char>) -> Seq<char> {
    spec_join_lines(spec_kept_lines(spec_split_lines(spec_outside_tags(html).0)))
}

proof fn lemma_split_lines_nonempty(s: Seq<char>)
    ensures
        spec_split_lines(s).len() >= 1,
    decreases s.len(),
{
    if s.len() > 0 {
        lemma_split_lines_nonempty(s.drop_last());
    }
}

proof fn lemma_kept_nonempty(lines: Seq<Seq<char>>)
    ensures
        forall|i: int| 0 <= i < spec_kept_lines(lines).len() ==> (#[trigger] spec_kept_lines(lines)[i]).len() > 0,
    decreases lines.len(),
{
    if lines.len() > 0 {
        lemma_kept_nonempty(lines.drop_last());
        let prev = spec_kept_lines(lines.drop_last());
        let k = spec_kept_lines(lines);
        assert forall|i: int| 0 <= i < k.len() implies (#[trigger] k[i]).len() > 0 by {
            if i < prev.len() {
                assert(k[i] == prev[i]);
            }
        }
    }
}

proof fn lemma_join_empty(lines: Seq<Seq<char>>)
    requires
        forall|i: int| 0 <= i < lines.len() ==> (#[trigger] lines[i]).len() > 0,
    ensures
        spec_join_lines(lines).len() == 0 <==> lines.len() == 0,
    decreases lines.len(),
{
    if lines.len() > 1 {
        assert(lines.last() == lines[lines.len() - 1]);
    } else if lines.len() == 1 {
        assert(lines[0].len() > 0);
    }
}

/// Strips tags from HTML for a preview (see [`spec_preview_text_of_html`]).
pub fn preview_text_of_html(html: &str) -> (res: String)
    ensures
        res@ == spec_preview_text_of_html(html@),
{
    let chars = str_chars(html);
    let mut text: Vec<char> = Vec::new();
    let mut in_tag = false;
    let mut i: usize = 0;
    while i < chars.len()
        invariant
            0 <= i <= chars@.len(),
            chars@ == html@,
            spec_outside_tags(chars@.take(i as int)) == (text@, in_tag),
        decreases chars.len() - i,
    {
        let c = chars[i];
        assert(chars@.take(i + 1).drop_last() =~= chars@.take(i as int));
        if c == '<' {
            in_tag = true;
        } else if c == '>' {
            in_tag = false;
        } else if !in_tag {
            text.push(c);
        }
        i = i + 1;
    }
    assert(chars@.take(chars@.len() as int) =~= chars@);
    let ghost t = text@;
    let mut out: Vec<char> = Vec::new();
    let mut cur: Vec<char> = Vec::new();
    let mut j: usize = 0;
    proof {
        lemma_split_lines_nonempty(t.take(0));
        assert(t.take(0) =~= Seq::<char>::empty());
        assert(spec_split_lines(t.take(0)).drop_last() =~= Seq::<Seq<char>>::empty());
    }
    while j < text.len()
        invariant
            0 <= j <= text@.len(),
            t == text@,
            spec_split_lines(t.take(j as int)).len() >= 1,
            out@ == spec_join_lines(spec_kept_lines(spec_split_lines(t.take(j as int)).drop_last())),
            cur@ == spec_split_lines(t.take(j as int)).last(),
        decreases text.len() - j,
    {
        let c = text[j];
        let ghost lines = spec_split_lines(t.take(j as int));
        assert(t.take(j + 1).drop_last() =~= t.take(j as int));
        proof {
            lemma_split_lines_nonempty(t.take(j + 1));
        }
        if c == '\n' {
            let ghost kept = spec_kept_lines(lines.drop_last());
            let trimmed = trim_chars(&cur);
            assert(lines.push(Seq::empty()).drop_last() =~= lines);
            assert(lines.drop_last().push(lines.last()) =~= lines);
            proof {
                lemma_kept_nonempty(lines.drop_last());
                lemma_join_empty(kept);
            }
            if trimmed.len() > 0 {
                let ghost k2 = kept.push(trimmed@);
                assert(spec_kept_lines(lines) =~= k2);
                if out.len() > 0 {
                    out.push('\n');
                } else {
                    assert(kept.len() == 0);
                }
                let mut m: usize = 0;
                let ghost o0 = out@;
                while m < trimmed.len()
                    invariant
                        0 <= m <= trimmed@.len(),
                        out@ == o0 + trimmed@.take(m as int),
                    decreases trimmed.len() - m,
                {
                    out.push(trimmed[m]);
                    assert(trimmed@.take(m + 1) =~= trimmed@.take(m as int).push(trimmed@[m as int]));
                    m = m + 1;
                }
                assert(trimmed@.take(trimmed@.len() as int) =~= trimmed@);
                assert(k2.drop_last() =~= kept);
                assert(out@ =~= spec_join_lines(k2));
            } else {
                assert(spec_kept_lines(lines) =~= kept);
            }
            cur = Vec::new();
        } else {
            cur.push(c);
            assert(spec_split_lines(t.take(j + 1)).drop_last() =~= lines.drop_last());
            assert(cur@ =~= spec_split_lines(t.take(j + 1)).last());
        }
        j = j + 1;
    }
    assert(t.take(t.len() as int) =~= t);
    let ghost lines = spec_split_lines(t);
    let ghost kept = spec_kept_lines(lines.drop_last());
    let trimmed = trim_chars(&cur);
    assert(lines.drop_last().push(lines.last()) =~= lines);
    proof {
        lemma_kept_nonempty(lines.drop_last());
        lemma_join_empty(kept);
    }
    if trimmed.len() > 0 {
        let ghost k2 = kept.push(trimmed@);
        assert(spec_kept_lines(lines) =~= k2);
        if out.len() > 0 {
            out.push('\n');
        }
        let ghost o0 = out@;
        let mut m: usize = 0;
        while m < trimmed.len()
            invariant
                0 <= m <= trimmed@.len(),
                out@ == o0 + trimmed@.take(m as int),
            decreases trimmed.len() - m,
        {
            out.push(trimmed[m]);
            assert(trimmed@.take(m + 1) =~= trimmed@.take(m as int).push(trimmed@[m as int]));
            m = m + 1;
        }
        assert(trimmed@.take(trimmed@.len() as int) =~= trimmed@);
        assert(k2.drop_last() =~= kept);
        assert(out@ =~= spec_join_lines(k2));
    } else {
        assert(spec_kept_lines(lines) =~= kept);
    }
    string_from_chars(&out)
}


/// `n` copies of `c`.
pub open spec fn repeat_char(c: char, n: nat) -> Seq<char> {
    Seq::new(n, |_i: int| c)
}

/// Appends `n` copies of `c`.
pub fn push_repeat(s: &mut String, c: char, n: usize)
    ensures
        final(s)@ == old(s)@ + repeat_char(c, n as nat),
{
    let ghost s0 = s@;
    let mut i: usize = 0;
    while i < n
        invariant
            0 <= i <= n,
            s@ == s0 + repeat_char(c, i as nat),
        decreases n - i,
    {
        s.push(c);
        assert(s@ =~= s0 + repeat_char(c, (i + 1) as nat));
        i = i + 1;
    }
}

/// A body preview: its first 500 characters on a line, then a note with its
/// size in bytes when it is longer than 500 bytes.
pub open spec fn spec_body_preview(t: Seq<char>) -> Seq<char> {
    let bytes = encode_utf8(t).len() as usize;
    (if t.len() > 500 { t.take(500) } else { t }) + "\n"@ + if bytes > 500 {
        "... [truncated, "@ + decimal(bytes as nat) + " chars total]\n"@
    } else {
        Seq::empty()
    }
}

/// The header line for the first mailbox of an address list, if there is one.
pub open spec fn spec_mailbox_line(label: Seq<char>, l: Option<Vec<crate::mime::MailAddress>>) -> Seq<char> {
    match l {
        Some(v) => if v@.len() > 0 {
            label + mailbox_text(v@[0]) + "\n"@
        } else {
            Seq::empty()
        },
        None => Seq::empty(),
    }
}

/// The lines of the first `n` attachments that have a name.
pub open spec fn spec_attachment_lines(a: Seq<AttachmentInfo>, n: int) -> Seq<char>
    decreases n,
{
    if n <= 0 {
        Seq::empty()
    } else {
        spec_attachment_lines(a, n - 1) + match a[n - 1].name {
            Some(name) => "   \u{2022} "@ + name@ + " ("@ + decimal(a[n - 1].len as nat) + " bytes)\n"@,
            None => Seq::empty(),
        }
    }
}

/// The attachments section: the named attachments under a heading, or nothing
/// when no attachment has a name.
pub open spec fn spec_attachments_section(a: Seq<AttachmentInfo>) -> Seq<char> {
    let lines = spec_attachment_lines(a, a.len() as int);
    if lines.len() > 0 {
        "\n\u{1f4ce} Attachments:\n"@ + repeat_char('\u{2500}', 60) + "\n"@ + lines
    } else {
        Seq::empty()
    }
}

/// The preview section's text: the plain-text body, else the HTML body
/// stripped of tags, else a note that there is none.
pub open spec fn spec_preview_section(mail: ParsedMail) -> Seq<char> {
    match mail.body_text {
        Some(t) => spec_body_preview(t@),
        None => match mail.body_html {
            Some(h) => spec_body_preview(spec_preview_text_of_html(h@)),
            None => "(No text body found)\n"@,
        },
    }
}

/// The text shown for a message: its headers (Subject, From, To, Date, each
/// when present), a preview of its body, and its named attachments.
pub open spec fn spec_email_summary(mail: ParsedMail) -> Seq<char> {
    "\u{1f4e7} Decompressed Email\n"@ + repeat_char('\u{2550}', 60) + "\n\n\u{1f4cb} Headers:\n"@ + repeat_char('\u{2500}', 60)
        + "\n"@ + match mail.subject {
        Some(t) => "Subject: "@ + t@ + "\n"@,
        None => Seq::empty(),
    } + spec_mailbox_line("From:    "@, mail.from) + spec_mailbox_line("To:      "@, mail.to) + match mail.date {
        Some(d) => "Date:    "@ + d@ + "\n"@,
        None => Seq::empty(),
    } + "\n\u{1f4dd} Body Preview:\n"@ + repeat_char('\u{2500}', 60) + "\n"@ + spec_preview_section(mail)
        + spec_attachments_section(mail.attachments@) + "\n"@ + repeat_char('\u{2550}', 60) + "\n"@
}

/// Appends the preview of a body.
fn push_body_preview(s: &mut String, t: &String)
    ensures
        final(s)@ == old(s)@ + spec_body_preview(t@),
{
    let ghost s0 = s@;
    let chars = str_chars(t.as_str());
    let mut i: usize = 0;
    while i < chars.len() && i < 500
        invariant
            0 <= i <= chars@.len(),
            i <= 500,
            chars@ == t@,
            s@ == s0 + chars@.take(i as int),
        decreases chars.len() - i,
    {
        s.push(chars[i]);
        assert(chars@.take(i + 1) =~= chars@.take(i as int).push(chars@[i as int]));
        i = i + 1;
    }
    assert(chars@.take(i as int) =~= (if t@.len() > 500 { t@.take(500) } else { t@ }));
    push_str(s, "\n");
    let bytes = t.as_str().len();
    if bytes > 500 {
        push_str(s, "... [truncated, ");
        push_decimal(s, bytes);
        push_str(s, " chars total]\n");
    }
    assert(s@ =~= s0 + spec_body_preview(t@));
}

/// Appends the header line for the first mailbox of an address list.
fn push_mailbox_line(s: &mut String, label: &str, l: &Option<Vec<crate::mime::MailAddress>>)
    ensures
        final(s)@ == old(s)@ + spec_mailbox_line(label@, *l),
{
    let ghost s0 = s@;
    match l {
        Some(v) => {
            if v.len() > 0 {
                push_str(s, label);
                push_mailbox_text(s, &v[0]);
                push_str(s, "\n");
            }
        },
        None => {},
    }
    assert(s@ =~= s0 + spec_mailbox_line(label@, *l));
}

/// Appends the attachments section.
fn push_attachments_section(s: &mut String, a: &Vec<AttachmentInfo>)
    ensures
        final(s)@ == old(s)@ + spec_attachments_section(a@),
{
    let mut lines = String::new();
    let mut i: usize = 0;
    while i < a.len()
        invariant
            0 <= i <= a@.len(),
            lines@ == spec_attachment_lines(a@, i as int),
        decreases a.len() - i,
    {
        let ghost before = lines@;
        match &a[i].name {
            Some(name) => {
                push_str(&mut lines, "   \u{2022} ");
                push_str(&mut lines, name.as_str());
                push_str(&mut lines, " (");
                push_decimal(&mut lines, a[i].len);
                push_str(&mut lines, " bytes)\n");
            },
            None => {},
        }
        assert(lines@ =~= spec_attachment_lines(a@, i + 1));
        i = i + 1;
    }
    let ghost s0 = s@;
    if !lines.as_str().is_empty() {
        push_str(s, "\n\u{1f4ce} Attachments:\n");
        push_repeat(s, '\u{2500}', 60);
        push_str(s, "\n");
        push_str(s, lines.as_str());
    }
    assert(s@ =~= s0 + spec_attachments_section(a@));
}

/// The text shown for a parsed message (see [`spec_email_summary`]).
pub fn email_summary_of(mail: &ParsedMail) -> (res: String)
    ensures
        res@ == spec_email_summary(*mail),
{
    let mut s = String::new();
    push_str(&mut s, "\u{1f4e7} Decompressed Email\n");
    push_repeat(&mut s, '\u{2550}', 60);
    push_str(&mut s, "\n\n\u{1f4cb} Headers:\n");
    push_repeat(&mut s, '\u{2500}', 60);
    push_str(&mut s, "\n");
    match &mail.subject {
        Some(t) => {
            push_str(&mut s, "Subject: ");
            push_str(&mut s, t.as_str());
            push_str(&mut s, "\n");
        },
        None => {},
    }
    push_mailbox_line(&mut s, "From:    ", &mail.from);
    push_mailbox_line(&mut s, "To:      ", &mail.to);
    match &mail.date {
        Some(d) => {
            push_str(&mut s, "Date:    ");
            push_str(&mut s, d.as_str());
            push_str(&mut s, "\n");
        },
        None => {},
    }
    push_str(&mut s, "\n\u{1f4dd} Body Preview:\n");
    push_repeat(&mut s, '\u{2500}', 60);
    push_str(&mut s, "\n");
    let ghost before_preview = s@;
    match &mail.body_text {
        Some(t) => push_body_preview(&mut s, t),
        None => match &mail.body_html {
            Some(h) => {
                let text = preview_text_of_html(h.as_str());
                push_body_preview(&mut s, &text);
            },
            None => push_str(&mut s, "(No text body found)\n"),
        },
    }
    assert(s@ =~= before_preview + spec_preview_section(*mail));
    push_attachments_section(&mut s, &mail.attachments);
    push_str(&mut s, "\n");
    push_repeat(&mut s, '\u{2550}', 60);
    push_str(&mut s, "\n");
    assert(s@ =~= spec_email_summary(*mail));
    s
}

/// The text shown for a message given as raw bytes; fails when the message
/// cannot be parsed.
pub fn email_summary(raw: &[u8]) -> (res: Result<String, MailCrushError>)
    ensures
        match spec_parse_mail(raw@) {
            Some(mail) => res matches Ok(t) && t@ == spec_email_summary(mail),
            None => res matches Err(MailCrushError::ParseError(m)) && m@ == "Failed to parse decompressed email"@,
        },
{
    match parse_mail(raw) {
        Some(mail) => Ok(email_summary_of(&mail)),
        None => Err(MailCrushError::ParseError(to_owned_string("Failed to parse decompressed email"))),
    }
}

/// A message's date shows as the line `Date:    ` and the date, right after
/// the From and To lines and right before the body preview heading; the rest
/// of the summary is that of the same message without a date.
#[verifier::rlimit(50)]
#[verifier::spinoff_prover]
pub proof fn lemma_date_line_before_preview(mail: ParsedMail, d: String)
    requires
        mail.date == Some(d),
    ensures
        ({
            let base = spec_email_summary(ParsedMail { date: None, ..mail });
            let from_to = spec_mailbox_line("From:    "@, mail.from) + spec_mailbox_line("To:      "@, mail.to);
            exists|k: int| #![trigger base.skip(k)]
                from_to.len() <= k <= base.len()
                && base.take(k).skip(k - from_to.len()) == from_to
                && seq_starts_with(base.skip(k), "\n\u{1f4dd} Body Preview:\n"@)
                && spec_email_summary(mail) == base.take(k) + "Date:    "@ + d@ + "\n"@ + base.skip(k)
        }),
{
    let without = ParsedMail { date: None, ..mail };
    let base = spec_email_summary(without);
    let from_to = spec_mailbox_line("From:    "@, mail.from) + spec_mailbox_line("To:      "@, mail.to);
    let pre = "\u{1f4e7} Decompressed Email\n"@ + repeat_char('\u{2550}', 60) + "\n\n\u{1f4cb} Headers:\n"@
        + repeat_char('\u{2500}', 60) + "\n"@ + match mail.subject {
        Some(t) => "Subject: "@ + t@ + "\n"@,
        None => Seq::empty(),
    } + from_to;
    let heading = "\n\u{1f4dd} Body Preview:\n"@;
    let post = heading + (repeat_char('\u{2500}', 60) + "\n"@ + spec_preview_section(mail)
        + spec_attachments_section(mail.attachments@) + "\n"@ + repeat_char('\u{2550}', 60) + "\n"@);
    assert(spec_preview_section(without) == spec_preview_section(mail));
    assert(base =~= pre + post);
    assert(spec_email_summary(mail) =~= pre + "Date:    "@ + d@ + "\n"@ + post);
    let k = pre.len() as int;
    assert(base.take(k) =~= pre);
    assert(base.skip(k) =~= post);
    assert(pre.skip(k - from_to.len()) =~= from_to);
    assert(post.subrange(0, heading.len() as int) =~= heading);
    assert(spec_email_summary(mail) =~= base.take(k) + "Date:    "@ + d@ + "\n"@ + base.skip(k));
}

} // verus!
