use mailcrush::error::MailCrushError;
use mailcrush::preview::{email_summary, preview_text_of_html};

#[test]
fn html_preview_drops_tags_and_blank_lines() {
    let html = "<html>\n  <body>\n    <p>Hello  </p>\n\n   <p>World</p>\r\n  </body>\n</html>";
    assert_eq!(preview_text_of_html(html), "Hello\nWorld");
    assert_eq!(preview_text_of_html(""), "");
    assert_eq!(preview_text_of_html("no tags at all"), "no tags at all");
    assert_eq!(preview_text_of_html("a<b\n>c"), "ac");
}

#[test]
fn summary_of_a_plain_message() {
    let raw = "From: Erin <erin@example.com>\r\nTo: Frank <frank@example.com>\r\nSubject: Hi\r\n\r\nShort body.\r\n";
    let text = email_summary(raw.as_bytes()).unwrap();
    assert!(text.starts_with("\u{1f4e7} Decompressed Email\n"));
    assert!(text.contains("Subject: Hi\n"));
    assert!(text.contains("From:    Erin <erin@example.com>\n"));
    assert!(text.contains("To:      Frank <frank@example.com>\n"));
    assert!(!text.contains("Date:"));
    assert!(text.contains("Short body."));
    assert!(!text.contains("truncated"));
    assert!(!text.contains("Attachments"));
    assert!(text.ends_with(&format!("\n{}\n", "\u{2550}".repeat(60))));
}

#[test]
fn long_bodies_are_cut_to_500_characters() {
    let body = "x".repeat(600);
    let raw = format!("Subject: Long\r\n\r\n{}", body);
    let text = email_summary(raw.as_bytes()).unwrap();
    assert!(text.contains(&format!("{}\n... [truncated, 600 chars total]\n", "x".repeat(500))));
    assert!(!text.contains(&"x".repeat(501)));
}

#[test]
fn empty_input_is_a_parse_error_for_the_summary() {
    match email_summary(b"") {
        Err(MailCrushError::ParseError(m)) => assert_eq!(m, "Failed to parse decompressed email"),
        Ok(_) => {}
        Err(e) => panic!("unexpected error {:?}", e.message()),
    }
}
