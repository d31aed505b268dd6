use mailcrush::extractor::{format_size, get_text_content, show_text, strip_html_tags, Error};

#[test]
fn empty_mail_returns_error() {
    let empty: Vec<u8> = vec![];
    assert!(matches!(get_text_content(&empty, false, false, false, true, true), Err(Error::EmptyMail)));
}

#[test]
fn sizes_are_formatted_like_one_decimal_floats() {
    for bytes in [0usize, 1, 1023, 1024, 1025, 1536, 1587, 10 * 1024 * 1024, 1_048_575, 1_048_576, 5_000_000, 123_456_789] {
        let expected = if bytes < 1024 {
            format!("{} bytes", bytes)
        } else if bytes < 1024 * 1024 {
            format!("{:.1} KB", bytes as f64 / 1024.0)
        } else {
            format!("{:.1} MB", bytes as f64 / (1024.0 * 1024.0))
        };
        assert_eq!(format_size(bytes), expected, "size {}", bytes);
    }
}

#[test]
fn halfway_sizes_round_like_floats() {
    for bytes in [1075usize, 1126, 1177, 1228, 2099, 52224 + 51, 1_101_004, 1_153_433] {
        let expected = if bytes < 1024 * 1024 {
            format!("{:.1} KB", bytes as f64 / 1024.0)
        } else {
            format!("{:.1} MB", bytes as f64 / (1024.0 * 1024.0))
        };
        assert_eq!(format_size(bytes), expected, "size {}", bytes);
    }
}

#[test]
fn tags_are_stripped_and_entities_decoded() {
    assert_eq!(strip_html_tags("<p>a &amp; b</p>\r\n\r\n<p>&lt;c&gt;</p>"), "a & b\n<c>");
    assert_eq!(strip_html_tags("x&nbsp;y&#39;z&quot;"), "x y'z\"");
}

#[test]
fn text_content_shows_headers_and_body() {
    let raw = b"From: Gina <gina@example.com>\r\nSubject: Notes\r\n\r\nThe body.\r\n".to_vec();
    let out = get_text_content(&raw, true, false, false, true, false).unwrap();
    assert!(out.contains("Notes"));
    assert!(out.contains("The body."));
    assert!(out.contains("Gina <gina@example.com>"));
}

#[test]
fn short_header_block_has_subject_only() {
    let raw = b"From: Gina <gina@example.com>\r\nTo: Hal <hal@example.com>\r\nSubject: Notes\r\n\r\nThe body.\r\n".to_vec();
    let out = get_text_content(&raw, false, false, false, false, false).unwrap();
    assert!(out.starts_with("Subject: Notes\n\n"));
    assert!(!out.contains("From:"));
    let sep = get_text_content(&raw, false, false, false, false, true).unwrap();
    assert!(sep.starts_with(&format!("Subject: Notes\n{}\n", "\u{2500}".repeat(78))));
    let shown = show_text(&raw, false, false, false, false, false).unwrap();
    assert_eq!(shown, format!("From:    Gina <gina@example.com>\n{}", out));
    assert!(!shown.contains("To:"));
    assert!(shown.contains("The body."));
    let full = get_text_content(&raw, false, false, false, true, false).unwrap();
    assert!(full.starts_with("From:    Gina <gina@example.com>\nTo:      Hal <hal@example.com>\n"));
    assert_eq!(show_text(&raw, false, false, false, true, false).unwrap(), full);
}

#[test]
fn message_without_text_or_html_has_no_content() {
    let raw = b"From: Ida <ida@example.com>\r\n\
Subject: Only a file\r\n\
MIME-Version: 1.0\r\n\
Content-Type: multipart/mixed; boundary=\"F\"\r\n\
\r\n\
--F\r\n\
Content-Type: application/octet-stream\r\n\
Content-Disposition: attachment; filename=\"a.bin\"\r\n\
\r\n\
data\r\n\
--F--\r\n"
        .to_vec();
    assert!(matches!(get_text_content(&raw, false, false, false, false, false), Err(Error::NoContent)));
}

#[test]
fn html_bodies_are_converted_to_text() {
    let raw = b"Subject: Styled\r\nContent-Type: text/html\r\n\r\n<html><body><p><b>Hello</b> there</p></body></html>\r\n".to_vec();
    let converted = get_text_content(&raw, false, true, false, false, false).unwrap();
    assert!(converted.contains("Hello"));
    assert!(!converted.contains("<b>"));
    let raw_html = get_text_content(&raw, false, false, false, false, false).unwrap();
    assert!(raw_html.contains("<b>Hello</b>"));
}
