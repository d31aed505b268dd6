use mailcrush::algorithm::CompressionAlgorithm;
use mailcrush::presentation::{
    escape_json, failed_parts, format_duration, guess_extension, report_name, report_name_cuttable, short_type,
    truncate,
};
use mailcrush::report::{CompressionReport, PartCompressionReport};
use mailcrush::utils::BatchStats;

fn report_part(ct: &str, filename: Option<&str>, verified: bool) -> PartCompressionReport {
    PartCompressionReport {
        part_index: 0,
        content_type: ct.to_string(),
        filename: filename.map(|f| f.to_string()),
        original_encoding: "None".to_string(),
        was_base64_decoded: false,
        algorithm: CompressionAlgorithm::NoCompression,
        original_encoded_size: 0,
        decoded_size: 0,
        compressed_size: 0,
        original_hash: String::new(),
        reconstructed_hash: String::new(),
        reconstruction_verified: verified,
        error_message: None,
    }
}

#[test]
fn json_escaping() {
    assert_eq!(escape_json("a\"b\\c\nd\re\tf"), "a\\\"b\\\\c\\nd\\re\\tf");
    assert_eq!(escape_json("plain"), "plain");
}

#[test]
fn extension_guessing() {
    assert_eq!(guess_extension("Text/Plain; charset=utf-8"), "txt");
    assert_eq!(guess_extension("text/html"), "html");
    assert_eq!(guess_extension("image/png"), "png");
    assert_eq!(guess_extension("image/jpg"), "jpg");
    assert_eq!(guess_extension("IMAGE/JPEG"), "jpg");
    assert_eq!(guess_extension("image/gif"), "gif");
    assert_eq!(guess_extension("application/pdf"), "pdf");
    assert_eq!(guess_extension("application/zip"), "zip");
    assert_eq!(guess_extension("application/json"), "json");
    assert_eq!(guess_extension("text/xml"), "xml");
    assert_eq!(guess_extension("application/octet-stream"), "bin");
}

#[test]
fn truncation_with_ellipsis() {
    assert_eq!(truncate("short", 10), "short");
    assert_eq!(truncate("exactly10!", 10), "exactly10!");
    assert_eq!(truncate("a rather long file name.txt", 10), "a rather \u{2026}");
    assert_eq!(truncate("\u{e9}t\u{e9}", 4), "\u{e9}t\u{2026}");
}

#[test]
fn short_types() {
    assert_eq!(short_type("application/pdf"), "pdf");
    assert_eq!(short_type("a/b/c"), "c");
    assert_eq!(short_type("noslash"), "noslash");
    assert_eq!(short_type("trailing/"), "");
}

#[test]
fn durations() {
    assert_eq!(format_duration(0, 5), None);
    assert_eq!(format_duration(1, 5).unwrap(), "1.005s");
    assert_eq!(format_duration(59, 999).unwrap(), "59.999s");
    assert_eq!(format_duration(61, 42).unwrap(), "1m 1.042s");
    assert_eq!(format_duration(3600, 100).unwrap(), "60m 0.100s");
}

#[test]
fn report_names() {
    let plain = report_part("text/plain", None, true);
    assert_eq!(report_name(&plain), "text/plain");
    let pdf = report_part("application/pdf", Some("91624c3d.pdf"), true);
    assert!(report_name_cuttable(&pdf));
    assert_eq!(report_name(&pdf), "application/pdf (91624c3d.pdf)");
    let long = report_part("image/gif", Some("a-very-long-attachment-name.gif"), true);
    assert_eq!(report_name(&long), "image/gif (a-very-long-atta...");
    let wordy = report_part("application/vnd.ms-excel", Some("b.xls"), true);
    assert_eq!(report_name(&wordy), "application/vnd (b.xls)");
    let accented = report_part("text/plain\u{e9}\u{e9}\u{e9}", Some("x"), true);
    assert!(!report_name_cuttable(&accented));
}

#[test]
fn failed_part_positions() {
    let report = CompressionReport {
        subject: "s".to_string(),
        original_size: 0,
        compressed_size: 0,
        part_reports: vec![report_part("a", None, true), report_part("b", None, false), report_part("c", None, false)],
        full_reconstruction_verified: false,
        original_email_hash: String::new(),
        reconstructed_email_hash: String::new(),
        errors: Vec::new(),
    };
    assert_eq!(failed_parts(&report), vec![1, 2]);
    assert_eq!(report.verified_count(), 1);
    assert_eq!(report.failed_count(), 2);
}

#[test]
fn batch_summary_line() {
    let mut st = BatchStats::new();
    st.total = 1;
    st.record_success();
    assert_eq!(st.summary_text(), None);
    st.total = 3;
    st.record_success();
    st.record_failure();
    assert_eq!(st.summary_text().unwrap(), "\u{1f4ca} Batch Summary: 3 processed, 2 succeeded, 1 failed");
}
