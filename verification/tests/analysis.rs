use mailcrush::analyzer::{MailAnalyzer, MailPartSummary, MailSummary};
use mailcrush::error::MailCrushError;
use mailcrush::presentation::{
    depth_within, extract_file_name, json_summary, offsets_ordered, part_tree_text, parts_to_extract,
    raw_offsets_ordered, reconstruction_info_text,
};
use mailcrush::stats::{aggregate, file_stats, AggregateStats};

fn analysis_sample() -> Vec<u8> {
    "From: Dave <dave@example.com>\r\n\
Subject: Quarterly \"numbers\"\r\n\
MIME-Version: 1.0\r\n\
Content-Type: multipart/mixed; boundary=\"Q\"\r\n\
\r\n\
--Q\r\n\
Content-Type: text/plain\r\n\
\r\n\
See attached.\r\n\
--Q\r\n\
Content-Type: application/pdf; name=\"report.pdf\"\r\n\
Content-Disposition: attachment; filename=\"report.pdf\"\r\n\
Content-Transfer-Encoding: base64\r\n\
\r\n\
JVBERi0xLjQKJcOkw7zDtsOfCjIgMCBvYmoKPDwvTGVuZ3RoIDMgMCBSPj4Kc3RyZWFtCg==\r\n\
--Q--\r\n"
        .as_bytes()
        .to_vec()
}

fn part(size: usize, encoded: usize, attachment: bool, base64: bool, start: usize) -> MailPartSummary {
    MailPartSummary {
        content_type: "text/plain".to_string(),
        filename: if attachment { Some("f.txt".to_string()) } else { None },
        size,
        encoded_size: encoded,
        encoding: "Base64".to_string(),
        is_attachment: attachment,
        is_base64: base64,
        offset_start: start,
        offset_end: start + encoded,
        children: Vec::new(),
    }
}

fn summary(parts: Vec<MailPartSummary>, total: usize) -> MailSummary {
    MailSummary {
        subject: "s".to_string(),
        from: "f".to_string(),
        date: "d".to_string(),
        total_size: total,
        attachment_count: parts.iter().filter(|p| p.is_attachment).count(),
        base64_count: parts.iter().filter(|p| p.is_base64).count(),
        structure_depth: 1,
        raw_offsets: parts.iter().map(|p| (p.offset_start, p.offset_end)).collect(),
        parts,
    }
}

#[test]
fn empty_content_is_not_analyzed() {
    assert!(matches!(MailAnalyzer::analyze_mail(&[]), Err(MailCrushError::EmptyMail)));
}

#[test]
fn sample_mail_is_analyzed() {
    let raw = analysis_sample();
    let s = MailAnalyzer::analyze_mail(&raw).unwrap();
    assert_eq!(s.subject, "Quarterly \"numbers\"");
    assert_eq!(s.from, "Dave <dave@example.com>");
    assert_eq!(s.date, "Unknown Date");
    assert_eq!(s.total_size, raw.len());
    assert_eq!(s.parts.len(), 3);
    assert_eq!(s.attachment_count, 1);
    assert_eq!(s.base64_count, 1);
    assert_eq!(s.structure_depth, 2);
    assert_eq!(s.raw_offsets.len(), 3);
    let pdf = &s.parts[2];
    assert_eq!(pdf.filename.as_deref(), Some("report.pdf"));
    assert!(pdf.is_attachment && pdf.is_base64);
    assert_eq!(pdf.encoding, "Base64");
    assert_eq!(pdf.content_type, "application/pdf");
    assert_eq!(s.parts[1].content_type, "text/plain");
    assert_eq!(s.parts[0].content_type, "multipart/mixed");
    let kids: Vec<&str> = s.parts[0].children.iter().map(|c| c.content_type.as_str()).collect();
    assert_eq!(kids, vec!["text/plain", "application/pdf"]);
    assert_eq!(s.parts[0].children[1].offset_start, pdf.offset_start);
    assert!(s.parts[1].children.is_empty() && s.parts[2].children.is_empty());
    let analyzer = MailAnalyzer;
    let data = analyzer.extract_part_data(pdf, &raw).unwrap();
    assert!(data.starts_with(b"JVBERi0x"));
    let map = s.get_reconstruction_map();
    assert_eq!(map.len(), 3);
    assert_eq!(map[2].offset_start, pdf.offset_start);
}

#[test]
fn nested_multiparts_count_toward_the_depth() {
    let raw = "From: Ann <ann@example.com>\r\n\
Subject: Nested\r\n\
MIME-Version: 1.0\r\n\
Content-Type: multipart/mixed; boundary=\"OUT\"\r\n\
\r\n\
--OUT\r\n\
Content-Type: multipart/alternative; boundary=\"IN\"\r\n\
\r\n\
--IN\r\n\
Content-Type: text/plain\r\n\
\r\n\
Plain text.\r\n\
--IN\r\n\
Content-Type: text/html\r\n\
\r\n\
<p>HTML text.</p>\r\n\
--IN--\r\n\
--OUT\r\n\
Content-Type: application/octet-stream\r\n\
Content-Disposition: attachment; filename=\"a.bin\"\r\n\
\r\n\
data\r\n\
--OUT--\r\n"
        .as_bytes()
        .to_vec();
    let s = MailAnalyzer::analyze_mail(&raw).unwrap();
    assert_eq!(s.structure_depth, 3);
    assert_eq!(s.parts[1].content_type, "multipart/alternative");
    let root = &s.parts[0];
    assert_eq!(root.children.len(), 2);
    assert_eq!(root.children[0].content_type, "multipart/alternative");
    let alt: Vec<&str> = root.children[0].children.iter().map(|c| c.content_type.as_str()).collect();
    assert_eq!(alt, vec!["text/plain", "text/html"]);
    assert_eq!(root.children[1].filename.as_deref(), Some("a.bin"));
    assert_eq!(s.parts[1].children.len(), 2);
    assert_eq!(MailAnalyzer::calculate_max_depth(&s.parts), 3);
    let map = s.get_reconstruction_map();
    let starts: Vec<usize> = map.iter().map(|m| m.offset_start).collect();
    let flat: Vec<usize> = s.parts.iter().map(|p| p.offset_start).collect();
    assert_eq!(starts, flat);
    let flat = "From: Bo <bo@example.com>\r\nSubject: Flat\r\n\r\nJust text.\r\n".as_bytes().to_vec();
    assert_eq!(MailAnalyzer::analyze_mail(&flat).unwrap().structure_depth, 1);
}

#[test]
fn part_past_the_end_cannot_be_extracted() {
    let p = part(1, 10, false, false, 5);
    assert!(matches!(MailAnalyzer.extract_part_data(&p, b"short"), Err(MailCrushError::InvalidStructure(_))));
}

#[test]
fn nested_parts_are_flattened_depth_first() {
    let mut root = part(0, 0, false, false, 0);
    let mut child = part(1, 1, false, false, 1);
    child.children.push(part(2, 2, true, false, 2));
    root.children.push(child);
    root.children.push(part(3, 3, false, false, 3));
    let flat = MailAnalyzer::flatten_parts(&root);
    let starts: Vec<usize> = flat.iter().map(|p| p.offset_start).collect();
    assert_eq!(starts, vec![0, 1, 2, 3]);
    let tree = vec![root];
    assert_eq!(MailAnalyzer::calculate_max_depth(&tree), 3);
    assert_eq!(MailAnalyzer::calculate_max_depth(&Vec::new()), 0);
}

#[test]
fn json_summary_lists_parts() {
    let s = summary(vec![part(3, 4, true, true, 7)], 20);
    let json = json_summary(&s);
    assert!(json.starts_with("{\n  \"subject\": \"s\",\n"));
    assert!(json.contains("      \"filename\": \"f.txt\",\n"));
    assert!(json.contains("      \"is_attachment\": true,\n"));
    assert!(json.contains("      \"offset_end\": 11\n    }\n  ]\n}\n"));
    let two = summary(vec![part(1, 1, false, false, 0), part(1, 1, false, false, 1)], 2);
    let json2 = json_summary(&two);
    assert_eq!(json2.matches("    },\n").count(), 1);
    assert!(json2.contains("      \"filename\": null,\n"));
}

#[test]
fn extraction_selects_parts() {
    let s = summary(vec![part(1, 1, false, false, 0), part(2, 2, true, false, 1), part(3, 3, true, true, 3)], 10);
    assert_eq!(parts_to_extract(&s, None, false).unwrap(), vec![2, 3]);
    assert_eq!(parts_to_extract(&s, None, true).unwrap(), vec![1, 2, 3]);
    assert_eq!(parts_to_extract(&s, Some(2), false).unwrap(), vec![2]);
    match parts_to_extract(&s, Some(4), false) {
        Err(MailCrushError::InvalidStructure(m)) => assert_eq!(m, "Part index 4 is out of range (1-3)"),
        _ => panic!("expected an out-of-range error"),
    }
    assert!(parts_to_extract(&s, Some(0), true).is_err());
    assert_eq!(extract_file_name(&s.parts[0], 1), "part_1.txt");
    assert_eq!(extract_file_name(&s.parts[1], 2), "f.txt");
}

#[test]
fn file_statistics() {
    let s = summary(vec![part(10, 14, true, true, 100), part(5, 5, false, false, 200), part(8, 6, false, true, 300)], 1000);
    let st = file_stats(&s);
    assert_eq!(st.total_size, 1000);
    assert_eq!(st.header_size, 100);
    assert_eq!(st.attachment_size, 14);
    assert_eq!(st.base64_overhead, 4);
    assert_eq!(st.potential_size, 996);
    let empty = summary(Vec::new(), 0);
    assert_eq!(file_stats(&empty).header_size, 0);
}

#[test]
fn aggregate_statistics() {
    let a = summary(vec![part(10, 14, true, true, 100)], 1000);
    let b = summary(vec![part(5, 5, false, false, 200), part(1, 3, false, true, 3)], 500);
    let mut agg = AggregateStats::new();
    assert!(agg.averages().is_none());
    assert!(agg.can_add(&a));
    agg.add(&a);
    agg.add(&b);
    agg.record_failure();
    assert_eq!(agg.total_files, 2);
    assert_eq!(agg.failed_files, 1);
    assert_eq!(agg.total_size, 1500);
    assert_eq!(agg.total_parts, 3);
    assert_eq!(agg.total_attachments, 1);
    assert_eq!(agg.total_base64_parts, 2);
    assert_eq!(agg.total_base64_overhead, 6);
    assert_eq!(agg.total_attachment_size, 14);
    assert_eq!(agg.potential_size(), 1494);
    let avg = agg.averages().unwrap();
    assert_eq!((avg.size, avg.parts, avg.attachments), (750, 1, 0));
    let mut full = AggregateStats::new();
    full.total_size = usize::MAX;
    assert!(!full.can_add(&a));
}

#[test]
fn structure_text_lists_parts_and_subparts() {
    let mut root = part(10, 14, false, true, 100);
    root.children.push(part(1, 2, true, false, 120));
    let s = summary(vec![root], 500);
    assert!(offsets_ordered(&s.parts));
    assert!(depth_within(&s.parts, 2));
    assert!(!depth_within(&s.parts, 1));
    let text = part_tree_text(&s);
    let expected = [
        "Part 1: text/plain\n",
        "   \u{1f4cf} Size: 10 bytes (encoded: 14 bytes)\n",
        "   \u{1f527} Encoding: Base64\n",
        "   \u{1f4cd} Offsets: 100..114 (length: 14)\n",
        "   \u{1f4be} Base64 overhead: 4 bytes\n",
        "  \u{2514}\u{2500} Subpart 1: text/plain\n",
        "     \u{1f4ce} Attachment: f.txt\n",
        "     \u{1f4cf} Size: 1 bytes (encoded: 2 bytes)\n",
        "     \u{1f527} Encoding: Base64\n",
        "     \u{1f4cd} Offsets: 120..122 (length: 2)\n",
    ]
    .concat();
    assert_eq!(text, expected);
    let mut backwards = part(1, 1, false, false, 10);
    backwards.offset_end = 5;
    assert!(!offsets_ordered(&vec![backwards]));
}

#[test]
fn reconstruction_info_lists_offset_ranges() {
    let s = summary(vec![part(1, 4, false, false, 10), part(1, 6, false, false, 20)], 100);
    let text = reconstruction_info_text(&s);
    assert_eq!(
        text,
        "\n\u{1f527} RECONSTRUCTION INFO:\n  Total parts with offsets: 2\n  Offset ranges:\n    Part 1: 10..14 (4 bytes)\n    Part 2: 20..26 (6 bytes)\n"
    );
    assert!(raw_offsets_ordered(&s));
}

#[test]
fn aggregate_adds_analyses_and_counts_failures() {
    let a = summary(vec![part(10, 14, true, true, 100)], 1000);
    let b = summary(vec![part(5, 5, false, false, 200), part(1, 3, false, true, 3)], 500);
    let results = vec![Ok(a), Err(MailCrushError::EmptyMail), Ok(b)];
    let agg = aggregate(&results).unwrap();
    assert_eq!(agg.total_files, 2);
    assert_eq!(agg.failed_files, 1);
    assert_eq!(agg.total_size, 1500);
    assert_eq!(agg.total_parts, 3);
    assert_eq!(agg.total_base64_overhead, 6);
    let none: Vec<Result<MailSummary, MailCrushError>> = Vec::new();
    assert_eq!(aggregate(&none).unwrap().total_files, 0);
    let mut big = summary(vec![], usize::MAX);
    big.total_size = usize::MAX;
    let overflow = vec![Ok(big), Ok(summary(vec![], 1))];
    assert!(aggregate(&overflow).is_none());
}
