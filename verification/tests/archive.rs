use mailcrush::algorithm::{CompressionAlgorithm, EmailCompressor};
use mailcrush::archive::{
    algorithm_code, algorithm_from_code, archive_email, asc_order, encoding_code, encoding_from_code, push_u32_le,
    ranges_chained, read_u32_le, sort_bodies, split_structure, BodyRange,
};
use mailcrush::error::MailCrushError;
use mailcrush::mime::TransferEncoding;
use mailcrush::reader::{parse_stored_mail, placeholders_within, reassemble};

fn archive_sample() -> Vec<u8> {
    "From: Carol <carol@example.com>\r\n\
Subject: Archive me\r\n\
MIME-Version: 1.0\r\n\
Content-Type: multipart/mixed; boundary=\"B\"\r\n\
\r\n\
--B\r\n\
Content-Type: text/plain\r\n\
\r\n\
Plain body text that is long enough to be compressed by the selected algorithm, repeated, repeated, repeated.\r\n\
--B\r\n\
Content-Type: application/octet-stream\r\n\
Content-Disposition: attachment; filename=\"a.bin\"\r\n\
Content-Transfer-Encoding: base64\r\n\
\r\n\
AAECAwQFBgcICQ==\r\n\
--B--\r\n"
        .as_bytes()
        .to_vec()
}

fn mcr5_with(structure: &[u8], parts: &[(u32, u8, u8, u8, &[u8], &[u8])]) -> Vec<u8> {
    let compressed = zstd::encode_all(structure, 3).unwrap();
    let mut out = b"MCR5".to_vec();
    out.extend_from_slice(&123u32.to_le_bytes());
    out.extend_from_slice(&(parts.len() as u32).to_le_bytes());
    out.extend_from_slice(&(structure.len() as u32).to_le_bytes());
    out.extend_from_slice(&(compressed.len() as u32).to_le_bytes());
    out.extend_from_slice(&compressed);
    for (ph, algo, enc, b64, data, meta) in parts {
        out.extend_from_slice(&ph.to_le_bytes());
        out.push(*algo);
        out.push(*enc);
        out.push(*b64);
        out.extend_from_slice(&(data.len() as u32).to_le_bytes());
        out.extend_from_slice(&(data.len() as u32).to_le_bytes());
        out.extend_from_slice(data);
        let mut hash = [0u8; 64];
        hash[..3].copy_from_slice(b"abc");
        out.extend_from_slice(&hash);
        out.extend_from_slice(&(meta.len() as u32).to_le_bytes());
        out.extend_from_slice(meta);
    }
    out
}

fn mcr5(structure: &[u8], parts: &[(u32, u8, u8, u8, &[u8])]) -> Vec<u8> {
    let with: Vec<(u32, u8, u8, u8, &[u8], &[u8])> =
        parts.iter().map(|(ph, a, e, b, d)| (*ph, *a, *e, *b, *d, &b""[..])).collect();
    mcr5_with(structure, &with)
}

/// The records start after the 20-byte header and the compressed structure.
fn records_start(data: &[u8]) -> usize {
    20 + read_u32_le(data, 16) as usize
}

#[test]
fn u32_fields_are_little_endian() {
    let mut v = Vec::new();
    push_u32_le(&mut v, 0x0102_0304);
    assert_eq!(v, vec![4, 3, 2, 1]);
    assert_eq!(read_u32_le(&v, 0), 0x0102_0304);
}

#[test]
fn codes_roundtrip() {
    for a in [
        CompressionAlgorithm::NoCompression,
        CompressionAlgorithm::Lz4,
        CompressionAlgorithm::Zstd,
        CompressionAlgorithm::Gzip,
    ] {
        assert_eq!(algorithm_from_code(algorithm_code(a)), Some(a));
    }
    for e in [TransferEncoding::Identity, TransferEncoding::QuotedPrintable, TransferEncoding::Base64] {
        assert_eq!(encoding_from_code(encoding_code(e)), Some(e));
    }
    assert_eq!(algorithm_from_code(4), None);
    assert_eq!(encoding_from_code(3), None);
    assert_eq!(algorithm_code(CompressionAlgorithm::Zstd), 2);
    assert_eq!(encoding_code(TransferEncoding::Base64), 2);
}

#[test]
fn stable_order_keeps_equal_keys_in_place() {
    assert_eq!(asc_order(&vec![5, 1, 5, 0, 1]), vec![3, 1, 4, 0, 2]);
    assert_eq!(asc_order(&vec![]), Vec::<usize>::new());
}

#[test]
fn bodies_are_sorted_by_offset() {
    let v = vec![
        BodyRange { offset_body: 30, offset_end: 40, compressed_index: 0 },
        BodyRange { offset_body: 10, offset_end: 20, compressed_index: 1 },
    ];
    let sorted = sort_bodies(&v);
    assert_eq!(sorted[0].compressed_index, 1);
    assert_eq!(sorted[1].compressed_index, 0);
    assert!(ranges_chained(&sorted, 50));
    assert!(!ranges_chained(&v, 50));
    assert!(!ranges_chained(&sorted, 35));
}

#[test]
fn split_and_reassemble_give_the_message_back() {
    let raw = b"HEADER[body one]MIDDLE[body two]END".to_vec();
    let ranges = vec![
        BodyRange { offset_body: 7, offset_end: 15, compressed_index: 0 },
        BodyRange { offset_body: 23, offset_end: 31, compressed_index: 1 },
    ];
    let (structure, placeholders) = split_structure(&raw, &ranges);
    assert_eq!(structure, b"HEADER[]MIDDLE[]END".to_vec());
    assert_eq!(placeholders, vec![7, 15]);
    let data = mcr5(
        &structure,
        &[(placeholders[0] as u32, 0, 0, 0, b"body one"), (placeholders[1] as u32, 0, 0, 0, b"body two")],
    );
    let stored = parse_stored_mail(&data).unwrap();
    assert!(placeholders_within(&stored));
    assert_eq!(reassemble(&stored).unwrap(), raw);
}

#[test]
fn stored_parts_are_put_back_in_placeholder_order() {
    let data = mcr5(b"<><>", &[(3, 0, 0, 0, b"B"), (1, 0, 0, 0, b"A")]);
    let stored = parse_stored_mail(&data).unwrap();
    assert_eq!(stored.original_size, 123);
    assert_eq!(stored.parts.len(), 2);
    assert_eq!(stored.parts[0].hash, "abc");
    assert_eq!(reassemble(&stored).unwrap(), b"<A><B>".to_vec());
}

#[test]
fn base64_parts_are_encoded_again_on_reading() {
    let data = mcr5(b"x:;", &[(2, 0, 2, 1, b"Hello, World!")]);
    let stored = parse_stored_mail(&data).unwrap();
    assert!(stored.parts[0].was_base64_decoded);
    assert!(stored.parts[0].base64_meta.is_none());
    assert_eq!(stored.parts[0].original_encoding, TransferEncoding::Base64);
    assert_eq!(reassemble(&stored).unwrap(), b"x:SGVsbG8sIFdvcmxkIQ==;".to_vec());
}

#[test]
fn base64_parts_follow_their_recorded_layout() {
    // Two lines: 8 symbols with a trailing space and CRLF, then 12 symbols with LF, and a final line ending.
    let mut meta = Vec::new();
    meta.extend_from_slice(&2u32.to_le_bytes());
    meta.extend_from_slice(&8u16.to_le_bytes());
    meta.push(1);
    meta.push(1);
    meta.push(b' ');
    meta.extend_from_slice(&12u16.to_le_bytes());
    meta.push(0);
    meta.push(0);
    meta.push(1);
    let data = mcr5_with(b"x:;", &[(2, 0, 2, 1, b"Hello, World!", &meta)]);
    let stored = parse_stored_mail(&data).unwrap();
    let m = stored.parts[0].base64_meta.as_ref().unwrap();
    assert_eq!(m.line_lengths, vec![8, 12]);
    assert_eq!(m.line_endings, vec![true, false]);
    assert_eq!(m.trailing_whitespace, vec![b" ".to_vec(), Vec::new()]);
    assert!(m.has_trailing_newline);
    assert_eq!(reassemble(&stored).unwrap(), b"x:SGVsbG8s \r\nIFdvcmxkIQ==\n;".to_vec());
}

#[test]
fn quoted_printable_parts_are_encoded_again_on_reading() {
    let data = mcr5(b"[]", &[(1, 0, 1, 0, b"caf\xe9 = ok")]);
    let stored = parse_stored_mail(&data).unwrap();
    assert_eq!(stored.parts[0].original_encoding, TransferEncoding::QuotedPrintable);
    assert_eq!(reassemble(&stored).unwrap(), b"[caf=E9 =3D ok]".to_vec());
}

#[test]
fn compressed_stored_parts_are_decompressed() {
    let c = EmailCompressor::new(6);
    let compressed = c.compress(b"payload payload payload", CompressionAlgorithm::Zstd).unwrap();
    let data = mcr5(b"[]", &[(1, 2, 0, 0, &compressed)]);
    let stored = parse_stored_mail(&data).unwrap();
    assert_eq!(reassemble(&stored).unwrap(), b"[payload payload payload]".to_vec());
    let broken = mcr5(b"[]", &[(1, 1, 0, 0, b"zz")]);
    let stored = parse_stored_mail(&broken).unwrap();
    assert!(matches!(reassemble(&stored), Err(MailCrushError::ConfigError(_))));
}

#[test]
fn placeholder_past_the_structure_is_detected() {
    let data = mcr5(b"ab", &[(5, 0, 0, 0, b"x")]);
    let stored = parse_stored_mail(&data).unwrap();
    assert!(!placeholders_within(&stored));
}

fn parse_message(data: &[u8]) -> String {
    match parse_stored_mail(data) {
        Err(MailCrushError::ParseError(m)) => m,
        other => panic!("expected a parse error, got {:?}", other.map(|m| m.parts.len())),
    }
}

#[test]
fn malformed_archives_are_rejected() {
    assert_eq!(parse_message(b"MCR5"), "File too small to be a valid MCR file");
    assert_eq!(
        parse_message(b"XCR9\0\0\0\0\0\0\0\0\0\0\0\0\0\0\0\0"),
        "Invalid magic number: expected 'MCR3' or 'MCR5', got 'XCR9'"
    );
    assert_eq!(
        parse_message(b"MCR5\0\0\0\0\0\0\0\0\0\0\0\0\0\0"),
        "File too small to be a valid MCR file"
    );
    let mut truncated = b"MCR5".to_vec();
    truncated.extend_from_slice(&[0, 0, 0, 0, 0, 0, 0, 0, 0, 0, 0, 0, 9, 0, 0, 0]);
    assert_eq!(parse_message(&truncated), "File truncated: structure data extends beyond file");
    let mut garbage = b"MCR5".to_vec();
    garbage.extend_from_slice(&[0, 0, 0, 0, 0, 0, 0, 0, 0, 0, 0, 0, 3, 0, 0, 0]);
    garbage.extend_from_slice(b"abc");
    assert_eq!(parse_message(&garbage), "Failed to decompress structure");
    let mut mismatch = mcr5(b"ab", &[]);
    mismatch[12] = 5;
    assert_eq!(parse_message(&mismatch), "Structure size does not match the header");
    let mut no_header = mcr5(b"", &[]);
    no_header[8] = 1;
    assert_eq!(parse_message(&no_header), "File truncated: part header extends beyond file");
    let mut bad_algo = mcr5(b"", &[(0, 0, 0, 0, b"")]);
    let start = records_start(&bad_algo);
    bad_algo[start + 4] = 9;
    assert_eq!(parse_message(&bad_algo), "Unknown compression algorithm: 9");
    let mut bad_enc = mcr5(b"", &[(0, 0, 0, 0, b"")]);
    bad_enc[start + 5] = 7;
    assert_eq!(parse_message(&bad_enc), "Unknown encoding: 7");
    let good = mcr5(b"", &[(0, 0, 0, 0, b"abc")]);
    let n = good.len();
    assert_eq!(parse_message(&good[..n - 4 - 64 - 1]), "File truncated: compressed data extends beyond file");
    assert_eq!(parse_message(&good[..n - 4 - 1]), "File truncated: hash extends beyond file");
    assert_eq!(parse_message(&good[..n - 1]), "File truncated: layout size extends beyond file");
    let long_layout = mcr5_with(b"", &[(0, 0, 0, 0, b"abc", b"\x05\0\0\0\0")]);
    assert_eq!(parse_message(&long_layout[..long_layout.len() - 1]), "File truncated: layout extends beyond file");
    assert_eq!(parse_message(&long_layout), "Invalid Base64 layout");
}

#[test]
fn messages_are_archived_in_the_mcr5_layout() {
    let raw = archive_sample();
    let archive = archive_email(6, &raw).unwrap();
    let bytes = &archive.bytes;
    assert_eq!(&bytes[0..4], b"MCR5");
    assert_eq!(read_u32_le(bytes, 4) as usize, raw.len());
    let parts = read_u32_le(bytes, 8);
    assert_eq!(parts, 2);
    assert_eq!(read_u32_le(bytes, 12) as usize, archive.structure_len);
    assert_eq!(read_u32_le(bytes, 16) as usize, archive.compressed_structure_len);
    let structure = zstd::decode_all(&bytes[20..20 + archive.compressed_structure_len]).unwrap();
    assert_eq!(structure.len(), archive.structure_len);
    assert_eq!(archive.structure_len + archive.parts_original_size, raw.len());
    assert!(archive.parts_compressed_size > 0);
}

#[test]
fn archived_messages_are_read_back_byte_for_byte() {
    let raw = archive_sample();
    let archive = archive_email(6, &raw).unwrap();
    let stored = parse_stored_mail(&archive.bytes).unwrap();
    assert_eq!(stored.original_size, raw.len());
    assert_eq!(stored.structure.len(), archive.structure_len);
    assert!(placeholders_within(&stored));
    assert_eq!(reassemble(&stored).unwrap(), raw);
    for level in [1, 3, 9] {
        let archive = archive_email(level, &raw).unwrap();
        let stored = parse_stored_mail(&archive.bytes).unwrap();
        assert_eq!(reassemble(&stored).unwrap(), raw);
    }
}

#[test]
fn empty_message_cannot_be_archived() {
    assert!(matches!(archive_email(6, &[]), Err(MailCrushError::EmptyMail)));
}

fn mcr3(structure: &[u8], parts: &[(u32, u8, u8, u8, &[u8])]) -> Vec<u8> {
    let mut out = b"MCR3".to_vec();
    out.extend_from_slice(&5u32.to_le_bytes());
    out.extend_from_slice(&(parts.len() as u32).to_le_bytes());
    out.extend_from_slice(&(structure.len() as u32).to_le_bytes());
    out.extend_from_slice(structure);
    for (ph, algo, enc, b64, data) in parts {
        out.extend_from_slice(&ph.to_le_bytes());
        out.push(*algo);
        out.push(*enc);
        out.push(*b64);
        out.extend_from_slice(&(data.len() as u32).to_le_bytes());
        out.extend_from_slice(&(data.len() as u32).to_le_bytes());
        out.extend_from_slice(data);
        out.extend_from_slice(&[0u8; 64]);
    }
    out
}

#[test]
fn mcr3_archives_are_read_too() {
    let data = mcr3(b"AB", &[(1, 0, 0, 0, b"xyz")]);
    assert_eq!(data.len(), 100);
    let stored = parse_stored_mail(&data).unwrap();
    assert_eq!(stored.original_size, 5);
    assert_eq!(stored.structure, b"AB".to_vec());
    assert!(stored.parts[0].base64_meta.is_none());
    assert!(placeholders_within(&stored));
    assert_eq!(reassemble(&stored).unwrap(), b"AxyzB".to_vec());
    let b64 = mcr3(b"x:;", &[(2, 0, 2, 1, b"Hello, World!")]);
    assert_eq!(reassemble(&parse_stored_mail(&b64).unwrap()).unwrap(), b"x:SGVsbG8sIFdvcmxkIQ==;".to_vec());
    let qp = mcr3(b"[]", &[(1, 0, 1, 0, b"a=3Db")]);
    assert_eq!(reassemble(&parse_stored_mail(&qp).unwrap()).unwrap(), b"[a=3Db]".to_vec());
    let n = data.len();
    assert_eq!(parse_message(&data[..n - 1]), "File truncated: hash extends beyond file");
    assert_eq!(parse_message(&data[..n - 65]), "File truncated: compressed data extends beyond file");
    assert_eq!(parse_message(&data[..17]), "File truncated: structure data extends beyond file");
    assert_eq!(parse_message(&data[..18]), "File truncated: part header extends beyond file");
}
