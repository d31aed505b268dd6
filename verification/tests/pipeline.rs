use mailcrush::algorithm::{CompressionAlgorithm, EmailCompressor};
use mailcrush::archive::check_verified;
use mailcrush::error::MailCrushError;
use mailcrush::mime::TransferEncoding;

fn sample_mail() -> Vec<u8> {
    let text = "From: Alice <alice@example.com>\r\n\
To: Bob <bob@example.com>\r\n\
Subject: Test message\r\n\
Date: Mon, 1 Jan 2024 10:00:00 +0000\r\n\
MIME-Version: 1.0\r\n\
Content-Type: multipart/mixed; boundary=\"XYZ\"\r\n\
\r\n\
--XYZ\r\n\
Content-Type: text/plain; charset=utf-8\r\n\
Content-Transfer-Encoding: 7bit\r\n\
\r\n\
Hello Bob, this is a test message with some text that repeats. Repeated text repeated text repeated text repeated text.\r\n\
--XYZ\r\n\
Content-Type: application/octet-stream; name=\"data.bin\"\r\n\
Content-Disposition: attachment; filename=\"data.bin\"\r\n\
Content-Transfer-Encoding: base64\r\n\
\r\n\
SGVsbG8sIFdvcmxkIQ==\r\n\
--XYZ--\r\n";
    text.as_bytes().to_vec()
}

#[test]
fn empty_mail_is_rejected_by_the_compressor() {
    let c = EmailCompressor::new(6);
    assert!(matches!(c.compress_email(&[]), Err(MailCrushError::EmptyMail)));
    assert!(matches!(c.get_compressed_parts(&[]), Err(MailCrushError::EmptyMail)));
}

#[test]
fn sample_mail_is_compressed_and_verified() {
    let raw = sample_mail();
    let c = EmailCompressor::new(6);
    let report = c.compress_email(&raw).unwrap();
    assert_eq!(report.subject, "Test message");
    assert_eq!(report.original_size, raw.len());
    assert_eq!(report.original_email_hash, EmailCompressor::hash_data(&raw));
    assert!(report.full_reconstruction_verified);
    assert_eq!(report.reconstructed_email_hash.len(), 64);
    assert_eq!(report.reconstructed_email_hash, report.original_email_hash);
    assert!(report.errors.is_empty());
    for (i, r) in report.part_reports.iter().enumerate() {
        assert_eq!(r.part_index, i);
        assert!(r.reconstruction_verified && r.error_message.is_none());
    }
    assert_eq!(report.verified_count(), report.part_reports.len());
    assert_eq!(report.failed_count(), 0);
    assert_eq!(report.verified_count() + report.failed_count(), report.part_reports.len());
    assert!(report.part_reports.len() >= 3);
    let b64: Vec<_> = report.part_reports.iter().filter(|r| r.was_base64_decoded).collect();
    assert_eq!(b64.len(), 1);
    assert_eq!(b64[0].decoded_size, 13);
    assert_eq!(b64[0].filename.as_deref(), Some("data.bin"));
}

#[test]
fn compressed_parts_reconstruct_their_bodies() {
    let raw = sample_mail();
    let c = EmailCompressor::new(6);
    let parts = c.get_compressed_parts(&raw).unwrap();
    assert!(parts.len() >= 3);
    for (i, part) in parts.iter().enumerate() {
        assert_eq!(part.part_index, i);
        let rebuilt = c.reconstruct_part(part).unwrap();
        assert_eq!(rebuilt, part.original_raw);
    }
    let b64 = parts.iter().find(|p| p.original_encoding == TransferEncoding::Base64).unwrap();
    assert!(b64.was_base64_decoded);
    assert!(b64.base64_meta.is_some());
    assert_eq!(c.decompress(&b64.data, b64.algorithm).unwrap(), b"Hello, World!".to_vec());
    assert_eq!(b64.original_hash, EmailCompressor::hash_data(b"Hello, World!"));
}

#[test]
fn text_part_uses_zstd_at_high_level_and_lz4_at_low_level() {
    let raw = sample_mail();
    let high = EmailCompressor::new(6).get_compressed_parts(&raw).unwrap();
    let low = EmailCompressor::new(2).get_compressed_parts(&raw).unwrap();
    let pos = high.iter().position(|p| p.content_type.starts_with("text/")).unwrap();
    assert_eq!(high[pos].algorithm, CompressionAlgorithm::Zstd);
    assert_eq!(low[pos].algorithm, CompressionAlgorithm::Lz4);
}

#[test]
fn error_messages_name_their_kind() {
    assert_eq!(MailCrushError::EmptyMail.message(), "Empty mail file");
    assert_eq!(MailCrushError::ParseError("x".to_string()).message(), "Mail parsing error: x");
    assert_eq!(MailCrushError::InvalidStructure("y".to_string()).message(), "Invalid mail structure: y");
    assert_eq!(MailCrushError::ConfigError("z".to_string()).message(), "Configuration error: z");
    let io = std::io::Error::new(std::io::ErrorKind::NotFound, "gone");
    let e: MailCrushError = io.into();
    assert!(e.message().starts_with("I/O error: "));
}

#[test]
fn failed_part_keeps_its_own_report() {
    let text = "From: Alice <alice@example.com>\r\n\
Subject: Broken\r\n\
MIME-Version: 1.0\r\n\
Content-Type: multipart/mixed; boundary=\"XYZ\"\r\n\
\r\n\
--XYZ\r\n\
Content-Type: application/octet-stream\r\n\
Content-Transfer-Encoding: base64\r\n\
\r\n\
SGVsbG8sIFdvcmxkIQ\r\n\
--XYZ\r\n\
Content-Type: text/plain\r\n\
\r\n\
A body that is fine.\r\n\
--XYZ--\r\n";
    let raw = text.as_bytes().to_vec();
    let c = EmailCompressor::new(6);
    let report = c.compress_email(&raw).unwrap();
    assert_eq!(report.part_reports.len(), 3);
    let failed = &report.part_reports[1];
    assert_eq!(failed.part_index, 1);
    assert!(!failed.reconstruction_verified);
    assert!(failed.error_message.is_some());
    assert!(failed.original_hash.is_empty());
    let fine = &report.part_reports[2];
    assert_eq!(fine.part_index, 2);
    assert!(fine.reconstruction_verified);
    assert!(fine.error_message.is_none());
    assert!(report.part_reports[0].reconstruction_verified);
    assert_eq!(report.errors.len(), 1);
    assert!(report.errors[0].starts_with("Part 2: "));
    assert!(!report.full_reconstruction_verified);
    assert!(matches!(
        check_verified(&report),
        Err(MailCrushError::ConfigError(m)) if m == "Reconstruction verification failed - compression aborted"
    ));
    let good = c.compress_email(&sample_mail()).unwrap();
    assert!(check_verified(&good).is_ok());
}
