use mailcrush::algorithm::{CompressionAlgorithm, EmailCompressor};
use mailcrush::base64_lines::Base64Meta;
use mailcrush::error::MailCrushError;

#[test]
fn test_base64_roundtrip() {
    let original = b"Hello, World! This is a test message.";
    let encoded = EmailCompressor::encode_base64(original);
    let decoded = EmailCompressor::decode_base64(&encoded).unwrap();
    assert_eq!(original.to_vec(), decoded);
}

#[test]
fn test_base64_byte_identical_roundtrip() {
    let test_cases = [
        b"SGVsbG8sIFdvcmxkIQ==\r\n".to_vec(),
        b"SGVsbG8sIFdvcmxkIQ==\n".to_vec(),
        b"SGVsbG8sIFdvcmxkIQ==".to_vec(),
        b"SGVsbG8s\r\nIFdvcmxkIQ==\r\n".to_vec(),
        b"SGVsbG8s\nIFdvcmxkIQ==\n".to_vec(),
        b"SGVsbG8sIFdvcmxkIQ== \r\n".to_vec(),
        b"VGhpcyBpcyBhIGxvbmdlciB0ZXN0IG1lc3NhZ2UgdGhhdCBzcGFucyBtdWx0aXBs\r\nZSBsaW5lcyBvZiBiYXNlNjQgZW5jb2RlZCBjb250ZW50Lg==\r\n".to_vec(),
    ];

    for (i, original_encoded) in test_cases.iter().enumerate() {
        let (decoded, meta) = EmailCompressor::decode_base64_with_meta(original_encoded).unwrap();
        let re_encoded = EmailCompressor::encode_base64_with_meta(&decoded, &meta);
        assert_eq!(
            original_encoded,
            &re_encoded,
            "Test case {} failed:\nOriginal: {:?}\nRe-encoded: {:?}",
            i,
            String::from_utf8_lossy(original_encoded),
            String::from_utf8_lossy(&re_encoded)
        );
    }
}

#[test]
fn test_compression_algorithms() {
    let compressor = EmailCompressor::new(5);
    let data = b"This is some test data that should compress well. Repeated text repeated text.";

    for algo in [
        CompressionAlgorithm::NoCompression,
        CompressionAlgorithm::Lz4,
        CompressionAlgorithm::Zstd,
        CompressionAlgorithm::Gzip,
    ] {
        let compressed = compressor.compress(data, algo).unwrap();
        let decompressed = compressor.decompress(&compressed, algo).unwrap();
        assert_eq!(data.to_vec(), decompressed, "Failed for {:?}", algo);
    }
}

#[test]
fn test_algorithm_selection() {
    let compressor_fast = EmailCompressor::new(3);
    assert_eq!(compressor_fast.select_algorithm("text/plain", &[0u8; 200]), CompressionAlgorithm::Lz4);

    let compressor_high = EmailCompressor::new(6);
    assert_eq!(compressor_high.select_algorithm("text/plain", &[0u8; 200]), CompressionAlgorithm::Zstd);

    assert_eq!(compressor_high.select_algorithm("image/jpeg", &[0u8; 200]), CompressionAlgorithm::NoCompression);

    assert_eq!(compressor_high.select_algorithm("text/plain", &[0u8; 50]), CompressionAlgorithm::NoCompression);

    assert_eq!(
        compressor_high.select_algorithm("multipart/mixed", &[0u8; 500]),
        CompressionAlgorithm::NoCompression
    );
}

#[test]
fn level_is_clamped_to_one_through_nine() {
    assert_eq!(EmailCompressor::new(0).compression_level(), 1);
    assert_eq!(EmailCompressor::new(5).compression_level(), 5);
    assert_eq!(EmailCompressor::new(200).compression_level(), 9);
}

#[test]
fn algorithm_names() {
    assert_eq!(CompressionAlgorithm::NoCompression.name(), "None");
    assert_eq!(CompressionAlgorithm::Lz4.name(), "LZ4");
    assert_eq!(CompressionAlgorithm::Zstd.name(), "Zstd");
    assert_eq!(CompressionAlgorithm::Gzip.name(), "Gzip");
}

#[test]
fn compressed_formats_are_stored_as_is() {
    let c = EmailCompressor::new(6);
    let data = vec![7u8; 1000];
    assert_eq!(c.select_algorithm("application/zip", &data), CompressionAlgorithm::NoCompression);
    assert_eq!(c.select_algorithm("image/png", &data), CompressionAlgorithm::NoCompression);
    assert_eq!(c.select_algorithm("application/pdf", &data), CompressionAlgorithm::Zstd);
}

#[test]
fn compression_actually_changes_data() {
    let c = EmailCompressor::new(6);
    let data = b"abcabcabcabcabcabcabcabcabcabcabcabcabcabcabcabcabcabcabcabcabcabcabcabc".to_vec();
    for algo in [CompressionAlgorithm::Lz4, CompressionAlgorithm::Zstd, CompressionAlgorithm::Gzip] {
        let compressed = c.compress(&data, algo).unwrap();
        assert_ne!(compressed, data, "{:?} returned its input", algo);
    }
    assert_eq!(c.compress(&data, CompressionAlgorithm::NoCompression).unwrap(), data);
}

#[test]
fn lz4_output_starts_with_input_length() {
    let c = EmailCompressor::new(6);
    let data = vec![1u8; 300];
    let compressed = c.compress(&data, CompressionAlgorithm::Lz4).unwrap();
    assert_eq!(&compressed[0..4], &300u32.to_le_bytes());
}

#[test]
fn corrupt_data_fails_to_decompress() {
    let c = EmailCompressor::new(6);
    let garbage = b"definitely not compressed".to_vec();
    assert!(matches!(c.decompress(&garbage, CompressionAlgorithm::Zstd), Err(MailCrushError::ConfigError(_))));
    assert!(matches!(c.decompress(&garbage, CompressionAlgorithm::Gzip), Err(MailCrushError::IoError(_))));
    assert!(matches!(c.decompress(&[5, 0, 0, 0], CompressionAlgorithm::Lz4), Err(MailCrushError::ConfigError(_))));
}

#[test]
fn hash_is_lowercase_hex_sha256() {
    assert_eq!(
        EmailCompressor::hash_data(b"abc"),
        "ba7816bf8f01cfea414140de5dae2223b00361a396177a9cb410ff61f20015ad"
    );
    assert_eq!(
        EmailCompressor::hash_data(b""),
        "e3b0c44298fc1c149afbf4c8996fb92427ae41e4649b934ca495991b7852b855"
    );
}

#[test]
fn invalid_base64_is_a_parse_error() {
    assert!(matches!(EmailCompressor::decode_base64(b"SGVsbG8*"), Err(MailCrushError::ParseError(_))));
    assert!(matches!(EmailCompressor::decode_base64_with_meta(b"abc"), Err(MailCrushError::ParseError(_))));
}

#[test]
fn base64_meta_records_line_layout() {
    let (decoded, meta) = EmailCompressor::decode_base64_with_meta(b"SGVsbG8s\r\nIFdvcmxkIQ== \n").unwrap();
    assert_eq!(decoded, b"Hello, World!".to_vec());
    assert_eq!(meta.line_lengths, vec![8, 12]);
    assert_eq!(meta.line_endings, vec![true, false]);
    assert_eq!(meta.trailing_whitespace, vec![Vec::<u8>::new(), b" ".to_vec()]);
    assert!(meta.has_trailing_newline);
}

#[test]
fn base64_encoding_wraps_at_76() {
    let data = vec![0u8; 100];
    let encoded = EmailCompressor::encode_base64(&data);
    let text = String::from_utf8(encoded).unwrap();
    let lines: Vec<&str> = text.split("\r\n").collect();
    assert_eq!(lines.len(), 2);
    assert_eq!(lines[0].len(), 76);
    assert_eq!(lines[1].len(), 136 - 76);
}

#[test]
fn default_meta_is_empty() {
    let meta = Base64Meta::default();
    assert!(meta.line_lengths.is_empty());
    assert!(!meta.has_trailing_newline);
    let encoded = EmailCompressor::encode_base64_with_meta(b"Hi", &meta);
    assert_eq!(encoded, b"SGk=".to_vec());
}

#[test]
fn quoted_printable_roundtrip() {
    let data = "Caf\u{e9} = na\u{ef}ve, a long line that keeps going and going well past the seventy-five character limit of the format\r\nnext line".as_bytes().to_vec();
    let encoded = EmailCompressor::encode_quoted_printable(&data);
    let decoded = EmailCompressor::decode_quoted_printable(&encoded).unwrap();
    assert_eq!(decoded, data);
}

#[test]
fn quoted_printable_decodes_escapes_and_soft_breaks() {
    let decoded = EmailCompressor::decode_quoted_printable(b"a=3Db=\r\nc").unwrap();
    assert_eq!(decoded, b"a=bc".to_vec());
}

#[test]
fn quoted_printable_encodes_equals_sign() {
    assert_eq!(EmailCompressor::encode_quoted_printable(b"a=b"), b"a=3Db".to_vec());
}

#[test]
fn quoted_printable_hex_pair_must_be_text() {
    match EmailCompressor::decode_quoted_printable(b"a=\xFF\xFEb") {
        Err(MailCrushError::ParseError(m)) => assert!(m.starts_with("Invalid QP encoding: ")),
        other => panic!("expected a parse error, got {:?}", other.map(|v| v.len())),
    }
    assert_eq!(EmailCompressor::decode_quoted_printable(b"=zz").unwrap(), b"=zz".to_vec());
}

#[test]
fn lowered_content_type_gives_the_same_choice() {
    let c = EmailCompressor::new(6);
    let data = vec![b'a'; 200];
    for ct in ["TEXT/Plain", "Application/JSON", "IMAGE/PNG", "application/PDF", "Multipart/Mixed"] {
        let lowered = ct.to_lowercase();
        assert_eq!(c.select_algorithm(&lowered, &data), c.select_algorithm(ct, &data), "{}", ct);
    }
    assert_eq!(c.select_algorithm("TEXT/PLAIN", &data), CompressionAlgorithm::Zstd);
}

#[test]
fn level_matters_only_for_textual_content() {
    let data = vec![b'a'; 200];
    let low = EmailCompressor::new(1);
    let high = EmailCompressor::new(9);
    for ct in ["application/pdf", "image/bmp", "video/mp4", "application/zip"] {
        assert_eq!(low.select_algorithm(ct, &data), high.select_algorithm(ct, &data), "{}", ct);
    }
    assert_eq!(low.select_algorithm("text/html", &data), CompressionAlgorithm::Lz4);
    assert_eq!(high.select_algorithm("text/html", &data), CompressionAlgorithm::Zstd);
}

#[test]
fn whitespace_before_line_endings_is_kept() {
    for body in [&b"SGVsbG8s \t\r\nIFdvcmxkIQ==\n"[..], &b"SGVsbG8sIFdvcmxkIQ== \r\n"[..], &b"SGVsbG8sIFdvcmxkIQ==\t"[..]] {
        let (decoded, meta) = EmailCompressor::decode_base64_with_meta(body).unwrap();
        assert_eq!(decoded, b"Hello, World!".to_vec());
        assert_eq!(EmailCompressor::encode_base64_with_meta(&decoded, &meta), body.to_vec());
    }
}

#[test]
fn hello_world_encodes_as_documented() {
    assert_eq!(EmailCompressor::encode_base64(b"Hello, World!"), b"SGVsbG8sIFdvcmxkIQ==".to_vec());
    assert_eq!(EmailCompressor::decode_base64(b"SGVsbG8sIFdvcmxkIQ==").unwrap(), b"Hello, World!".to_vec());
}
