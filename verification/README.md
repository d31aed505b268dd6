# MailCrush

Lossless, content-aware compression of email messages, written in Verus.

A message is parsed into its MIME parts; Base64 and quoted-printable bodies are
decoded, each body is compressed with an algorithm chosen from its content type
(LZ4, Zstandard, gzip, or none), and every part is checked to come back from its
compressed form. An archive stores the message with its bodies cut out (the
structure) and one record per body.

## Layout

- `src/` — the verified library.
  - `algorithm.rs`: algorithm selection and the compressor's level.
  - `codec.rs`: the calls into the encoding, compression and hashing crates.
  - `base64_lines.rs`, `quoted_printable.rs`: transfer encodings, with the
    line layout of Base64 bodies kept for byte-identical re-encoding.
  - `compression.rs`: compression, decompression, hashing.
  - `mime.rs`: the parsed form of a message.
  - `pipeline.rs`, `report.rs`: processing, reconstruction and verification of
    parts, and the compression report.
  - `archive.rs`, `reader.rs`: writing archives, reading them back, and putting
    a message together from its structure and bodies.
  - `analyzer.rs`, `stats.rs`: structure analysis and statistics.
  - `extractor.rs`, `preview.rs`, `presentation.rs`: the text shown for a message.
  - `text.rs`, `error.rs`, `utils.rs`: strings, errors, batch counters.
- `tests/` — tests of the library.
- `app/` — the command-line program: arguments, files, printing.
