//! MailCrush: lossless, content-aware compression of email messages.
//!
//! The library deconstructs an email into its MIME parts, decodes Base64 and
//! quoted-printable bodies, compresses each body with an algorithm suited to its
//! content type, and verifies that every part can be reconstructed.

pub mod text;
pub mod algorithm;
pub mod codec;
pub mod error;
pub mod base64_lines;
pub mod quoted_printable;
pub mod compression;
pub mod mime;
pub mod report;
pub mod pipeline;
pub mod utils;
pub mod extractor;
pub mod analyzer;
pub mod archive;
pub mod reader;
pub mod stats;
pub mod preview;
pub mod presentation;
