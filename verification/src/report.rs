//! Compression reports and compressed parts.

use vstd::prelude::*;

use crate::algorithm::CompressionAlgorithm;
use crate::base64_lines::Base64Meta;
use crate::mime::TransferEncoding;

verus! {

/// Report for a single part's compression.
#[derive(Debug, Clone)]
pub struct PartCompressionReport {
    /// Part index.
    pub part_index: usize,
    /// Content type of the part.
    pub content_type: String,
    /// Filename if attachment.
    pub filename: Option<String>,
    /// Original encoding (Base64, QuotedPrintable, None).
    pub original_encoding: String,
    /// Whether base64 decoding was applied.
    pub was_base64_decoded: bool,
    /// Compression algorithm used.
    pub algorithm: CompressionAlgorithm,
    /// Original size (encoded, as in raw email).
    pub original_encoded_size: usize,
    /// Size after decoding (before compression).
    pub decoded_size: usize,
    /// Size after compression.
    pub compressed_size: usize,
    /// Hash of original decoded content.
    pub original_hash: String,
    /// Hash of reconstructed content.
    pub reconstructed_hash: String,
    /// Whether reconstruction matched original.
    pub reconstruction_verified: bool,
    /// Error message if verification failed.
    pub error_message: Option<String>,
}

/// Complete compression report for an email.
#[derive(Debug)]
pub struct CompressionReport {
    /// Subject of the email.
    pub subject: String,
    /// Original total size.
    pub original_size: usize,
    /// Total compressed size.
    pub compressed_size: usize,
    /// Per-part reports.
    pub part_reports: Vec<PartCompressionReport>,
    /// Whether the full email was successfully reconstructed.
    pub full_reconstruction_verified: bool,
    /// Hash of original raw email.
    pub original_email_hash: String,
    /// Hash of reconstructed email.
    pub reconstructed_email_hash: String,
    /// Error messages for failed parts.
    pub errors: Vec<String>,
}

/// The number of reports whose reconstruction was verified.
pub open spec fn count_verified(reports: Seq<PartCompressionReport>) -> nat
    decreases reports.len(),
{
    if reports.len() == 0 {
        0
    } else {
        count_verified(reports.drop_last()) + if reports.last().reconstruction_verified {
            1nat
        } else {
            0nat
        }
    }
}

/// The number of reports whose reconstruction was not verified.
pub open spec fn count_failed(reports: Seq<PartCompressionReport>) -> nat
    decreases reports.len(),
{
    if reports.len() == 0 {
        0
    } else {
        count_failed(reports.drop_last()) + if reports.last().reconstruction_verified {
            0nat
        } else {
            1nat
        }
    }
}

/// Every part is either verified or failed.
pub proof fn lemma_verified_plus_failed(reports: Seq<PartCompressionReport>)
    ensures
        count_verified(reports) + count_failed(reports) == reports.len(),
    decreases reports.len(),
{
    if reports.len() > 0 {
        lemma_verified_plus_failed(reports.drop_last());
    }
}

proof fn lemma_count_bounds(reports: Seq<PartCompressionReport>)
    ensures
        count_verified(reports) <= reports.len(),
        count_failed(reports) <= reports.len(),
{
    lemma_verified_plus_failed(reports);
}

impl CompressionReport {
    /// Number of verified parts.
    pub fn verified_count(&self) -> (res: usize)
        ensures
            res == count_verified(self.part_reports@),
    {
        let mut n: usize = 0;
        let mut i: usize = 0;
        while i < self.part_reports.len()
            invariant
                0 <= i <= self.part_reports@.len(),
                n == count_verified(self.part_reports@.take(i as int)),
            decreases self.part_reports.len() - i,
        {
            proof {
                assert(self.part_reports@.take(i + 1).drop_last() =~= self.part_reports@.take(i as int));
                lemma_count_bounds(self.part_reports@.take(i as int));
            }
            if self.part_reports[i].reconstruction_verified {
                n = n + 1;
            }
            i = i + 1;
        }
        assert(self.part_reports@.take(i as int) =~= self.part_reports@);
        n
    }

    /// Number of parts that failed verification.
    pub fn failed_count(&self) -> (res: usize)
        ensures
            res == count_failed(self.part_reports@),
    {
        let mut n: usize = 0;
        let mut i: usize = 0;
        while i < self.part_reports.len()
            invariant
                0 <= i <= self.part_reports@.len(),
                n == count_failed(self.part_reports@.take(i as int)),
            decreases self.part_reports.len() - i,
        {
            proof {
                assert(self.part_reports@.take(i + 1).drop_last() =~= self.part_reports@.take(i as int));
                lemma_count_bounds(self.part_reports@.take(i as int));
            }
            if !self.part_reports[i].reconstruction_verified {
                n = n + 1;
            }
            i = i + 1;
        }
        assert(self.part_reports@.take(i as int) =~= self.part_reports@);
        n
    }
}

/// Compressed part data, as stored.
#[derive(Debug, Clone)]
pub struct CompressedPart {
    /// Part index.
    pub part_index: usize,
    /// Original content type.
    pub content_type: String,
    /// Original encoding.
    pub original_encoding: TransferEncoding,
    /// Was base64 decoded.
    pub was_base64_decoded: bool,
    /// Compression algorithm used.
    pub algorithm: CompressionAlgorithm,
    /// Compressed data.
    pub data: Vec<u8>,
    /// Original decoded data hash for verification.
    pub original_hash: String,
    /// Original raw bytes (for reconstruction verification).
    pub original_raw: Vec<u8>,
    /// Base64 metadata for byte-identical reconstruction.
    pub base64_meta: Option<Base64Meta>,
}

} // verus!
