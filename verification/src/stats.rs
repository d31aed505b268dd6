//! Compression statistics over analyzed messages.

use vstd::prelude::*;

use crate::analyzer::{encoded_views, spec_encoded_list, spec_tree_roots, MailPartSummary, MailSummary};
use crate::error::MailCrushError;

verus! {

/// What Base64 decoding would save on a part: its encoded size beyond its
/// decoded size, or nothing.
pub open spec fn spec_part_overhead(p: MailPartSummary) -> int {
    if p.is_base64 && p.encoded_size >= p.size {
        p.encoded_size - p.size
    } else {
        0
    }
}

/// The total overhead of the first `n` parts.
pub open spec fn spec_overhead_total(parts: Seq<MailPartSummary>, n: int) -> int
    decreases n,
{
    if n <= 0 {
        0
    } else {
        spec_overhead_total(parts, n - 1) + spec_part_overhead(parts[n - 1])
    }
}

/// The encoded size of a part if it is an attachment, else nothing.
pub open spec fn spec_part_attachment_size(p: MailPartSummary) -> int {
    if p.is_attachment {
        p.encoded_size as int
    } else {
        0
    }
}

/// The total encoded size of the attachments among the first `n` parts.
pub open spec fn spec_attachment_total(parts: Seq<MailPartSummary>, n: int) -> int
    decreases n,
{
    if n <= 0 {
        0
    } else {
        spec_attachment_total(parts, n - 1) + spec_part_attachment_size(parts[n - 1])
    }
}

/// `a - b`, or zero when `b` is larger.
pub open spec fn saturating_diff(a: int, b: int) -> int {
    if a >= b {
        a - b
    } else {
        0
    }
}

proof fn lemma_totals_monotone(parts: Seq<MailPartSummary>, i: int, n: int)
    requires
        0 <= i <= n <= parts.len(),
    ensures
        0 <= spec_overhead_total(parts, i) <= spec_overhead_total(parts, n),
        0 <= spec_attachment_total(parts, i) <= spec_attachment_total(parts, n),
    decreases n - i,
{
    if i < n {
        lemma_totals_monotone(parts, i, n - 1);
    } else {
        lemma_totals_nonneg(parts, n);
    }
}

proof fn lemma_totals_nonneg(parts: Seq<MailPartSummary>, n: int)
    requires
        0 <= n <= parts.len(),
    ensures
        0 <= spec_overhead_total(parts, n),
        0 <= spec_attachment_total(parts, n),
    decreases n,
{
    if n > 0 {
        lemma_totals_nonneg(parts, n - 1);
    }
}

/// The total Base64 overhead of a list of parts.
pub fn overhead_total(parts: &Vec<MailPartSummary>) -> (res: usize)
    requires
        spec_overhead_total(parts@, parts@.len() as int) <= usize::MAX,
    ensures
        res == spec_overhead_total(parts@, parts@.len() as int),
{
    let mut total: usize = 0;
    let mut i: usize = 0;
    while i < parts.len()
        invariant
            0 <= i <= parts@.len(),
            spec_overhead_total(parts@, parts@.len() as int) <= usize::MAX,
            total == spec_overhead_total(parts@, i as int),
        decreases parts.len() - i,
    {
        proof {
            lemma_totals_monotone(parts@, i + 1, parts@.len() as int);
        }
        let p = &parts[i];
        if p.is_base64 {
            total = total + p.encoded_size.saturating_sub(p.size);
        }
        i = i + 1;
    }
    total
}

/// The total encoded size of the attachments in a list of parts.
pub fn attachment_total(parts: &Vec<MailPartSummary>) -> (res: usize)
    requires
        spec_attachment_total(parts@, parts@.len() as int) <= usize::MAX,
    ensures
        res == spec_attachment_total(parts@, parts@.len() as int),
{
    let mut total: usize = 0;
    let mut i: usize = 0;
    while i < parts.len()
        invariant
            0 <= i <= parts@.len(),
            spec_attachment_total(parts@, parts@.len() as int) <= usize::MAX,
            total == spec_attachment_total(parts@, i as int),
        decreases parts.len() - i,
    {
        proof {
            lemma_totals_monotone(parts@, i + 1, parts@.len() as int);
        }
        let p = &parts[i];
        if p.is_attachment {
            total = total + p.encoded_size;
        }
        i = i + 1;
    }
    total
}

/// Whether both totals of a list of parts fit in a `usize`.
pub fn totals_fit(parts: &Vec<MailPartSummary>) -> (res: bool)
    ensures
        res == (spec_overhead_total(parts@, parts@.len() as int) <= usize::MAX
            && spec_attachment_total(parts@, parts@.len() as int) <= usize::MAX),
{
    let mut overhead: u128 = 0;
    let mut attachments: u128 = 0;
    let mut i: usize = 0;
    while i < parts.len()
        invariant
            0 <= i <= parts@.len(),
            overhead == spec_overhead_total(parts@, i as int),
            attachments == spec_attachment_total(parts@, i as int),
            overhead <= usize::MAX,
            attachments <= usize::MAX,
        decreases parts.len() - i,
    {
        let p = &parts[i];
        if p.is_base64 {
            overhead = overhead + p.encoded_size.saturating_sub(p.size) as u128;
        }
        if p.is_attachment {
            attachments = attachments + p.encoded_size as u128;
        }
        if overhead > usize::MAX as u128 || attachments > usize::MAX as u128 {
            proof {
                lemma_totals_monotone(parts@, i + 1, parts@.len() as int);
            }
            return false;
        }
        i = i + 1;
    }
    true
}

/// The compression statistics of one message.
#[derive(Debug, Clone, Copy)]
pub struct FileStats {
    /// Size of the message.
    pub total_size: usize,
    /// Offset of the first part's body (the header size), or 0 without parts.
    pub header_size: usize,
    /// Encoded size of the attachments.
    pub attachment_size: usize,
    /// What Base64 decoding would save.
    pub base64_overhead: usize,
    /// Size of the message with the Base64 overhead removed.
    pub potential_size: usize,
}

/// The statistics of a message's top-level parts.
pub fn file_stats(summary: &MailSummary) -> (res: FileStats)
    requires
        spec_overhead_total(summary.parts@, summary.parts@.len() as int) <= usize::MAX,
        spec_attachment_total(summary.parts@, summary.parts@.len() as int) <= usize::MAX,
    ensures
        res.total_size == summary.total_size,
        res.header_size == (if summary.parts@.len() > 0 { summary.parts@[0].offset_start } else { 0 }),
        res.attachment_size == spec_attachment_total(summary.parts@, summary.parts@.len() as int),
        res.base64_overhead == spec_overhead_total(summary.parts@, summary.parts@.len() as int),
        res.potential_size == saturating_diff(summary.total_size as int, res.base64_overhead as int),
{
    let base64_overhead = overhead_total(&summary.parts);
    let attachment_size = attachment_total(&summary.parts);
    let header_size = if summary.parts.len() > 0 { summary.parts[0].offset_start } else { 0 };
    FileStats {
        total_size: summary.total_size,
        header_size,
        attachment_size,
        base64_overhead,
        potential_size: summary.total_size.saturating_sub(base64_overhead),
    }
}

/// Statistics accumulated over many messages.
#[derive(Debug, Clone, Copy)]
pub struct AggregateStats {
    /// Messages analyzed.
    pub total_files: usize,
    /// Messages that could not be analyzed.
    pub failed_files: usize,
    /// Total size of the analyzed messages.
    pub total_size: usize,
    /// Total number of top-level parts.
    pub total_parts: usize,
    /// Total number of attachments.
    pub total_attachments: usize,
    /// Total number of encoded parts.
    pub total_base64_parts: usize,
    /// Total Base64 overhead.
    pub total_base64_overhead: usize,
    /// Total encoded size of the attachments.
    pub total_attachment_size: usize,
}

/// Averages per message: size, parts and attachments.
#[derive(Debug, Clone, Copy)]
pub struct Averages {
    pub size: usize,
    pub parts: usize,
    pub attachments: usize,
}

/// Adding a message's figures to the totals stays within `usize`.
pub open spec fn spec_can_add(st: AggregateStats, s: MailSummary) -> bool {
    let parts = s.parts@;
    &&& st.total_files + 1 <= usize::MAX
    &&& st.total_size + s.total_size <= usize::MAX
    &&& st.total_parts + parts.len() <= usize::MAX
    &&& st.total_attachments + s.attachment_count <= usize::MAX
    &&& st.total_base64_parts + s.base64_count <= usize::MAX
    &&& st.total_base64_overhead + spec_overhead_total(parts, parts.len() as int) <= usize::MAX
    &&& st.total_attachment_size + spec_attachment_total(parts, parts.len() as int) <= usize::MAX
}

impl AggregateStats {
    /// Empty totals.
    pub fn new() -> (res: Self)
        ensures
            res.total_files == 0 && res.failed_files == 0 && res.total_size == 0 && res.total_parts == 0,
            res.total_attachments == 0 && res.total_base64_parts == 0,
            res.total_base64_overhead == 0 && res.total_attachment_size == 0,
    {
        AggregateStats {
            total_files: 0,
            failed_files: 0,
            total_size: 0,
            total_parts: 0,
            total_attachments: 0,
            total_base64_parts: 0,
            total_base64_overhead: 0,
            total_attachment_size: 0,
        }
    }

    /// Whether adding a message's figures to the totals stays within `usize`.
    pub fn can_add(&self, s: &MailSummary) -> (res: bool)
        ensures
            res == spec_can_add(*self, *s),
    {
        if !totals_fit(&s.parts) {
            return false;
        }
        let overhead = overhead_total(&s.parts);
        let attachments = attachment_total(&s.parts);
        self.total_files < usize::MAX && s.total_size <= usize::MAX - self.total_size && s.parts.len() <= usize::MAX
            - self.total_parts && s.attachment_count <= usize::MAX - self.total_attachments && s.base64_count
            <= usize::MAX - self.total_base64_parts && overhead <= usize::MAX - self.total_base64_overhead
            && attachments <= usize::MAX - self.total_attachment_size
    }

    /// Adds the figures of an analyzed message.
    pub fn add(&mut self, s: &MailSummary)
        requires
            spec_can_add(*old(self), *s),
        ensures
            final(self).total_files == old(self).total_files + 1,
            final(self).failed_files == old(self).failed_files,
            final(self).total_size == old(self).total_size + s.total_size,
            final(self).total_parts == old(self).total_parts + s.parts@.len(),
            final(self).total_attachments == old(self).total_attachments + s.attachment_count,
            final(self).total_base64_parts == old(self).total_base64_parts + s.base64_count,
            final(self).total_base64_overhead == old(self).total_base64_overhead + spec_overhead_total(
                s.parts@,
                s.parts@.len() as int,
            ),
            final(self).total_attachment_size == old(self).total_attachment_size + spec_attachment_total(
                s.parts@,
                s.parts@.len() as int,
            ),
    {
        proof {
            lemma_totals_nonneg(s.parts@, s.parts@.len() as int);
        }
        let overhead = overhead_total(&s.parts);
        let attachments = attachment_total(&s.parts);
        self.total_files = self.total_files + 1;
        self.total_size = self.total_size + s.total_size;
        self.total_parts = self.total_parts + s.parts.len();
        self.total_attachments = self.total_attachments + s.attachment_count;
        self.total_base64_parts = self.total_base64_parts + s.base64_count;
        self.total_base64_overhead = self.total_base64_overhead + overhead;
        self.total_attachment_size = self.total_attachment_size + attachments;
    }

    /// Counts a message that could not be analyzed.
    pub fn record_failure(&mut self)
        requires
            old(self).failed_files < usize::MAX,
        ensures
            *final(self) == (AggregateStats { failed_files: (old(self).failed_files + 1) as usize, ..*old(self) }),
    {
        self.failed_files = self.failed_files + 1;
    }

    /// The total size with the Base64 overhead removed.
    pub fn potential_size(&self) -> (res: usize)
        ensures
            res == saturating_diff(self.total_size as int, self.total_base64_overhead as int),
    {
        self.total_size.saturating_sub(self.total_base64_overhead)
    }

    /// The averages per analyzed message, if any was analyzed.
    pub fn averages(&self) -> (res: Option<Averages>)
        ensures
            self.total_files == 0 <==> res is None,
            res matches Some(a) ==> a.size == self.total_size / self.total_files && a.parts == self.total_parts
                / self.total_files && a.attachments == self.total_attachments / self.total_files,
    {
        if self.total_files == 0 {
            None
        } else {
            Some(
                Averages {
                    size: self.total_size / self.total_files,
                    parts: self.total_parts / self.total_files,
                    attachments: self.total_attachments / self.total_files,
                },
            )
        }
    }
}


/// The total encoded and decoded sizes of the first `n` encoded parts.
pub open spec fn spec_encoded_totals(v: Seq<(Seq<char>, usize, usize)>, n: int) -> (int, int)
    decreases n,
{
    if n <= 0 {
        (0, 0)
    } else {
        let (e, d) = spec_encoded_totals(v, n - 1);
        (e + v[n - 1].1, d + v[n - 1].2)
    }
}

proof fn lemma_encoded_totals_monotone(v: Seq<(Seq<char>, usize, usize)>, i: int, n: int)
    requires
        0 <= i <= n <= v.len(),
    ensures
        0 <= spec_encoded_totals(v, i).0 <= spec_encoded_totals(v, n).0,
        0 <= spec_encoded_totals(v, i).1 <= spec_encoded_totals(v, n).1,
    decreases n,
{
    if n > 0 {
        if i < n {
            lemma_encoded_totals_monotone(v, i, n - 1);
        } else {
            lemma_encoded_totals_monotone(v, n - 1, n - 1);
        }
    }
}

/// What decoding the Base64 and quoted-printable parts of a message would save.
#[derive(Debug, Clone, Copy)]
pub struct EncodingPotential {
    /// Number of encoded parts, descendants included.
    pub count: usize,
    /// Their total encoded size.
    pub total_encoded: usize,
    /// Their total decoded size.
    pub total_original: usize,
    /// Encoded size beyond decoded size, or nothing.
    pub overhead: usize,
    /// The message's size with that overhead removed, or nothing.
    pub potential_size: usize,
}

/// The encoded parts of a message, descendants included, by their views.
pub open spec fn spec_encoded_views(summary: MailSummary) -> Seq<(Seq<char>, usize, usize)> {
    encoded_views(spec_encoded_list(spec_tree_roots(summary.parts@)))
}

/// Whether the total sizes of a message's encoded parts fit in a `usize`.
pub fn encoded_totals_fit(summary: &MailSummary) -> (res: bool)
    ensures
        res == (spec_encoded_totals(spec_encoded_views(*summary), spec_encoded_views(*summary).len() as int).0
            <= usize::MAX && spec_encoded_totals(spec_encoded_views(*summary), spec_encoded_views(*summary).len() as int).1
            <= usize::MAX),
{
    let parts = summary.encoded_parts();
    let ghost v = encoded_views(parts@);
    let mut e: u128 = 0;
    let mut d: u128 = 0;
    let mut i: usize = 0;
    while i < parts.len()
        invariant
            0 <= i <= parts@.len(),
            v == encoded_views(parts@),
            v == spec_encoded_views(*summary),
            (e as int, d as int) == spec_encoded_totals(v, i as int),
            e <= usize::MAX,
            d <= usize::MAX,
        decreases parts.len() - i,
    {
        e = e + parts[i].encoded_size as u128;
        d = d + parts[i].size as u128;
        if e > usize::MAX as u128 || d > usize::MAX as u128 {
            proof {
                lemma_encoded_totals_monotone(v, i + 1, v.len() as int);
            }
            return false;
        }
        i = i + 1;
    }
    true
}

/// What decoding the encoded parts of a message would save.
pub fn encoding_potential(summary: &MailSummary) -> (res: EncodingPotential)
    requires
        spec_encoded_totals(spec_encoded_views(*summary), spec_encoded_views(*summary).len() as int).0 <= usize::MAX,
        spec_encoded_totals(spec_encoded_views(*summary), spec_encoded_views(*summary).len() as int).1 <= usize::MAX,
    ensures
        res.count == spec_encoded_views(*summary).len(),
        res.total_encoded == spec_encoded_totals(spec_encoded_views(*summary), spec_encoded_views(*summary).len() as int).0,
        res.total_original == spec_encoded_totals(spec_encoded_views(*summary), spec_encoded_views(*summary).len() as int).1,
        res.overhead == saturating_diff(res.total_encoded as int, res.total_original as int),
        res.potential_size == saturating_diff(summary.total_size as int, res.overhead as int),
{
    let parts = summary.encoded_parts();
    let ghost v = encoded_views(parts@);
    let mut e: usize = 0;
    let mut d: usize = 0;
    let mut i: usize = 0;
    while i < parts.len()
        invariant
            0 <= i <= parts@.len(),
            v == encoded_views(parts@),
            spec_encoded_totals(v, v.len() as int).0 <= usize::MAX,
            spec_encoded_totals(v, v.len() as int).1 <= usize::MAX,
            (e as int, d as int) == spec_encoded_totals(v, i as int),
        decreases parts.len() - i,
    {
        proof {
            lemma_encoded_totals_monotone(v, i + 1, v.len() as int);
        }
        e = e + parts[i].encoded_size;
        d = d + parts[i].size;
        i = i + 1;
    }
    let overhead = e.saturating_sub(d);
    EncodingPotential {
        count: parts.len(),
        total_encoded: e,
        total_original: d,
        overhead,
        potential_size: summary.total_size.saturating_sub(overhead),
    }
}

/// The totals with one more analyzed message added.
pub open spec fn spec_added(st: AggregateStats, s: MailSummary) -> AggregateStats {
    let parts = s.parts@;
    AggregateStats {
        total_files: (st.total_files + 1) as usize,
        failed_files: st.failed_files,
        total_size: (st.total_size + s.total_size) as usize,
        total_parts: (st.total_parts + parts.len()) as usize,
        total_attachments: (st.total_attachments + s.attachment_count) as usize,
        total_base64_parts: (st.total_base64_parts + s.base64_count) as usize,
        total_base64_overhead: (st.total_base64_overhead + spec_overhead_total(parts, parts.len() as int)) as usize,
        total_attachment_size: (st.total_attachment_size + spec_attachment_total(parts, parts.len() as int)) as usize,
    }
}

/// The totals over the first `n` results, each analysis added and each failure
/// counted, from empty totals; `None` once a total would overflow.
pub open spec fn spec_aggregate(results: Seq<Result<MailSummary, MailCrushError>>, n: int) -> Option<AggregateStats>
    decreases n,
{
    if n <= 0 {
        Some(
            AggregateStats {
                total_files: 0,
                failed_files: 0,
                total_size: 0,
                total_parts: 0,
                total_attachments: 0,
                total_base64_parts: 0,
                total_base64_overhead: 0,
                total_attachment_size: 0,
            },
        )
    } else {
        match spec_aggregate(results, n - 1) {
            None => None,
            Some(st) => match results[n - 1] {
                Ok(s) => if spec_can_add(st, s) {
                    Some(spec_added(st, s))
                } else {
                    None
                },
                Err(_) => if st.failed_files < usize::MAX {
                    Some(AggregateStats { failed_files: (st.failed_files + 1) as usize, ..st })
                } else {
                    None
                },
            },
        }
    }
}

/// The totals over the analyses of many messages, in order (see
/// [`spec_aggregate`]); `None` when a total would overflow.
pub fn aggregate(results: &Vec<Result<MailSummary, MailCrushError>>) -> (res: Option<AggregateStats>)
    ensures
        res == spec_aggregate(results@, results@.len() as int),
{
    let mut totals = AggregateStats::new();
    let mut i: usize = 0;
    while i < results.len()
        invariant
            0 <= i <= results@.len(),
            spec_aggregate(results@, i as int) == Some(totals),
        decreases results.len() - i,
    {
        match &results[i] {
            Ok(s) => {
                if !totals.can_add(s) {
                    proof {
                        lemma_aggregate_stays_none(results@, i as int + 1, results@.len() as int);
                    }
                    return None;
                }
                totals.add(s);
            },
            Err(_) => {
                if totals.failed_files == usize::MAX {
                    proof {
                        lemma_aggregate_stays_none(results@, i as int + 1, results@.len() as int);
                    }
                    return None;
                }
                totals.record_failure();
            },
        }
        i = i + 1;
    }
    Some(totals)
}

proof fn lemma_aggregate_stays_none(results: Seq<Result<MailSummary, MailCrushError>>, i: int, n: int)
    requires
        1 <= i <= n,
        spec_aggregate(results, i) is None,
    ensures
        spec_aggregate(results, n) is None,
    decreases n - i,
{
    if i < n {
        lemma_aggregate_stays_none(results, i + 1, n);
    }
}

} // verus!
