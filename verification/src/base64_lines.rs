//! Base64 bodies with their line layout.
//!
//! A Base64 body in an email is split into lines, each possibly followed by
//! trailing whitespace and a CRLF or LF ending. Decoding records that layout in a
//! [`Base64Meta`] so that re-encoding can reproduce the body byte for byte.

use vstd::prelude::*;

use crate::codec::{
    base64_decode, base64_encode, base64_error_text, is_base64_symbol, lemma_base64_injective, lemma_base64_symbols,
    spec_base64_decode,
    spec_base64_encode,
};
use crate::algorithm::EmailCompressor;
use crate::error::MailCrushError;
use crate::text::{concat, extend_bytes};

verus! {

/// Line structure of a Base64 body, kept for byte-identical reconstruction.
#[derive(Debug, Clone)]
pub struct Base64Meta {
    /// Length of each line (excluding line ending).
    pub line_lengths: Vec<usize>,
    /// Line ending used for each line (true = CRLF, false = LF).
    pub line_endings: Vec<bool>,
    /// Whether there's a trailing line ending after the last line.
    pub has_trailing_newline: bool,
    /// Trailing whitespace on each line (after base64 chars, before line ending).
    pub trailing_whitespace: Vec<Vec<u8>>,
}

/// The mathematical content of a [`Base64Meta`].
#[verifier::ext_equal]
pub struct MetaView {
    pub line_lengths: Seq<usize>,
    pub line_endings: Seq<bool>,
    pub has_trailing_newline: bool,
    pub trailing_whitespace: Seq<Seq<u8>>,
}

/// The contents of a list of byte vectors.
pub open spec fn byte_lists(v: Seq<Vec<u8>>) -> Seq<Seq<u8>> {
    v.map_values(|w: Vec<u8>| w@)
}

impl View for Base64Meta {
    type V = MetaView;

    open spec fn view(&self) -> MetaView {
        MetaView {
            line_lengths: self.line_lengths@,
            line_endings: self.line_endings@,
            has_trailing_newline: self.has_trailing_newline,
            trailing_whitespace: byte_lists(self.trailing_whitespace@),
        }
    }
}

impl Default for Base64Meta {
    fn default() -> (res: Self)
        ensures
            res@.line_lengths.len() == 0,
            res@.line_endings.len() == 0,
            res@.trailing_whitespace.len() == 0,
            !res@.has_trailing_newline,
    {
        Base64Meta {
            line_lengths: Vec::new(),
            line_endings: Vec::new(),
            has_trailing_newline: false,
            trailing_whitespace: Vec::new(),
        }
    }
}

pub open spec fn is_space_or_tab(b: u8) -> bool {
    b == 0x20 || b == 0x09
}

/// A line ending starts at `i`: LF, or CR immediately followed by LF.
pub open spec fn line_break_at(data: Seq<u8>, i: int) -> bool {
    data[i] == 0x0a || (data[i] == 0x0d && i + 1 < data.len() && data[i + 1] == 0x0a)
}

/// Every space or tab is followed by more whitespace, a line ending or the end
/// of the data: whitespace occurs only at the end of a line.
pub open spec fn no_embedded_whitespace(data: Seq<u8>) -> bool {
    forall|i: int|
        0 <= i < data.len() - 1 && is_space_or_tab(#[trigger] data[i]) ==> is_space_or_tab(
            data[i + 1],
        ) || line_break_at(data, i + 1)
}

/// The state of the line scanner: the Base64 symbols kept so far, the lines
/// completed so far, and the length and trailing whitespace of the current line.
#[verifier::ext_equal]
pub struct ScanState {
    pub cleaned: Seq<u8>,
    pub lens: Seq<usize>,
    pub ends: Seq<bool>,
    pub wss: Seq<Seq<u8>>,
    pub cur_len: usize,
    pub cur_ws: Seq<u8>,
}

pub open spec fn scan_init() -> ScanState {
    ScanState {
        cleaned: Seq::empty(),
        lens: Seq::empty(),
        ends: Seq::empty(),
        wss: Seq::empty(),
        cur_len: 0,
        cur_ws: Seq::empty(),
    }
}

/// Ends the current line with the given ending kind (true = CRLF).
pub open spec fn end_line(st: ScanState, crlf: bool) -> ScanState {
    ScanState {
        lens: st.lens.push(st.cur_len),
        ends: st.ends.push(crlf),
        wss: st.wss.push(st.cur_ws),
        cur_len: 0,
        cur_ws: Seq::empty(),
        ..st
    }
}

/// One step of the scanner at position `i`: the next position and state.
pub open spec fn scan_step(data: Seq<u8>, i: int, st: ScanState) -> (int, ScanState) {
    let b = data[i];
    if b == 0x0d && i + 1 < data.len() && data[i + 1] == 0x0a {
        (i + 2, end_line(st, true))
    } else if b == 0x0a {
        (i + 1, end_line(st, false))
    } else if is_space_or_tab(b) {
        (i + 1, ScanState { cur_ws: st.cur_ws.push(b), ..st })
    } else {
        let base = if st.cur_ws.len() > 0 {
            (st.cur_len + st.cur_ws.len()) as usize
        } else {
            st.cur_len
        };
        (
            i + 1,
            ScanState {
                cleaned: st.cleaned.push(b),
                cur_len: (base + 1) as usize,
                cur_ws: Seq::empty(),
                ..st
            },
        )
    }
}

/// The scanner run from position `i` in state `st` to the end of the data.
pub open spec fn scan_run(data: Seq<u8>, i: int, st: ScanState) -> ScanState
    decreases data.len() - i,
{
    if i < 0 || i >= data.len() {
        st
    } else {
        let (j, next) = scan_step(data, i, st);
        scan_run(data, j, next)
    }
}

/// The layout recorded once the data is exhausted.
pub open spec fn scan_finish(st: ScanState) -> MetaView {
    if st.cur_len > 0 || st.cur_ws.len() > 0 {
        MetaView {
            line_lengths: st.lens.push(st.cur_len),
            line_endings: st.ends.push(false),
            has_trailing_newline: false,
            trailing_whitespace: st.wss.push(st.cur_ws),
        }
    } else {
        MetaView {
            line_lengths: st.lens,
            line_endings: st.ends,
            has_trailing_newline: st.lens.len() > 0,
            trailing_whitespace: st.wss,
        }
    }
}

/// The Base64 symbols of a body: everything but line endings and whitespace.
pub open spec fn spec_base64_cleaned(data: Seq<u8>) -> Seq<u8> {
    scan_run(data, 0, scan_init()).cleaned
}

/// The line layout of a body.
pub open spec fn spec_base64_meta(data: Seq<u8>) -> MetaView {
    scan_finish(scan_run(data, 0, scan_init()))
}

/// The bytes `"\r\n"`.
pub open spec fn crlf() -> Seq<u8> {
    seq![0x0du8, 0x0au8]
}

/// The bytes `"\n"`.
pub open spec fn lf() -> Seq<u8> {
    seq![0x0au8]
}

/// Where the symbols of line `k` end when the line starts at symbol `pos`.
pub open spec fn line_symbols_end(m: MetaView, enc: Seq<u8>, k: int, pos: int) -> int {
    if pos + m.line_lengths[k] <= enc.len() {
        pos + m.line_lengths[k]
    } else {
        enc.len() as int
    }
}

/// The bytes of line `k` of a layout whose symbols start at position `pos` of
/// `enc`: its symbols, its trailing whitespace and its ending.
pub open spec fn emit_line(m: MetaView, enc: Seq<u8>, k: int, pos: int) -> Seq<u8> {
    let end = line_symbols_end(m, enc, k, pos);
    let chunk = if 0 <= pos < enc.len() {
        enc.subrange(pos, end)
    } else {
        Seq::empty()
    };
    let ws = if k < m.trailing_whitespace.len() {
        m.trailing_whitespace[k]
    } else {
        Seq::empty()
    };
    let is_last = k == m.line_lengths.len() - 1;
    let ending = if !is_last || m.has_trailing_newline {
        if k < m.line_endings.len() && m.line_endings[k] {
            crlf()
        } else {
            lf()
        }
    } else {
        Seq::empty()
    };
    chunk + ws + ending
}

/// Lines `k..` of a layout filled with the encoded symbols `enc` from position
/// `pos`, followed by whatever symbols remain.
pub open spec fn emit_lines(m: MetaView, enc: Seq<u8>, k: int, pos: int) -> Seq<u8>
    decreases m.line_lengths.len() - k,
{
    if k < 0 || k >= m.line_lengths.len() {
        if 0 <= pos < enc.len() {
            enc.subrange(pos, enc.len() as int)
        } else {
            Seq::empty()
        }
    } else {
        emit_line(m, enc, k, pos) + emit_lines(m, enc, k + 1, line_symbols_end(m, enc, k, pos))
    }
}

/// The Base64 encoding of `data` laid out along `m`.
pub open spec fn spec_encode_base64_with_meta(data: Seq<u8>, m: MetaView) -> Seq<u8> {
    emit_lines(m, spec_base64_encode(data), 0, 0)
}

/// The encoded symbols `enc` wrapped into lines of 76 symbols joined by CRLF.
pub open spec fn wrap76(enc: Seq<u8>) -> Seq<u8>
    decreases enc.len(),
{
    if enc.len() <= 76 {
        enc
    } else {
        enc.take(76) + crlf() + wrap76(enc.skip(76))
    }
}

/// The standard MIME Base64 encoding of `data`: 76 symbols per line, CRLF between lines.
pub open spec fn spec_encode_base64(data: Seq<u8>) -> Seq<u8> {
    wrap76(spec_base64_encode(data))
}


/// The three per-line lists of a scanner state have the same length.
pub open spec fn scan_consistent(st: ScanState) -> bool {
    st.lens.len() == st.ends.len() && st.lens.len() == st.wss.len()
}

/// The scanner only appends: lines and symbols already recorded stay.
proof fn lemma_scan_run_extends(data: Seq<u8>, i: int, st: ScanState)
    requires
        scan_consistent(st),
    ensures
        ({
            let r = scan_run(data, i, st);
            &&& scan_consistent(r)
            &&& r.lens.len() >= st.lens.len()
            &&& forall|j: int| 0 <= j < st.lens.len() ==> r.lens[j] == st.lens[j]
            &&& forall|j: int| 0 <= j < st.ends.len() ==> r.ends[j] == st.ends[j]
            &&& forall|j: int| 0 <= j < st.wss.len() ==> r.wss[j] == st.wss[j]
            &&& r.cleaned.len() >= st.cleaned.len()
            &&& forall|j: int| 0 <= j < st.cleaned.len() ==> r.cleaned[j] == st.cleaned[j]
        }),
    decreases data.len() - i,
{
    if 0 <= i < data.len() {
        let (j, next) = scan_step(data, i, st);
        lemma_scan_run_extends(data, j, next);
    }
}

/// Once the data is exhausted, every byte read has contributed to some line.
proof fn lemma_scan_finish_count(data: Seq<u8>, i: int, st: ScanState)
    requires
        scan_consistent(st),
        0 <= i <= data.len(),
        data.len() <= usize::MAX,
        st.cur_len + st.cur_ws.len() <= i,
    ensures
        scan_finish(scan_run(data, i, st)).line_lengths.len() >= st.lens.len() + (if i < data.len()
            || st.cur_len > 0 || st.cur_ws.len() > 0 {
            1int
        } else {
            0int
        }),
        scan_finish(scan_run(data, i, st)).line_lengths.len() >= scan_run(data, i, st).lens.len(),
    decreases data.len() - i,
{
    if i < data.len() {
        let (j, next) = scan_step(data, i, st);
        assert(scan_run(data, i, st) == scan_run(data, j, next));
        lemma_scan_finish_count(data, j, next);
    }
}

/// From any point of the scan, laying the final symbols out along the final
/// layout, starting at the current line, gives back the data from the start of
/// that line on.
proof fn lemma_emit_from_state(data: Seq<u8>, i: int, st: ScanState, ls: int, p0: int)
    requires
        0 <= i <= data.len(),
        data.len() <= usize::MAX,
        scan_consistent(st),
        no_embedded_whitespace(data),
        ls == i - st.cur_len - st.cur_ws.len(),
        0 <= ls,
        p0 == st.cleaned.len() - st.cur_len,
        0 <= p0,
        data.subrange(ls, ls + st.cur_len) == st.cleaned.subrange(p0, p0 + st.cur_len),
        data.subrange(ls + st.cur_len, i) == st.cur_ws,
        forall|k: int| 0 <= k < st.cur_ws.len() ==> is_space_or_tab(#[trigger] st.cur_ws[k]),
    ensures
        emit_lines(
            scan_finish(scan_run(data, i, st)),
            scan_run(data, i, st).cleaned,
            st.lens.len() as int,
            p0,
        ) == data.subrange(ls, data.len() as int),
    decreases data.len() - i,
{
    let r = scan_run(data, i, st);
    let m = scan_finish(r);
    let k = st.lens.len() as int;
    let a = st.cur_len as int;
    if i >= data.len() {
        assert(r == st);
        if st.cur_len > 0 || st.cur_ws.len() > 0 {
            assert(line_symbols_end(m, r.cleaned, k, p0) == r.cleaned.len());
            assert(emit_line(m, r.cleaned, k, p0) =~= st.cleaned.subrange(p0, p0 + a) + st.cur_ws);
            assert(emit_lines(m, r.cleaned, k + 1, r.cleaned.len() as int) =~= Seq::<u8>::empty());
            assert(data.subrange(ls, data.len() as int) =~= data.subrange(ls, ls + a) + data.subrange(ls + a, i));
        } else {
            assert(data.subrange(ls, data.len() as int) =~= Seq::<u8>::empty());
            assert(emit_lines(m, r.cleaned, k, p0) =~= Seq::<u8>::empty());
        }
    } else {
        let (j, next) = scan_step(data, i, st);
        assert(r == scan_run(data, j, next));
        let b = data[i];
        if line_break_at(data, i) {
            let crlf_here = b == 0x0d && i + 1 < data.len() && data[i + 1] == 0x0a;
            let ending = if crlf_here { crlf() } else { lf() };
            assert(j == i + ending.len());
            assert(data.subrange(i, j) =~= ending);
            assert(data.subrange(j, j) =~= next.cleaned.subrange(st.cleaned.len() as int, st.cleaned.len() as int));
            assert(data.subrange(j, j) =~= next.cur_ws);
            lemma_emit_from_state(data, j, next, j, st.cleaned.len() as int);
            lemma_scan_run_extends(data, j, next);
            lemma_scan_finish_count(data, j, next);
            assert(next.lens[k] == st.cur_len);
            assert(r.lens[k] == st.cur_len);
            assert(m.line_lengths[k] == st.cur_len);
            assert(m.line_endings[k] == crlf_here);
            assert(m.trailing_whitespace[k] == st.cur_ws);
            assert(r.cleaned.len() >= st.cleaned.len());
            assert(line_symbols_end(m, r.cleaned, k, p0) == st.cleaned.len());
            assert(r.cleaned.subrange(p0, p0 + a) =~= st.cleaned.subrange(p0, p0 + a));
            if j < data.len() {
                assert(m.line_lengths.len() > k + 1);
            } else {
                assert(r == next);
                assert(m.has_trailing_newline);
            }
            assert(emit_line(m, r.cleaned, k, p0) =~= st.cleaned.subrange(p0, p0 + a) + st.cur_ws + ending);
            assert(data.subrange(ls, data.len() as int) =~= data.subrange(ls, ls + a) + data.subrange(ls + a, i)
                + data.subrange(i, j) + data.subrange(j, data.len() as int));
        } else if is_space_or_tab(b) {
            assert(data.subrange(ls + a, j) =~= st.cur_ws.push(b));
            lemma_emit_from_state(data, j, next, ls, p0);
        } else {
            if st.cur_ws.len() > 0 {
                assert(data[i - 1] == st.cur_ws[st.cur_ws.len() - 1]);
                assert(is_space_or_tab(data[i - 1]));
                assert(false);
            }
            assert(next.cur_len == st.cur_len + 1);
            assert(data.subrange(ls, ls + a + 1) =~= next.cleaned.subrange(p0, p0 + a + 1));
            assert(data.subrange(ls + a + 1, j) =~= next.cur_ws);
            lemma_emit_from_state(data, j, next, ls, p0);
        }
    }
}

/// The layout recorded for a body has one ending and one run of trailing
/// whitespace per line.
pub proof fn lemma_meta_lists_agree(data: Seq<u8>)
    ensures
        spec_base64_meta(data).line_endings.len() == spec_base64_meta(data).line_lengths.len(),
        spec_base64_meta(data).trailing_whitespace.len() == spec_base64_meta(data).line_lengths.len(),
{
    lemma_scan_run_extends(data, 0, scan_init());
}

/// Byte-identical reconstruction: a Base64 body whose whitespace sits only at
/// line ends is reproduced exactly by re-encoding its decoded bytes along the
/// layout recorded while decoding.
pub proof fn lemma_base64_meta_roundtrip(data: Seq<u8>, decoded: Seq<u8>)
    requires
        spec_base64_encode(decoded) == spec_base64_cleaned(data),
        no_embedded_whitespace(data),
        data.len() <= usize::MAX,
    ensures
        spec_encode_base64_with_meta(decoded, spec_base64_meta(data)) == data,
{
    let init = scan_init();
    assert(data.subrange(0, 0) =~= init.cleaned.subrange(0, 0));
    assert(data.subrange(0, 0) =~= init.cur_ws);
    lemma_emit_from_state(data, 0, init, 0, 0);
    assert(data.subrange(0, data.len() as int) =~= data);
}

/// A byte that the scanner keeps as a symbol, at a position the scanner
/// reaches from `i` on, ends up among the kept symbols.
proof fn lemma_scan_keeps_symbol(data: Seq<u8>, i: int, st: ScanState, k: int)
    requires
        scan_consistent(st),
        0 <= i <= k < data.len(),
        !is_space_or_tab(data[k]),
        data[k] != 0x0a,
        !line_break_at(data, k),
    ensures
        scan_run(data, i, st).cleaned.contains(data[k]),
    decreases data.len() - i,
{
    let (j, next) = scan_step(data, i, st);
    assert(scan_run(data, i, st) == scan_run(data, j, next));
    if i == k {
        assert(next.cleaned == st.cleaned.push(data[k]));
        lemma_scan_run_extends(data, j, next);
        let r = scan_run(data, j, next);
        assert(r.cleaned[st.cleaned.len() as int] == data[k]);
    } else {
        assert(j <= k);
        lemma_scan_keeps_symbol(data, j, next, k);
    }
}

/// Every space or tab is followed by another space or tab, a carriage return,
/// a line feed, or the end of the data.
pub open spec fn ws_before_line_end(data: Seq<u8>) -> bool {
    forall|i: int|
        0 <= i < data.len() - 1 && is_space_or_tab(#[trigger] data[i]) ==> is_space_or_tab(data[i + 1])
            || data[i + 1] == 0x0d || data[i + 1] == 0x0a
}

/// Byte-identical re-encoding: a Base64 body that decodes, and in which
/// whitespace is followed only by whitespace or line-ending bytes, is
/// reproduced exactly by encoding its decoded bytes along the layout recorded
/// while decoding it.
pub proof fn lemma_base64_layout_roundtrip(data: Seq<u8>, decoded: Seq<u8>)
    requires
        spec_base64_decode(spec_base64_cleaned(data)) == Some(decoded),
        ws_before_line_end(data),
        data.len() <= usize::MAX,
    ensures
        spec_encode_base64_with_meta(decoded, spec_base64_meta(data)) == data,
{
    let cleaned = spec_base64_cleaned(data);
    assert(spec_base64_encode(decoded) == cleaned);
    lemma_base64_symbols(decoded);
    assert forall|i: int| 0 <= i < data.len() - 1 && is_space_or_tab(#[trigger] data[i]) implies is_space_or_tab(
        data[i + 1],
    ) || line_break_at(data, i + 1) by {
        if !is_space_or_tab(data[i + 1]) && !line_break_at(data, i + 1) {
            assert(data[i + 1] == 0x0d);
            lemma_scan_keeps_symbol(data, 0, scan_init(), i + 1);
            let idx = choose|idx: int| 0 <= idx < cleaned.len() && cleaned[idx] == data[i + 1];
            assert(is_base64_symbol(cleaned[idx]));
        }
    }
    lemma_base64_meta_roundtrip(data, decoded);
}

/// `data` with its line endings (CRLF, or a lone LF) removed.
pub open spec fn strip_line_breaks(data: Seq<u8>) -> Seq<u8>
    decreases data.len(),
{
    if data.len() == 0 {
        Seq::empty()
    } else if data[0] == 0x0d && data.len() > 1 && data[1] == 0x0a {
        strip_line_breaks(data.skip(2))
    } else if data[0] == 0x0a {
        strip_line_breaks(data.skip(1))
    } else {
        seq![data[0]] + strip_line_breaks(data.skip(1))
    }
}

/// Without spaces or tabs, the scanner keeps exactly the bytes that are not
/// line endings.
proof fn lemma_scan_cleaned_without_whitespace(data: Seq<u8>, i: int, st: ScanState)
    requires
        0 <= i <= data.len(),
        forall|k: int| i <= k < data.len() ==> !is_space_or_tab(#[trigger] data[k]),
    ensures
        scan_run(data, i, st).cleaned == st.cleaned + strip_line_breaks(data.skip(i)),
    decreases data.len() - i,
{
    if i == data.len() {
        assert(data.skip(i) =~= Seq::<u8>::empty());
        assert(st.cleaned + Seq::<u8>::empty() =~= st.cleaned);
    } else {
        let (j, next) = scan_step(data, i, st);
        assert(scan_run(data, i, st) == scan_run(data, j, next));
        lemma_scan_cleaned_without_whitespace(data, j, next);
        let rest = data.skip(i);
        assert(rest[0] == data[i]);
        if data[i] == 0x0d && i + 1 < data.len() && data[i + 1] == 0x0a {
            assert(rest.skip(2) =~= data.skip(j));
        } else if data[i] == 0x0a {
            assert(rest.skip(1) =~= data.skip(j));
        } else {
            assert(rest.skip(1) =~= data.skip(j));
            assert(next.cleaned + strip_line_breaks(data.skip(j)) =~= st.cleaned + (seq![data[i]]
                + strip_line_breaks(data.skip(j))));
        }
    }
}

/// Removing line endings skips over a prefix that has none.
proof fn lemma_strip_concat(x: Seq<u8>, y: Seq<u8>)
    requires
        forall|k: int| 0 <= k < x.len() ==> #[trigger] x[k] != 0x0d && x[k] != 0x0a,
    ensures
        strip_line_breaks(x + y) == x + strip_line_breaks(y),
    decreases x.len(),
{
    if x.len() == 0 {
        assert(x + y =~= y);
        assert(x + strip_line_breaks(y) =~= strip_line_breaks(y));
    } else {
        let xs = x.skip(1);
        assert((x + y).skip(1) =~= xs + y);
        assert((x + y)[0] == x[0]);
        lemma_strip_concat(xs, y);
        assert(x =~= seq![x[0]] + xs);
    }
}

/// Removing the line endings of MIME-wrapped symbols gives the symbols back.
proof fn lemma_strip_wrap76(enc: Seq<u8>)
    requires
        forall|k: int| 0 <= k < enc.len() ==> is_base64_symbol(#[trigger] enc[k]),
    ensures
        strip_line_breaks(wrap76(enc)) == enc,
    decreases enc.len(),
{
    if enc.len() <= 76 {
        assert(enc + Seq::<u8>::empty() =~= enc);
        lemma_strip_concat(enc, Seq::<u8>::empty());
        assert(strip_line_breaks(Seq::<u8>::empty()) =~= Seq::<u8>::empty());
    } else {
        let head = enc.take(76);
        let rest = enc.skip(76);
        assert forall|k: int| 0 <= k < rest.len() implies is_base64_symbol(#[trigger] rest[k]) by {
            assert(rest[k] == enc[k + 76]);
        }
        lemma_strip_wrap76(rest);
        assert forall|k: int| 0 <= k < head.len() implies #[trigger] head[k] != 0x0d && head[k] != 0x0a by {
            assert(head[k] == enc[k]);
            assert(is_base64_symbol(enc[k]));
        }
        assert(wrap76(enc) == head + crlf() + wrap76(rest));
        assert(head + crlf() + wrap76(rest) =~= head + (crlf() + wrap76(rest)));
        lemma_strip_concat(head, crlf() + wrap76(rest));
        let t = crlf() + wrap76(rest);
        assert(t.skip(2) =~= wrap76(rest));
        assert(head + rest =~= enc);
    }
}

/// MIME-wrapped Base64 reads back as the symbols it was made of: decoding what
/// `encode_base64` produces sees exactly the standard encoding again.
pub proof fn lemma_wrapped_symbols_clean(enc: Seq<u8>)
    requires
        forall|k: int| 0 <= k < enc.len() ==> is_base64_symbol(#[trigger] enc[k]),
    ensures
        spec_base64_cleaned(wrap76(enc)) == enc,
{
    let w = wrap76(enc);
    lemma_wrap76_no_whitespace(enc);
    lemma_scan_cleaned_without_whitespace(w, 0, scan_init());
    assert(w.skip(0) =~= w);
    lemma_strip_wrap76(enc);
    assert(Seq::<u8>::empty() + enc =~= enc);
}

/// MIME wrapping adds only CRLF pairs: no spaces or tabs.
proof fn lemma_wrap76_no_whitespace(enc: Seq<u8>)
    requires
        forall|k: int| 0 <= k < enc.len() ==> is_base64_symbol(#[trigger] enc[k]),
    ensures
        forall|k: int| 0 <= k < wrap76(enc).len() ==> !is_space_or_tab(#[trigger] wrap76(enc)[k]),
    decreases enc.len(),
{
    if enc.len() > 76 {
        let head = enc.take(76);
        let rest = enc.skip(76);
        assert forall|k: int| 0 <= k < rest.len() implies is_base64_symbol(#[trigger] rest[k]) by {
            assert(rest[k] == enc[k + 76]);
        }
        lemma_wrap76_no_whitespace(rest);
        let w = wrap76(enc);
        assert(w == head + crlf() + wrap76(rest));
        assert forall|k: int| 0 <= k < w.len() implies !is_space_or_tab(#[trigger] w[k]) by {
            if k < 76 {
                assert(w[k] == enc[k]);
                assert(is_base64_symbol(enc[k]));
            } else if k >= 78 {
                assert(w[k] == wrap76(rest)[k - 78]);
            }
        }
    } else {
        assert forall|k: int| 0 <= k < wrap76(enc).len() implies !is_space_or_tab(#[trigger] wrap76(enc)[k]) by {
            assert(is_base64_symbol(enc[k]));
        }
    }
}

/// The scanner state held by the executable variables.
pub open spec fn exec_state(
    cleaned: Seq<u8>,
    meta: MetaView,
    cur_len: usize,
    cur_ws: Seq<u8>,
) -> ScanState {
    ScanState {
        cleaned,
        lens: meta.line_lengths,
        ends: meta.line_endings,
        wss: meta.trailing_whitespace,
        cur_len,
        cur_ws,
    }
}

/// Appends line `i` of the layout, whose symbols start at `pos`; returns where
/// the line's symbols end.
#[verifier::spinoff_prover]
#[verifier::rlimit(40)]
fn append_line(result: &mut Vec<u8>, encoded: &Vec<u8>, meta: &Base64Meta, i: usize, pos: usize) -> (end: usize)
    requires
        i < meta.line_lengths.len(),
        pos <= encoded@.len(),
    ensures
        end as int == line_symbols_end(meta@, encoded@, i as int, pos as int),
        end <= encoded@.len(),
        final(result)@ == old(result)@ + emit_line(meta@, encoded@, i as int, pos as int),
{
    let ghost m = meta@;
    let ghost enc = encoded@;
    let ghost before = result@;
    let line_len = meta.line_lengths[i];
    let end = if line_len <= encoded.len() - pos {
        pos + line_len
    } else {
        encoded.len()
    };
    let ghost chunk: Seq<u8> = if pos < enc.len() { enc.subrange(pos as int, end as int) } else { Seq::empty() };
    if pos < encoded.len() {
        extend_bytes(result, &encoded.as_slice()[pos..end]);
    }
    assert(result@ =~= before + chunk);
    let ghost ws: Seq<u8> = if i < m.trailing_whitespace.len() { m.trailing_whitespace[i as int] } else { Seq::empty() };
    if i < meta.trailing_whitespace.len() {
        assert(m.trailing_whitespace[i as int] == meta.trailing_whitespace@[i as int]@);
        extend_bytes(result, meta.trailing_whitespace[i].as_slice());
    }
    assert(result@ =~= before + chunk + ws);
    let ghost after_ws = result@;
    let is_last_line = i == meta.line_lengths.len() - 1;
    if !is_last_line || meta.has_trailing_newline {
        if i < meta.line_endings.len() && meta.line_endings[i] {
            result.push(0x0d);
            result.push(0x0a);
            assert(result@ =~= after_ws + crlf());
        } else {
            result.push(0x0a);
            assert(result@ =~= after_ws + lf());
        }
    }
    assert(result@ =~= before + emit_line(m, enc, i as int, pos as int));
    end
}

impl EmailCompressor {
    /// Decodes a Base64 body and records its line layout.
    ///
    /// Line endings and spaces or tabs are set aside; the remaining bytes must
    /// form a canonical padded Base64 encoding.
    pub fn decode_base64_with_meta(data: &[u8]) -> (res: Result<(Vec<u8>, Base64Meta), MailCrushError>)
        ensures
            res matches Ok((decoded, meta)) ==> {
                &&& spec_base64_encode(decoded@) == spec_base64_cleaned(data@)
                &&& Some(decoded@) == spec_base64_decode(spec_base64_cleaned(data@))
                &&& meta@ == spec_base64_meta(data@)
            },
            res is Err <==> spec_base64_decode(spec_base64_cleaned(data@)) is None,
            res matches Err(e) ==> e is ParseError,
    {
        let mut meta = Base64Meta {
            line_lengths: Vec::new(),
            line_endings: Vec::new(),
            has_trailing_newline: false,
            trailing_whitespace: Vec::new(),
        };
        let mut cleaned: Vec<u8> = Vec::new();
        let mut current_line_len: usize = 0;
        let mut current_trailing_ws: Vec<u8> = Vec::new();
        let mut i: usize = 0;
        let ghost init = scan_init();
        assert(byte_lists(meta.trailing_whitespace@) =~= Seq::<Seq<u8>>::empty());
        assert(exec_state(cleaned@, meta@, current_line_len, current_trailing_ws@) =~= init);

        while i < data.len()
            invariant
                0 <= i <= data.len(),
                current_line_len + current_trailing_ws@.len() <= i,
                meta.line_lengths@.len() == meta.line_endings@.len(),
                meta.line_lengths@.len() == meta.trailing_whitespace@.len(),
                !meta.has_trailing_newline,
                scan_run(data@, i as int, exec_state(cleaned@, meta@, current_line_len, current_trailing_ws@))
                    == scan_run(data@, 0, init),
            decreases data.len() - i,
        {
            let ghost before = exec_state(cleaned@, meta@, current_line_len, current_trailing_ws@);
            let ghost i0 = i as int;
            let b = data[i];
            if b == 0x0d && i + 1 < data.len() && data[i + 1] == 0x0a {
                meta.line_lengths.push(current_line_len);
                meta.line_endings.push(true);
                let ghost ws_before = meta.trailing_whitespace@;
                meta.trailing_whitespace.push(current_trailing_ws);
                assert(byte_lists(meta.trailing_whitespace@) =~= byte_lists(ws_before).push(before.cur_ws));
                current_line_len = 0;
                current_trailing_ws = Vec::new();
                i = i + 2;
            } else if b == 0x0a {
                meta.line_lengths.push(current_line_len);
                meta.line_endings.push(false);
                let ghost ws_before = meta.trailing_whitespace@;
                meta.trailing_whitespace.push(current_trailing_ws);
                assert(byte_lists(meta.trailing_whitespace@) =~= byte_lists(ws_before).push(before.cur_ws));
                current_line_len = 0;
                current_trailing_ws = Vec::new();
                i = i + 1;
            } else if b == 0x20 || b == 0x09 {
                current_trailing_ws.push(b);
                i = i + 1;
            } else {
                if current_trailing_ws.len() > 0 {
                    current_line_len = current_line_len + current_trailing_ws.len();
                    current_trailing_ws = Vec::new();
                }
                cleaned.push(b);
                current_line_len = current_line_len + 1;
                i = i + 1;
            }
            assert(scan_step(data@, i0, before).1 =~= exec_state(cleaned@, meta@, current_line_len, current_trailing_ws@));
            assert(scan_step(data@, i0, before).0 == i as int);
        }
        let ghost last = exec_state(cleaned@, meta@, current_line_len, current_trailing_ws@);
        assert(scan_run(data@, i as int, last) == last);
        if current_line_len > 0 || current_trailing_ws.len() > 0 {
            meta.line_lengths.push(current_line_len);
            meta.line_endings.push(false);
            let ghost ws_before = meta.trailing_whitespace@;
            meta.trailing_whitespace.push(current_trailing_ws);
            assert(byte_lists(meta.trailing_whitespace@) =~= byte_lists(ws_before).push(last.cur_ws));
            meta.has_trailing_newline = false;
        } else if meta.line_lengths.len() > 0 {
            meta.has_trailing_newline = true;
        }
        assert(meta@ =~= scan_finish(last));
        match base64_decode(cleaned.as_slice()) {
            Ok(decoded) => {
                proof {
                    let y = choose|y: Seq<u8>| spec_base64_encode(y) == cleaned@;
                    lemma_base64_injective(y, decoded@);
                }
                Ok((decoded, meta))
            },
            Err(e) => {
                let text = base64_error_text(&e);
                Err(MailCrushError::ParseError(concat("Base64 decode failed: ", text.as_str())))
            },
        }
    }

    /// Decodes a Base64 body, ignoring its line layout.
    pub fn decode_base64(data: &[u8]) -> (res: Result<Vec<u8>, MailCrushError>)
        ensures
            res matches Ok(decoded) ==> spec_base64_encode(decoded@) == spec_base64_cleaned(data@),
            res matches Ok(decoded) ==> Some(decoded@) == spec_base64_decode(spec_base64_cleaned(data@)),
            res is Err <==> spec_base64_decode(spec_base64_cleaned(data@)) is None,
            res matches Err(e) ==> e is ParseError,
    {
        let (decoded, _) = Self::decode_base64_with_meta(data)?;
        Ok(decoded)
    }

    /// Encodes `data` in Base64 laid out along the recorded line structure.
    pub fn encode_base64_with_meta(data: &[u8], meta: &Base64Meta) -> (res: Vec<u8>)
        ensures
            res@ == spec_encode_base64_with_meta(data@, meta@),
    {
        let encoded = base64_encode(data);
        let n = meta.line_lengths.len();
        let mut result: Vec<u8> = Vec::new();
        let mut pos: usize = 0;
        let mut i: usize = 0;
        let ghost m = meta@;
        let ghost enc = encoded@;
        while i < n
            invariant
                n == m.line_lengths.len(),
                m == meta@,
                enc == encoded@,
                0 <= i <= n,
                0 <= pos <= encoded@.len(),
                result@ + emit_lines(m, enc, i as int, pos as int) == emit_lines(m, enc, 0, 0),
            decreases n - i,
        {
            let ghost before = result@;
            let end = append_line(&mut result, &encoded, meta, i, pos);
            assert(result@ + emit_lines(m, enc, i + 1, end as int) =~= before + emit_lines(m, enc, i as int, pos as int));
            pos = end;
            i = i + 1;
        }
        if pos < encoded.len() {
            extend_bytes(&mut result, &encoded.as_slice()[pos..encoded.len()]);
        }
        assert(result@ =~= emit_lines(m, enc, 0, 0));
        result
    }

    /// Encodes `data` in Base64 with the MIME layout: lines of 76 symbols
    /// separated by CRLF, no line ending after the last line.
    pub fn encode_base64(data: &[u8]) -> (res: Vec<u8>)
        ensures
            res@ == spec_encode_base64(data@),
            spec_base64_cleaned(res@) == spec_base64_encode(data@),
            spec_base64_decode(spec_base64_cleaned(res@)) == Some(data@),
    {
        let encoded = base64_encode(data);
        let mut result: Vec<u8> = Vec::new();
        let mut start: usize = 0;
        let ghost enc = encoded@;
        assert(enc.skip(0) =~= enc);
        assert(result@ + wrap76(enc) =~= wrap76(enc));
        while encoded.len() - start > 76
            invariant
                enc == encoded@,
                0 <= start <= encoded@.len(),
                result@ + wrap76(enc.skip(start as int)) == wrap76(enc),
            decreases encoded.len() - start,
        {
            let ghost before = result@;
            extend_bytes(&mut result, &encoded.as_slice()[start..start + 76]);
            result.push(0x0d);
            result.push(0x0a);
            assert(enc.skip(start as int).take(76) =~= enc.subrange(start as int, start + 76));
            assert(enc.skip(start as int).skip(76) =~= enc.skip(start + 76));
            assert(result@ + wrap76(enc.skip(start + 76)) =~= before + wrap76(enc.skip(start as int)));
            start = start + 76;
        }
        extend_bytes(&mut result, &encoded.as_slice()[start..encoded.len()]);
        assert(enc.skip(start as int) =~= enc.subrange(start as int, enc.len() as int));
        proof {
            lemma_base64_symbols(data@);
            lemma_wrapped_symbols_clean(enc);
            assert(spec_base64_encode(data@) == enc);
            let y = choose|y: Seq<u8>| spec_base64_encode(y) == enc;
            assert(spec_base64_encode(y) == enc);
            lemma_base64_injective(y, data@);
        }
        result
    }
}

} // verus!
