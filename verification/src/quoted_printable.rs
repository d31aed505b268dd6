//! Quoted-printable bodies.

use vstd::prelude::*;

use crate::algorithm::EmailCompressor;
use crate::error::MailCrushError;
use crate::text::concat;

verus! {

/// The value of an ASCII hexadecimal digit (either case).
pub open spec fn hex_digit_value(c: u8) -> Option<u8> {
    if 0x30 <= c <= 0x39 {
        Some((c - 0x30) as u8)
    } else if 0x41 <= c <= 0x46 {
        Some((c - 0x41 + 10) as u8)
    } else if 0x61 <= c <= 0x66 {
        Some((c - 0x61 + 10) as u8)
    } else {
        None
    }
}

/// The two bytes form valid UTF-8: two ASCII bytes, or one two-byte sequence.
pub open spec fn pair_is_utf8(b1: u8, b2: u8) -> bool {
    (b1 < 0x80 && b2 < 0x80) || (0xc2 <= b1 <= 0xdf && 0x80 <= b2 <= 0xbf)
}

/// The two-character text read as a base-16 `u8`: an optional `+` sign followed
/// by hexadecimal digits.
pub open spec fn pair_hex_value(b1: u8, b2: u8) -> Option<u8> {
    if b1 == 0x2b {
        hex_digit_value(b2)
    } else {
        match (hex_digit_value(b1), hex_digit_value(b2)) {
            (Some(h), Some(l)) => Some((h * 16 + l) as u8),
            _ => None,
        }
    }
}

/// Prepends a byte to a decoding result.
pub open spec fn prepend(b: u8, r: Option<Seq<u8>>) -> Option<Seq<u8>> {
    match r {
        Some(s) => Some(seq![b] + s),
        None => None,
    }
}

/// The quoted-printable decoding of `data`: soft line breaks (`=` CRLF or `=` LF)
/// vanish, `=XX` gives the byte with hex value XX, and everything else is kept.
/// `None` when an `=` is followed by two bytes that are not valid UTF-8.
pub open spec fn spec_decode_qp(data: Seq<u8>) -> Option<Seq<u8>>
    decreases data.len(),
{
    if data.len() == 0 {
        Some(Seq::empty())
    } else if data[0] == 0x3d && 2 < data.len() {
        if data[1] == 0x0d && data[2] == 0x0a {
            spec_decode_qp(data.skip(3))
        } else if data[1] == 0x0a {
            spec_decode_qp(data.skip(2))
        } else if !pair_is_utf8(data[1], data[2]) {
            None
        } else {
            match pair_hex_value(data[1], data[2]) {
                Some(v) => prepend(v, spec_decode_qp(data.skip(3))),
                None => prepend(data[0], spec_decode_qp(data.skip(1))),
            }
        }
    } else {
        prepend(data[0], spec_decode_qp(data.skip(1)))
    }
}

/// Bytes that quoted-printable encoding leaves as they are.
pub open spec fn qp_literal(b: u8) -> bool {
    b == 0x09 || b == 0x20 || (33 <= b <= 126 && b != 0x3d) || b == 0x0d || b == 0x0a
}

/// An uppercase hexadecimal digit for a value below 16.
pub open spec fn upper_hex_digit(v: u8) -> u8 {
    if v < 10 {
        (0x30 + v) as u8
    } else {
        (0x41 + v - 10) as u8
    }
}

/// The encoding of one byte: itself, or `=` and two uppercase hex digits.
pub open spec fn qp_token(b: u8) -> Seq<u8> {
    if qp_literal(b) {
        seq![b]
    } else {
        seq![0x3du8, upper_hex_digit(b / 16), upper_hex_digit(b % 16)]
    }
}

/// The bytes `"=\r\n"` of a soft line break.
pub open spec fn soft_break() -> Seq<u8> {
    seq![0x3du8, 0x0du8, 0x0au8]
}

/// Whether a soft line break goes before the token of `b` on a line already
/// `line_len` long: the line would exceed 75 characters.
pub open spec fn needs_soft_break(b: u8, line_len: int) -> bool {
    line_len + qp_token(b).len() > 75 && b != 0x0d && b != 0x0a
}

/// The line length after emitting the token of `b`.
pub open spec fn next_line_len(b: u8, line_len: int) -> int {
    if b == 0x0a {
        0
    } else if needs_soft_break(b, line_len) {
        qp_token(b).len() as int
    } else {
        line_len + qp_token(b).len()
    }
}

/// The quoted-printable encoding of `data` from position `i`, on a line already
/// `line_len` long.
pub open spec fn spec_encode_qp_from(data: Seq<u8>, i: int, line_len: int) -> Seq<u8>
    decreases data.len() - i,
{
    if i < 0 || i >= data.len() {
        Seq::empty()
    } else {
        let b = data[i];
        let brk = if needs_soft_break(b, line_len) {
            soft_break()
        } else {
            Seq::empty()
        };
        brk + qp_token(b) + spec_encode_qp_from(data, i + 1, next_line_len(b, line_len))
    }
}

/// The quoted-printable encoding of `data`.
pub open spec fn spec_encode_qp(data: Seq<u8>) -> Seq<u8> {
    spec_encode_qp_from(data, 0, 0)
}

/// Decoding reads the token of a byte back as that byte.
proof fn lemma_decode_token(b: u8, rest: Seq<u8>)
    ensures
        spec_decode_qp(qp_token(b) + rest) == prepend(b, spec_decode_qp(rest)),
{
    let s = qp_token(b) + rest;
    if qp_literal(b) {
        assert(s[0] == b);
        assert(s.skip(1) =~= rest);
    } else {
        let h = upper_hex_digit(b / 16);
        let l = upper_hex_digit(b % 16);
        assert(s[0] == 0x3d && s[1] == h && s[2] == l);
        assert(hex_digit_value(h) == Some((b / 16) as u8));
        assert(hex_digit_value(l) == Some((b % 16) as u8));
        assert(pair_hex_value(h, l) == Some(b));
        assert(s.skip(3) =~= rest);
    }
}

/// Decoding the encoding from position `i` gives back the bytes from `i` on.
proof fn lemma_decode_encode_from(data: Seq<u8>, i: int, line_len: int)
    requires
        0 <= i <= data.len(),
    ensures
        spec_decode_qp(spec_encode_qp_from(data, i, line_len)) == Some(data.skip(i)),
    decreases data.len() - i,
{
    if i == data.len() {
        assert(data.skip(i) =~= Seq::<u8>::empty());
    } else {
        let b = data[i];
        let rest = spec_encode_qp_from(data, i + 1, next_line_len(b, line_len));
        lemma_decode_encode_from(data, i + 1, next_line_len(b, line_len));
        lemma_decode_token(b, rest);
        if needs_soft_break(b, line_len) {
            let t = qp_token(b) + rest;
            let s = soft_break() + qp_token(b) + rest;
            assert(s =~= soft_break() + t);
            assert(s[0] == 0x3d && s[1] == 0x0d && s[2] == 0x0a);
            assert(s.skip(3) =~= t);
        } else {
            assert(Seq::<u8>::empty() + qp_token(b) + rest =~= qp_token(b) + rest);
        }
        assert(seq![b] + data.skip(i + 1) =~= data.skip(i));
    }
}

/// Quoted-printable decoding undoes quoted-printable encoding.
pub proof fn lemma_qp_roundtrip(data: Seq<u8>)
    ensures
        spec_decode_qp(spec_encode_qp(data)) == Some(data),
{
    lemma_decode_encode_from(data, 0, 0);
    assert(data.skip(0) =~= data);
}

/// The value of a hexadecimal digit byte.
fn hex_digit(c: u8) -> (res: Option<u8>)
    ensures
        res == hex_digit_value(c),
{
    if 0x30 <= c && c <= 0x39 {
        Some(c - 0x30)
    } else if 0x41 <= c && c <= 0x46 {
        Some(c - 0x41 + 10)
    } else if 0x61 <= c && c <= 0x66 {
        Some(c - 0x61 + 10)
    } else {
        None
    }
}

/// Reads two bytes as a base-16 number (optional `+` sign, then digits).
fn pair_value(b1: u8, b2: u8) -> (res: Option<u8>)
    ensures
        res == pair_hex_value(b1, b2),
{
    if b1 == 0x2b {
        hex_digit(b2)
    } else {
        match (hex_digit(b1), hex_digit(b2)) {
            (Some(h), Some(l)) => Some(h * 16 + l),
            _ => None,
        }
    }
}

/// Calls `std::str::from_utf8` on the two bytes; on failure returns the text of
/// the UTF-8 error. It fails exactly when the bytes are not valid UTF-8.
#[verifier::external_body]
fn utf8_pair_error(b1: u8, b2: u8) -> (res: Option<String>)
    ensures
        res is None <==> pair_is_utf8(b1, b2),
{
    std::str::from_utf8(&[b1, b2]).err().map(|e| e.to_string())
}

fn upper_hex(v: u8) -> (res: u8)
    requires
        v < 16,
    ensures
        res == upper_hex_digit(v),
{
    if v < 10 {
        0x30 + v
    } else {
        0x41 + v - 10
    }
}

impl EmailCompressor {
    /// Decodes a quoted-printable body.
    pub fn decode_quoted_printable(data: &[u8]) -> (res: Result<Vec<u8>, MailCrushError>)
        ensures
            spec_decode_qp(data@) matches Some(d) ==> res matches Ok(v) && v@ == d,
            spec_decode_qp(data@) is None ==> (res matches Err(e) && e is ParseError),
    {
        let mut result: Vec<u8> = Vec::new();
        let mut i: usize = 0;
        assert(data@.skip(0) =~= data@);
        while i < data.len()
            invariant
                0 <= i <= data.len(),
                spec_decode_qp(data@) == match spec_decode_qp(data@.skip(i as int)) {
                    Some(r) => Some(result@ + r),
                    None => None,
                },
            decreases data.len() - i,
        {
            let ghost rest = data@.skip(i as int);
            let ghost before = result@;
            if data[i] == 0x3d {
                if data.len() - i > 2 {
                    if data[i + 1] == 0x0d && data[i + 2] == 0x0a {
                        assert(rest.skip(3) =~= data@.skip(i + 3));
                        i = i + 3;
                        continue;
                    } else if data[i + 1] == 0x0a {
                        assert(rest.skip(2) =~= data@.skip(i + 2));
                        i = i + 2;
                        continue;
                    }
                    let b1 = data[i + 1];
                    let b2 = data[i + 2];
                    if let Some(text) = utf8_pair_error(b1, b2) {
                        return Err(MailCrushError::ParseError(concat("Invalid QP encoding: ", text.as_str())));
                    }
                    if let Some(byte) = pair_value(b1, b2) {
                        result.push(byte);
                        assert(rest.skip(3) =~= data@.skip(i + 3));
                        assert(before + (seq![byte] + spec_decode_qp(data@.skip(i + 3))->0) =~= result@ + spec_decode_qp(data@.skip(i + 3))->0);
                        i = i + 3;
                        continue;
                    }
                }
                result.push(data[i]);
                assert(rest.skip(1) =~= data@.skip(i + 1));
                i = i + 1;
            } else {
                result.push(data[i]);
                assert(rest.skip(1) =~= data@.skip(i + 1));
                i = i + 1;
            }
        }
        assert(data@.skip(i as int) =~= Seq::<u8>::empty());
        assert(result@ + Seq::<u8>::empty() =~= result@);
        Ok(result)
    }

    /// Encodes `data` as quoted-printable, breaking lines softly before they
    /// would exceed 75 characters.
    pub fn encode_quoted_printable(data: &[u8]) -> (res: Vec<u8>)
        ensures
            res@ == spec_encode_qp(data@),
    {
        let mut result: Vec<u8> = Vec::new();
        let mut line_len: u128 = 0;
        let mut i: usize = 0;
        while i < data.len()
            invariant
                0 <= i <= data.len(),
                line_len <= i + 75,
                result@ + spec_encode_qp_from(data@, i as int, line_len as int) == spec_encode_qp(data@),
            decreases data.len() - i,
        {
            let ghost before = result@;
            let ghost ll0 = line_len as int;
            let byte = data[i];
            let literal = byte == 0x09 || byte == 0x20 || (33 <= byte && byte <= 126 && byte != 0x3d)
                || byte == 0x0d || byte == 0x0a;
            let token_len: u128 = if literal { 1 } else { 3 };
            assert(token_len == qp_token(byte).len());
            if line_len + token_len > 75 && byte != 0x0d && byte != 0x0a {
                result.push(0x3d);
                result.push(0x0d);
                result.push(0x0a);
                line_len = 0;
            }
            let ghost after_break = result@;
            if literal {
                result.push(byte);
            } else {
                result.push(0x3d);
                result.push(upper_hex(byte / 16));
                result.push(upper_hex(byte % 16));
            }
            assert(result@ =~= after_break + qp_token(byte));
            if byte == 0x0a {
                line_len = 0;
            } else {
                line_len = line_len + token_len;
            }
            assert(line_len as int == next_line_len(byte, ll0));
            assert(result@ + spec_encode_qp_from(data@, i + 1, line_len as int) =~= before
                + spec_encode_qp_from(data@, i as int, ll0));
            i = i + 1;
        }
        assert(result@ + Seq::<u8>::empty() =~= result@);
        result
    }
}

/// Two decoding results joined: the bytes of both, or `None` when either failed.
pub open spec fn join_decoded(a: Option<Seq<u8>>, b: Option<Seq<u8>>) -> Option<Seq<u8>> {
    match (a, b) {
        (Some(p), Some(q)) => Some(p + q),
        _ => None,
    }
}

/// No `=` among the last two bytes of `x`: no escape is left open at its end.
pub open spec fn ends_outside_escape(x: Seq<u8>) -> bool {
    forall|k: int| 0 <= k < x.len() && x.len() - 2 <= k ==> x[k] != 0x3d
}

/// The bytes `"=\n"` of a soft line break ended by a bare line feed.
pub open spec fn soft_break_lf() -> Seq<u8> {
    seq![0x3du8, 0x0au8]
}

/// A soft line break (`=` LF or `=` CRLF) vanishes on decoding: decoding the
/// text before it and the text after it (when some follows) and joining the
/// results gives the decoding of the whole, provided no escape is left open
/// before the break.
pub proof fn lemma_soft_break_vanishes(x: Seq<u8>, brk: Seq<u8>, y: Seq<u8>)
    requires
        brk == soft_break_lf() || brk == soft_break(),
        ends_outside_escape(x),
        y.len() > 0,
    ensures
        spec_decode_qp(x + brk + y) == join_decoded(spec_decode_qp(x), spec_decode_qp(y)),
    decreases x.len(),
{
    let d = x + brk + y;
    if x.len() == 0 {
        assert(d =~= brk + y);
        assert(spec_decode_qp(x) == Some(Seq::<u8>::empty()));
        if brk == soft_break_lf() {
            assert(d.skip(2) =~= y);
        } else {
            assert(d.skip(3) =~= y);
        }
        match spec_decode_qp(y) {
            Some(q) => assert(Seq::<u8>::empty() + q =~= q),
            None => {},
        }
    } else {
        assert(d[0] == x[0]);
        if x[0] == 0x3d {
            assert(x.len() >= 3);
            assert(d[1] == x[1] && d[2] == x[2]);
            assert forall|k: int| 0 <= k <= 3 implies ends_outside_escape(#[trigger] x.skip(k)) && (d.skip(k)
                =~= x.skip(k) + brk + y) by {
                assert forall|j: int| 0 <= j < x.skip(k).len() && x.skip(k).len() - 2 <= j implies x.skip(k)[j]
                    != 0x3d by {
                    assert(x.skip(k)[j] == x[j + k]);
                }
            }
            if x[1] == 0x0d && x[2] == 0x0a {
                lemma_soft_break_vanishes(x.skip(3), brk, y);
            } else if x[1] == 0x0a {
                lemma_soft_break_vanishes(x.skip(2), brk, y);
            } else if !pair_is_utf8(x[1], x[2]) {
            } else {
                match pair_hex_value(x[1], x[2]) {
                    Some(v) => {
                        lemma_soft_break_vanishes(x.skip(3), brk, y);
                        lemma_prepend_join(v, spec_decode_qp(x.skip(3)), spec_decode_qp(y));
                    },
                    None => {
                        lemma_soft_break_vanishes(x.skip(1), brk, y);
                        lemma_prepend_join(x[0], spec_decode_qp(x.skip(1)), spec_decode_qp(y));
                    },
                }
            }
        } else {
            assert(d.skip(1) =~= x.skip(1) + brk + y);
            assert(ends_outside_escape(x.skip(1))) by {
                assert forall|j: int| 0 <= j < x.skip(1).len() && x.skip(1).len() - 2 <= j implies x.skip(1)[j]
                    != 0x3d by {
                    assert(x.skip(1)[j] == x[j + 1]);
                }
            }
            lemma_soft_break_vanishes(x.skip(1), brk, y);
            lemma_prepend_join(x[0], spec_decode_qp(x.skip(1)), spec_decode_qp(y));
        }
    }
}

proof fn lemma_prepend_join(b: u8, a: Option<Seq<u8>>, c: Option<Seq<u8>>)
    ensures
        prepend(b, join_decoded(a, c)) == join_decoded(prepend(b, a), c),
{
    match (a, c) {
        (Some(p), Some(q)) => assert(seq![b] + (p + q) =~= (seq![b] + p) + q),
        _ => {},
    }
}

} // verus!
