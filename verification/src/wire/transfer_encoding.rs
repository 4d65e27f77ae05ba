//! Content-Transfer-Encoding of bodies: base64 and quoted-printable.
use vstd::prelude::*;
use base64::Engine;
use crate::mime_types::{ContentTransferEncoding, encoding_name};
use crate::text::{eq_ignore_case, push_bytes, push_str, str_eq_ignore_case};
use crate::wire::MessageParseError;
use crate::wire::shared::{hex_digit, hex_val, is_lwsp, lemma_lwsp_trim_end_bounds, lwsp_trim_end, trim_lwsp_end};

verus! {

/// What the `base64` crate's standard engine (RFC 4648 alphabet, padded)
/// encodes `b` to.
pub uninterp spec fn base64_standard_encoding(b: Seq<u8>) -> Seq<char>;

/// What the `base64` crate's standard engine decodes `b` to; `None` where it
/// reports an error.
pub uninterp spec fn base64_standard_decoding(b: Seq<u8>) -> Option<Seq<u8>>;

/// A character of the standard base64 alphabet (`A`-`Z`, `a`-`z`, `0`-`9`,
/// `+`, `/`) or the padding character `=`.
pub open spec fn is_base64_char(c: char) -> bool {
    ('A' <= c && c <= 'Z') || ('a' <= c && c <= 'z') || ('0' <= c && c <= '9') || c == '+' || c == '/' || c == '='
}

/// Calls `STANDARD.encode` of the `base64` crate. The contract names its
/// result and states three facts that the crate's source shows: the text uses
/// only the standard alphabet and `=` padding (`alphabet::STANDARD`, `PAD`);
/// it never begins with `=`, since `add_padding` only closes a last group
/// after the two or three data characters that `internal_encode` wrote for
/// it; and `STANDARD.decode` gives the input back (the round trip that the
/// crate's engine tests check).
#[verifier::external_body]
pub fn base64_encode(input: &[u8]) -> (r: String)
    ensures
        r@ == base64_standard_encoding(input@),
        forall|i: int| 0 <= i < r@.len() ==> is_base64_char(#[trigger] r@[i]),
        r@.len() > 0 ==> r@[0] != '=',
        base64_standard_decoding(utf8_bytes(r@)) == Some(input@),
{
    base64::engine::general_purpose::STANDARD.encode(input)
}

/// Calls `STANDARD.decode` of the `base64` crate; the error is dropped. The
/// contract names the result and claims nothing more of it.
#[verifier::external_body]
pub fn base64_decode(input: &[u8]) -> (r: Option<Vec<u8>>)
    ensures
        match r {
            Some(v) => base64_standard_decoding(input@) == Some(v@),
            None => base64_standard_decoding(input@) is None,
        },
{
    match base64::engine::general_purpose::STANDARD.decode(input) {
        Ok(v) => Some(v),
        Err(_) => None,
    }
}

pub open spec fn crlf() -> Seq<u8> {
    seq![13u8, 10u8]
}

/// Base64 text broken into lines of at most 76 characters, each ending in
/// CRLF, starting at `p`.
pub open spec fn base64_lines_from(e: Seq<u8>, p: int) -> Seq<u8>
    decreases e.len() - p,
{
    if p < 0 || p >= e.len() {
        seq![]
    } else if e.len() - p <= 76 {
        e.subrange(p, e.len() as int) + crlf()
    } else {
        e.subrange(p, p + 76) + crlf() + base64_lines_from(e, p + 76)
    }
}

/// The body bytes of a base64-encoded part.
pub open spec fn base64_body(input: Seq<u8>) -> Seq<u8> {
    base64_lines_from(utf8_bytes(base64_standard_encoding(input)), 0)
}

pub open spec fn utf8_bytes(s: Seq<char>) -> Seq<u8> {
    vstd::utf8::encode_utf8(s)
}

} // verus!

verus! {

/// Base64 with CRLF line breaks every 76 characters.
pub fn encode_base64(input: &[u8]) -> (r: Vec<u8>)
    ensures
        r@ == base64_body(input@),
        base64_body_decoded(r@) == Some(input@),
{
    let encoded = base64_encode(input);
    let e = encoded.as_str().as_bytes();
    let ghost es = e@;
    assert(es == utf8_bytes(base64_standard_encoding(input@)));
    let mut out: Vec<u8> = Vec::new();
    let mut p: usize = 0;
    while p < e.len()
        invariant
            e@ == es,
            p <= es.len(),
            out@ + base64_lines_from(es, p as int) == base64_lines_from(es, 0),
        decreases es.len() - p,
    {
        let q = if e.len() - p <= 76 { e.len() } else { p + 76 };
        let ghost before = out@;
        push_bytes(&mut out, &e[p..q]);
        out.push(13u8);
        out.push(10u8);
        assert(out@ == before + (es.subrange(p as int, q as int) + crlf()));
        assert(out@ + base64_lines_from(es, q as int) == base64_lines_from(es, 0)) by {
            assert(base64_lines_from(es, p as int) == es.subrange(p as int, q as int) + crlf()
                + base64_lines_from(es, q as int));
        }
        p = q;
    }
    assert(out@ == base64_lines_from(es, 0)) by {
        assert(out@ + seq![] =~= out@);
    }
    proof {
        lemma_base64_text_bytes(encoded@);
        lemma_base64_lines_kept(es, 0);
        assert(es.subrange(0, es.len() as int) =~= es);
    }
    out
}

} // verus!

verus! {

/// Bytes of the base64 alphabet, and the padding character.
pub open spec fn is_base64_byte(b: u8) -> bool {
    (0x41 <= b && b <= 0x5a) || (0x61 <= b && b <= 0x7a) || (0x30 <= b && b <= 0x39) || b == 0x2b || b == 0x2f
        || b == 0x3d
}

/// The base64 bytes among the first `n` bytes of `b`, in order.
pub open spec fn base64_kept(b: Seq<u8>, n: int) -> Seq<u8>
    decreases n,
{
    if n <= 0 {
        seq![]
    } else if is_base64_byte(b[n - 1]) {
        base64_kept(b, n - 1).push(b[n - 1])
    } else {
        base64_kept(b, n - 1)
    }
}

/// A base64 body decoded: line breaks and other bytes outside the alphabet
/// are dropped first.
pub open spec fn base64_body_decoded(body: Seq<u8>) -> Option<Seq<u8>> {
    base64_standard_decoding(base64_kept(body, body.len() as int))
}

fn decode_base64_body(body: &[u8]) -> (r: Option<Vec<u8>>)
    ensures
        match r {
            Some(v) => base64_body_decoded(body@) == Some(v@),
            None => base64_body_decoded(body@) is None,
        },
{
    let mut filtered: Vec<u8> = Vec::new();
    let mut i: usize = 0;
    while i < body.len()
        invariant
            i <= body@.len(),
            filtered@ == base64_kept(body@, i as int),
        decreases body@.len() - i,
    {
        let b = body[i];
        if (0x41 <= b && b <= 0x5a) || (0x61 <= b && b <= 0x7a) || (0x30 <= b && b <= 0x39) || b == 0x2b || b
            == 0x2f || b == 0x3d {
            filtered.push(b);
        }
        i = i + 1;
    }
    base64_decode(filtered.as_slice())
}

/// Index of the first CR or LF at or after `i`, or the length.
pub open spec fn line_break_at(s: Seq<u8>, i: int) -> int
    decreases s.len() - i,
{
    if i < 0 || i >= s.len() {
        s.len() as int
    } else if s[i] == 13 || s[i] == 10 {
        i
    } else {
        line_break_at(s, i + 1)
    }
}

pub proof fn lemma_line_break_at(s: Seq<u8>, i: int)
    requires
        0 <= i <= s.len(),
    ensures
        i <= line_break_at(s, i) <= s.len(),
        line_break_at(s, i) < s.len() ==> (s[line_break_at(s, i)] == 13 || s[line_break_at(s, i)] == 10),
        forall|j: int| i <= j < line_break_at(s, i) ==> #[trigger] s[j] != 13 && s[j] != 10,
    decreases s.len() - i,
{
    if i < s.len() && !(s[i] == 13 || s[i] == 10) {
        lemma_line_break_at(s, i + 1);
    }
}

/// The line break that starts at `e` (CRLF, CR, LF, or nothing at the end)
/// and the index just after it.
pub open spec fn line_break(s: Seq<u8>, e: int) -> (Seq<u8>, int) {
    if e >= s.len() {
        (seq![], e)
    } else if s[e] == 13 {
        if e + 1 < s.len() && s[e + 1] == 10 {
            (seq![13u8, 10u8], e + 2)
        } else {
            (seq![13u8], e + 1)
        }
    } else {
        (seq![10u8], e + 1)
    }
}

/// Bytes allowed verbatim in quoted-printable text.
pub open spec fn qp_literal(b: u8) -> bool {
    b == 9 || b == 32 || (33 <= b && b <= 60) || (62 <= b && b <= 126)
}

/// `a` followed by the result, when there is one.
pub open spec fn opt_cat(a: Seq<u8>, o: Option<Seq<u8>>) -> Option<Seq<u8>> {
    match o {
        Some(b) => Some(a + b),
        None => None,
    }
}

/// The decoding of quoted-printable text `t` (one line, soft-break marker
/// removed) from `i`: literals, and `=` followed by two hex digits.
pub open spec fn qp_text_decoded(t: Seq<u8>, i: int) -> Option<Seq<u8>>
    decreases t.len() - i,
{
    if i < 0 || i >= t.len() {
        Some(seq![])
    } else if t[i] != 0x3d {
        if !qp_literal(t[i]) {
            None
        } else {
            opt_cat(seq![t[i]], qp_text_decoded(t, i + 1))
        }
    } else if i + 2 >= t.len() {
        None
    } else {
        match (hex_digit(t[i + 1]), hex_digit(t[i + 2])) {
            (Some(h), Some(l)) => opt_cat(seq![(h * 16 + l) as u8], qp_text_decoded(t, i + 3)),
            _ => None,
        }
    }
}

/// The line of `body` that starts at `idx`: its text without trailing white
/// space, whether it ends in a soft break `=`, and its encoded text.
pub open spec fn qp_line(body: Seq<u8>, idx: int) -> (Seq<u8>, bool) {
    let e = line_break_at(body, idx);
    let raw = body.subrange(idx, e);
    let line = raw.subrange(0, lwsp_trim_end(raw, raw.len() as int));
    let soft = line.len() > 0 && line[line.len() - 1] == 0x3d;
    (if soft { line.subrange(0, line.len() - 1) } else { line }, soft)
}

/// A quoted-printable body decoded from `idx`: each line's text is decoded,
/// hard line breaks are kept as they were written, and soft breaks (a line
/// ending in `=`) join lines. `None` where the body is malformed.
pub open spec fn qp_decoded_from(body: Seq<u8>, idx: int) -> Option<Seq<u8>>
    decreases body.len() - idx,
{
    if idx < 0 || idx >= body.len() {
        Some(seq![])
    } else {
        let e = line_break_at(body, idx);
        let nl = line_break(body, e).0;
        let next = line_break(body, e).1;
        let text = qp_line(body, idx).0;
        let soft = qp_line(body, idx).1;
        if next <= idx || next > body.len() {
            None
        } else {
            match qp_text_decoded(text, 0) {
                None => None,
                Some(d) => if soft {
                    if nl.len() == 0 {
                        None
                    } else {
                        opt_cat(d, qp_decoded_from(body, next))
                    }
                } else {
                    opt_cat(d + nl, qp_decoded_from(body, next))
                },
            }
        }
    }
}

pub proof fn lemma_opt_cat_assoc(a: Seq<u8>, b: Seq<u8>, o: Option<Seq<u8>>)
    ensures
        opt_cat(a, opt_cat(b, o)) == opt_cat(a + b, o),
{
    match o {
        Some(x) => {
            assert(a + (b + x) =~= (a + b) + x);
        },
        None => {},
    }
}

/// Decodes the quoted-printable text `body[lo..hi]` onto `out`.
fn decode_qp_text(body: &[u8], lo: usize, hi: usize, out: &mut Vec<u8>) -> (ok: bool)
    requires
        lo <= hi <= body@.len(),
    ensures
        ok ==> qp_text_decoded(body@.subrange(lo as int, hi as int), 0) == Some(
            final(out)@.subrange(old(out)@.len() as int, final(out)@.len() as int),
        ),
        ok ==> final(out)@.subrange(0, old(out)@.len() as int) == old(out)@,
        ok ==> old(out)@.len() <= final(out)@.len(),
        !ok ==> qp_text_decoded(body@.subrange(lo as int, hi as int), 0) is None,
{
    let ghost t = body@.subrange(lo as int, hi as int);
    let ghost start = out@;
    let mut i = lo;
    while i < hi
        invariant
            lo <= i <= hi <= body@.len(),
            t == body@.subrange(lo as int, hi as int),
            start.len() <= out@.len(),
            out@.subrange(0, start.len() as int) == start,
            qp_text_decoded(t, 0) == opt_cat(out@.subrange(start.len() as int, out@.len() as int), qp_text_decoded(t, i - lo)),
        decreases hi - i,
    {
        let ghost part = out@.subrange(start.len() as int, out@.len() as int);
        let b = body[i];
        assert(t[i - lo] == b);
        if b != 0x3d {
            if !(b == 9 || b == 32 || (33 <= b && b <= 60) || (62 <= b && b <= 126)) {
                return false;
            }
            out.push(b);
            proof {
                lemma_opt_cat_assoc(part, seq![b], qp_text_decoded(t, i + 1 - lo));
                assert(out@.subrange(start.len() as int, out@.len() as int) =~= part + seq![b]);
                assert(out@.subrange(0, start.len() as int) =~= start);
            }
            i = i + 1;
        } else {
            if hi - i <= 2 {
                return false;
            }
            assert(t[i + 1 - lo] == body@[i + 1]);
            assert(t[i + 2 - lo] == body@[i + 2]);
            let h = match hex_val(body[i + 1]) {
                Some(h) => h,
                None => return false,
            };
            let l = match hex_val(body[i + 2]) {
                Some(l) => l,
                None => return false,
            };
            let v: u8 = h * 16 + l;
            out.push(v);
            proof {
                lemma_opt_cat_assoc(part, seq![v], qp_text_decoded(t, i + 3 - lo));
                assert(out@.subrange(start.len() as int, out@.len() as int) =~= part + seq![v]);
                assert(out@.subrange(0, start.len() as int) =~= start);
            }
            i = i + 3;
        }
    }
    proof {
        let part = out@.subrange(start.len() as int, out@.len() as int);
        assert(part + seq![] =~= part);
    }
    true
}

} // verus!

verus! {

/// Decodes a quoted-printable body; `None` where it is malformed.
pub fn decode_quoted_printable_body(body: &[u8]) -> (r: Option<Vec<u8>>)
    ensures
        match r {
            Some(v) => qp_decoded_from(body@, 0) == Some(v@),
            None => qp_decoded_from(body@, 0) is None,
        },
{
    let mut out: Vec<u8> = Vec::new();
    let mut idx: usize = 0;
    while idx < body.len()
        invariant
            idx <= body@.len(),
            qp_decoded_from(body@, 0) == opt_cat(out@, qp_decoded_from(body@, idx as int)),
        decreases body@.len() - idx,
    {
        let ghost s = body@;
        let line_start = idx;
        while idx < body.len() && body[idx] != 13 && body[idx] != 10
            invariant
                line_start <= idx <= body@.len(),
                s == body@,
                line_break_at(s, idx as int) == line_break_at(s, line_start as int),
            decreases body@.len() - idx,
        {
            idx = idx + 1;
        }
        let e = idx;
        proof {
            lemma_line_break_at(s, line_start as int);
        }
        assert(e == line_break_at(s, line_start as int));
        let line_end = trim_lwsp_end(body, line_start, e);
        let mut nl_len: usize = 0;
        let mut nl_cr = false;
        if idx < body.len() {
            if body[idx] == 13 {
                nl_cr = true;
                if idx + 1 < body.len() && body[idx + 1] == 10 {
                    nl_len = 2;
                    idx = idx + 2;
                } else {
                    nl_len = 1;
                    idx = idx + 1;
                }
            } else {
                nl_len = 1;
                idx = idx + 1;
            }
        }
        let ghost nl = line_break(s, e as int).0;
        assert(idx as int == line_break(s, e as int).1);
        assert(nl.len() == nl_len);
        let soft = line_end > line_start && body[line_end - 1] == 0x3d;
        let text_end = if soft { line_end - 1 } else { line_end };
        let ghost raw = s.subrange(line_start as int, e as int);
        proof {
            assert(raw.subrange(0, lwsp_trim_end(raw, raw.len() as int)) =~= s.subrange(
                line_start as int,
                line_end as int,
            ));
            assert(qp_line(s, line_start as int).1 == soft);
            assert(qp_line(s, line_start as int).0 =~= s.subrange(line_start as int, text_end as int));
            assert(idx > line_start);
        }
        let ghost before = out@;
        let ok = decode_qp_text(body, line_start, text_end, &mut out);
        if !ok {
            return None;
        }
        let ghost d = out@.subrange(before.len() as int, out@.len() as int);
        assert(out@ =~= before + d);
        if soft {
            if nl_len == 0 {
                return None;
            }
            proof {
                lemma_opt_cat_assoc(before, d, qp_decoded_from(s, idx as int));
            }
        } else {
            if nl_len == 2 {
                out.push(13u8);
                out.push(10u8);
                assert(nl =~= seq![13u8, 10u8]);
            } else if nl_len == 1 {
                if nl_cr {
                    out.push(13u8);
                    assert(nl =~= seq![13u8]);
                } else {
                    out.push(10u8);
                    assert(nl =~= seq![10u8]);
                }
            } else {
                assert(nl =~= seq![]);
            }
            assert(out@ =~= before + (d + nl));
            proof {
                lemma_opt_cat_assoc(before, d + nl, qp_decoded_from(s, idx as int));
            }
        }
    }
    assert(out@ + seq![] =~= out@);
    Some(out)
}

} // verus!

verus! {

/// Uppercase hexadecimal digit of `n < 16`.
pub open spec fn hex_upper(n: u8) -> u8 {
    if n < 10 {
        (0x30 + n) as u8
    } else {
        (0x41 + n - 10) as u8
    }
}

fn hex_upper_digit(n: u8) -> (r: u8)
    requires
        n < 16,
    ensures
        r == hex_upper(n),
{
    if n < 10 {
        0x30 + n
    } else {
        0x41 + n - 10
    }
}

/// The quoted-printable form of one byte: printable ASCII other than `=`
/// as is, space and tab as is unless a line ends after them, anything else
/// as `=XX` with uppercase hex.
pub open spec fn qp_token(b: u8, at_line_end: bool) -> Seq<u8> {
    if (33 <= b && b <= 60) || (62 <= b && b <= 126) {
        seq![b]
    } else if (b == 32 || b == 9) && !at_line_end {
        seq![b]
    } else {
        seq![0x3du8, hex_upper(b / 16), hex_upper(b % 16)]
    }
}

/// A line break of the input follows position `i` (or the input ends).
pub open spec fn line_ends_after(b: Seq<u8>, i: int) -> bool {
    i + 1 >= b.len() || b[i + 1] == 13 || b[i + 1] == 10
}

/// `=` CRLF: a soft line break.
pub open spec fn soft_break() -> Seq<u8> {
    seq![0x3du8, 13u8, 10u8]
}

/// The quoted-printable encoding of `b` from `idx`, when the current output
/// line already holds `line_len` characters: CRLF pairs are kept, every
/// other byte becomes its token, and a soft break is inserted before a token
/// that would take the line past 76 characters.
pub open spec fn qp_encoded_from(b: Seq<u8>, idx: int, line_len: int) -> Seq<u8>
    decreases b.len() - idx,
{
    if idx < 0 || idx >= b.len() {
        seq![]
    } else if b[idx] == 13 && idx + 1 < b.len() && b[idx + 1] == 10 {
        crlf() + qp_encoded_from(b, idx + 2, 0)
    } else {
        let t = qp_token(b[idx], line_ends_after(b, idx));
        if line_len + t.len() > 76 {
            soft_break() + t + qp_encoded_from(b, idx + 1, t.len() as int)
        } else {
            t + qp_encoded_from(b, idx + 1, line_len + t.len())
        }
    }
}

/// The quoted-printable encoding of a whole body.
pub open spec fn qp_encoded(b: Seq<u8>) -> Seq<u8> {
    qp_encoded_from(b, 0, 0)
}

fn push_qp_token(out: &mut Vec<u8>, b: u8, at_line_end: bool) -> (n: usize)
    ensures
        final(out)@ == old(out)@ + qp_token(b, at_line_end),
        n == qp_token(b, at_line_end).len(),
        1 <= n <= 3,
{
    if (33 <= b && b <= 60) || (62 <= b && b <= 126) {
        out.push(b);
        1
    } else if (b == 32 || b == 9) && !at_line_end {
        out.push(b);
        1
    } else {
        out.push(0x3d);
        out.push(hex_upper_digit(b / 16));
        out.push(hex_upper_digit(b % 16));
        assert(final(out)@ =~= old(out)@ + qp_token(b, at_line_end));
        3
    }
}

/// Encodes a body as quoted-printable with lines of at most 76 characters.
#[verifier::rlimit(50)]
#[verifier::spinoff_prover]
pub fn encode_quoted_printable_body(body: &[u8]) -> (r: Vec<u8>)
    ensures
        r@ == qp_encoded(body@),
{
    let mut out: Vec<u8> = Vec::new();
    let mut idx: usize = 0;
    let mut line_len: usize = 0;
    while idx < body.len()
        invariant
            idx <= body@.len(),
            line_len <= 76,
            qp_encoded(body@) == out@ + qp_encoded_from(body@, idx as int, line_len as int),
        decreases body@.len() - idx,
    {
        let ghost before = out@;
        let b = body[idx];
        if b == 13 && idx + 1 < body.len() && body[idx + 1] == 10 {
            out.push(13u8);
            out.push(10u8);
            assert(out@ =~= before + crlf());
            assert(before + (crlf() + qp_encoded_from(body@, idx + 2, 0)) =~= out@ + qp_encoded_from(
                body@,
                idx + 2,
                0,
            ));
            idx = idx + 2;
            line_len = 0;
        } else {
            let at_end = idx + 1 >= body.len() || body[idx + 1] == 13 || body[idx + 1] == 10;
            let tlen: usize = if (33 <= b && b <= 60) || (62 <= b && b <= 126) {
                1
            } else if (b == 32 || b == 9) && !at_end {
                1
            } else {
                3
            };
            assert(tlen == qp_token(b, at_end).len());
            if line_len + tlen > 76 {
                out.push(0x3d);
                out.push(13u8);
                out.push(10u8);
                let ghost mid = out@;
                let n = push_qp_token(&mut out, b, at_end);
                assert(out@ =~= before + (soft_break() + qp_token(b, at_end)));
                assert(before + (soft_break() + qp_token(b, at_end) + qp_encoded_from(body@, idx + 1, n as int))
                    =~= out@ + qp_encoded_from(body@, idx + 1, n as int));
                line_len = n;
            } else {
                let n = push_qp_token(&mut out, b, at_end);
                assert(before + (qp_token(b, at_end) + qp_encoded_from(body@, idx + 1, line_len + n))
                    =~= out@ + qp_encoded_from(body@, idx + 1, line_len + n));
                line_len = line_len + n;
            }
            idx = idx + 1;
        }
    }
    assert(out@ + seq![] =~= out@);
    out
}

/// A transfer-encoding name matches `name` ignoring ASCII case.
pub open spec fn names_encoding(encoding: Option<Seq<char>>, name: Seq<char>) -> bool {
    encoding matches Some(e) && eq_ignore_case(e, name)
}

/// The body as written for a transfer encoding: base64 and
/// quoted-printable are applied, any other encoding (or none) keeps it.
pub open spec fn transfer_encoded(body: Seq<u8>, encoding: Option<Seq<char>>) -> Seq<u8> {
    if names_encoding(encoding, "base64"@) {
        base64_body(body)
    } else if names_encoding(encoding, "quoted-printable"@) {
        qp_encoded(body)
    } else {
        body
    }
}

fn copy_bytes(b: &[u8]) -> (r: Vec<u8>)
    ensures
        r@ == b@,
{
    let mut out: Vec<u8> = Vec::new();
    push_bytes(&mut out, b);
    assert(out@ =~= b@);
    out
}

pub fn encode_body_for_transfer_encoding(body: &[u8], encoding: Option<&str>) -> (r: Vec<u8>)
    ensures
        r@ == transfer_encoded(
            body@,
            match encoding {
                Some(e) => Some(e@),
                None => None,
            },
        ),
        transfer_decoded(
            r@,
            match encoding {
                Some(e) => Some(e@),
                None => None,
            },
        ) == Ok::<Seq<u8>, Seq<char>>(body@),
{
    match encoding {
        None => copy_bytes(body),
        Some(e) => {
            if str_eq_ignore_case(e, "base64") {
                encode_base64(body)
            } else if str_eq_ignore_case(e, "quoted-printable") {
                proof {
                    law_quoted_printable_round_trip(body@);
                }
                encode_quoted_printable_body(body)
            } else {
                copy_bytes(body)
            }
        },
    }
}

/// A body decoded from its transfer encoding, or the text of the error.
pub open spec fn transfer_decoded(body: Seq<u8>, encoding: Option<Seq<char>>) -> Result<Seq<u8>, Seq<char>> {
    if names_encoding(encoding, "base64"@) {
        match base64_body_decoded(body) {
            Some(d) => Ok(d),
            None => Err("invalid base64 content-transfer-encoding payload"@),
        }
    } else if names_encoding(encoding, "quoted-printable"@) {
        match qp_decoded_from(body, 0) {
            Some(d) => Ok(d),
            None => Err("invalid quoted-printable content-transfer-encoding payload"@),
        }
    } else {
        Ok(body)
    }
}

/// A parse result that matches `transfer_decoded`.
pub open spec fn decoded_as(r: Result<Vec<u8>, MessageParseError>, s: Result<Seq<u8>, Seq<char>>) -> bool {
    match s {
        Ok(d) => r matches Ok(v) && v@ == d,
        Err(m) => r matches Err(MessageParseError::MimeBodyParse { details }) && details@ == m,
    }
}

pub fn decode_transfer_encoded_body(body: &[u8], encoding: Option<&str>) -> (r: Result<Vec<u8>, MessageParseError>)
    ensures
        decoded_as(
            r,
            transfer_decoded(
                body@,
                match encoding {
                    Some(e) => Some(e@),
                    None => None,
                },
            ),
        ),
{
    match encoding {
        None => Ok(copy_bytes(body)),
        Some(e) => {
            if str_eq_ignore_case(e, "base64") {
                match decode_base64_body(body) {
                    Some(v) => Ok(v),
                    None => Err(
                        MessageParseError::MimeBodyParse {
                            details: "invalid base64 content-transfer-encoding payload".to_owned(),
                        },
                    ),
                }
            } else if str_eq_ignore_case(e, "quoted-printable") {
                match decode_quoted_printable_body(body) {
                    Some(v) => Ok(v),
                    None => Err(
                        MessageParseError::MimeBodyParse {
                            details: "invalid quoted-printable content-transfer-encoding payload".to_owned(),
                        },
                    ),
                }
            } else {
                Ok(copy_bytes(body))
            }
        },
    }
}

/// Transfer encodings a multipart part may declare: none, 7bit, 8bit, binary.
pub open spec fn multipart_encoding_ok(encoding: Option<ContentTransferEncoding>) -> bool {
    match encoding {
        None => true,
        Some(e) => eq_ignore_case(encoding_name(e), "7bit"@) || eq_ignore_case(encoding_name(e), "8bit"@)
            || eq_ignore_case(encoding_name(e), "binary"@),
    }
}

/// The error text for a multipart part with another transfer encoding.
pub open spec fn multipart_encoding_details(value: Seq<char>) -> Seq<char> {
    "multipart part cannot use content-transfer-encoding `"@ + value + "`"@
}

pub fn validate_multipart_transfer_encoding(encoding: Option<&ContentTransferEncoding>) -> (r: Result<
    (),
    MessageParseError,
>)
    ensures
        multipart_encoding_ok(
            match encoding {
                Some(e) => Some(*e),
                None => None,
            },
        ) ==> r is Ok,
        !multipart_encoding_ok(
            match encoding {
                Some(e) => Some(*e),
                None => None,
            },
        ) ==> (r matches Err(MessageParseError::MimeBodyParse { details }) && details@
            == multipart_encoding_details(encoding_name(*encoding->0))),
{
    let e = match encoding {
        None => return Ok(()),
        Some(e) => e,
    };
    let value = e.as_str();
    if str_eq_ignore_case(value, "7bit") || str_eq_ignore_case(value, "8bit") || str_eq_ignore_case(value, "binary") {
        return Ok(());
    }
    let mut details = String::new();
    push_str(&mut details, "multipart part cannot use content-transfer-encoding `");
    push_str(&mut details, value);
    push_str(&mut details, "`");
    Err(MessageParseError::MimeBodyParse { details })
}

} // verus!

verus! {

// ---------------------------------------------------------------------------
// Quoted-printable round trip
// ---------------------------------------------------------------------------

/// `x` holds no CR or LF byte.
pub open spec fn no_line_breaks(x: Seq<u8>) -> bool {
    forall|k: int| 0 <= k < x.len() ==> #[trigger] x[k] != 13 && x[k] != 10
}

proof fn lemma_qp_token(c: u8, e: bool)
    ensures
        qp_text_decoded(qp_token(c, e), 0) == Some(seq![c]),
        no_line_breaks(qp_token(c, e)),
        qp_token(c, e).len() >= 1,
        qp_token(c, e).last() != 0x3d,
        is_lwsp(qp_token(c, e).last()) ==> !e,
{
    let t = qp_token(c, e);
    if (33 <= c && c <= 60) || (62 <= c && c <= 126) || ((c == 32 || c == 9) && !e) {
        assert(t == seq![c]);
        assert(qp_text_decoded(t, 1) == Some(Seq::<u8>::empty()));
        assert(seq![c] + Seq::<u8>::empty() =~= seq![c]);
    } else {
        let hi: u8 = c / 16;
        let lo: u8 = c % 16;
        assert(hi < 16 && lo < 16);
        assert(c == hi * 16 + lo);
        assert(t == seq![0x3du8, hex_upper(hi), hex_upper(lo)]);
        assert(hex_digit(hex_upper(hi)) == Some(hi));
        assert(hex_digit(hex_upper(lo)) == Some(lo));
        assert(qp_text_decoded(t, 3) == Some(Seq::<u8>::empty()));
        assert(((hi * 16 + lo) as u8) == c);
        assert(seq![c] + Seq::<u8>::empty() =~= seq![c]);
    }
}

proof fn lemma_qp_text_shift(p: Seq<u8>, y: Seq<u8>, j: int)
    requires
        0 <= j,
    ensures
        qp_text_decoded(p + y, p.len() + j) == qp_text_decoded(y, j),
    decreases y.len() - j,
{
    let t = p + y;
    let i = p.len() + j;
    if j < y.len() {
        assert(t[i] == y[j]);
        if y[j] != 0x3d {
            lemma_qp_text_shift(p, y, j + 1);
        } else if j + 2 < y.len() {
            assert(t[i + 1] == y[j + 1] && t[i + 2] == y[j + 2]);
            lemma_qp_text_shift(p, y, j + 3);
        }
    }
}

proof fn lemma_qp_text_concat(x: Seq<u8>, y: Seq<u8>, i: int, d: Seq<u8>)
    requires
        0 <= i <= x.len(),
        qp_text_decoded(x, i) == Some(d),
    ensures
        qp_text_decoded(x + y, i) == opt_cat(d, qp_text_decoded(y, 0)),
    decreases x.len() - i,
{
    let t = x + y;
    if i == x.len() {
        lemma_qp_text_shift(x, y, 0);
        assert(d == Seq::<u8>::empty());
        match qp_text_decoded(y, 0) {
            Some(z) => {
                assert(d + z =~= z);
            },
            None => {},
        }
    } else {
        assert(t[i] == x[i]);
        if x[i] != 0x3d {
            let d2 = qp_text_decoded(x, i + 1)->0;
            lemma_qp_text_concat(x, y, i + 1, d2);
            lemma_opt_cat_assoc(seq![x[i]], d2, qp_text_decoded(y, 0));
        } else {
            assert(t[i + 1] == x[i + 1] && t[i + 2] == x[i + 2]);
            let v = (hex_digit(x[i + 1])->0 * 16 + hex_digit(x[i + 2])->0) as u8;
            let d2 = qp_text_decoded(x, i + 3)->0;
            lemma_qp_text_concat(x, y, i + 3, d2);
            lemma_opt_cat_assoc(seq![v], d2, qp_text_decoded(y, 0));
        }
    }
}

proof fn lemma_line_break_at_shift(p: Seq<u8>, r: Seq<u8>, i: int)
    requires
        0 <= i,
    ensures
        line_break_at(p + r, p.len() + i) == p.len() + line_break_at(r, i),
    decreases r.len() - i,
{
    if i < r.len() {
        assert((p + r)[p.len() + i] == r[i]);
        if !(r[i] == 13 || r[i] == 10) {
            lemma_line_break_at_shift(p, r, i + 1);
        }
    }
}

proof fn lemma_qp_decoded_shift(p: Seq<u8>, r: Seq<u8>, i: int)
    requires
        0 <= i,
    ensures
        qp_decoded_from(p + r, p.len() + i) == qp_decoded_from(r, i),
    decreases r.len() - i,
{
    let body = p + r;
    let idx = p.len() + i;
    if i < r.len() {
        lemma_line_break_at_shift(p, r, i);
        lemma_line_break_at(r, i);
        let e = line_break_at(r, i);
        let pe = p.len() + e;
        if e < r.len() {
            assert(body[pe] == r[e]);
            if e + 1 < r.len() {
                assert(body[pe + 1] == r[e + 1]);
            }
        }
        assert(line_break(body, pe).0 == line_break(r, e).0);
        assert(line_break(body, pe).1 == p.len() + line_break(r, e).1);
        assert(body.subrange(idx, pe) =~= r.subrange(i, e));
        assert(qp_line(body, idx) == qp_line(r, i));
        let next = line_break(r, e).1;
        if next > i && next <= r.len() {
            lemma_qp_decoded_shift(p, r, next);
        }
    }
}

proof fn lemma_line_break_at_exact(s: Seq<u8>, i: int, k: int)
    requires
        0 <= i <= k <= s.len(),
        forall|j: int| i <= j < k ==> #[trigger] s[j] != 13 && s[j] != 10,
        k < s.len() ==> (s[k] == 13 || s[k] == 10),
    ensures
        line_break_at(s, i) == k,
    decreases k - i,
{
    if i < k {
        lemma_line_break_at_exact(s, i + 1, k);
    }
}

proof fn lemma_decode_hard_line(x: Seq<u8>, r: Seq<u8>, xb: Seq<u8>)
    requires
        no_line_breaks(x),
        x.len() > 0 ==> !is_lwsp(x.last()) && x.last() != 0x3d,
        qp_text_decoded(x, 0) == Some(xb),
    ensures
        qp_decoded_from(x + crlf() + r, 0) == opt_cat(xb + crlf(), qp_decoded_from(r, 0)),
{
    let body = x + crlf() + r;
    let n = x.len() as int;
    assert forall|j: int| 0 <= j < n implies #[trigger] body[j] != 13 && body[j] != 10 by {
        assert(body[j] == x[j]);
    }
    assert(body[n] == 13 && body[n + 1] == 10);
    lemma_line_break_at_exact(body, 0, n);
    assert(body.subrange(0, n) =~= x);
    assert(lwsp_trim_end(x, n) == n);
    assert(x.subrange(0, n) =~= x);
    assert(line_break(body, n).0 =~= crlf());
    assert(body =~= (x + crlf()) + r);
    lemma_qp_decoded_shift(x + crlf(), r, 0);
}

proof fn lemma_decode_soft_line(x: Seq<u8>, r: Seq<u8>, xb: Seq<u8>)
    requires
        no_line_breaks(x),
        qp_text_decoded(x, 0) == Some(xb),
    ensures
        qp_decoded_from(x + soft_break() + r, 0) == opt_cat(xb, qp_decoded_from(r, 0)),
{
    let body = x + soft_break() + r;
    let n = x.len() as int;
    assert forall|j: int| 0 <= j < n + 1 implies #[trigger] body[j] != 13 && body[j] != 10 by {
        if j < n {
            assert(body[j] == x[j]);
        } else {
            assert(body[j] == 0x3d);
        }
    }
    assert(body[n + 1] == 13 && body[n + 2] == 10);
    lemma_line_break_at_exact(body, 0, n + 1);
    let raw = body.subrange(0, n + 1);
    assert(raw =~= x.push(0x3d));
    assert(lwsp_trim_end(raw, n + 1) == n + 1);
    assert(raw.subrange(0, n + 1) =~= raw);
    assert(raw.subrange(0, n) =~= x);
    assert(line_break(body, n + 1).0 =~= crlf());
    assert(body =~= (x + soft_break()) + r);
    lemma_qp_decoded_shift(x + soft_break(), r, 0);
}

proof fn lemma_decode_last_line(x: Seq<u8>, xb: Seq<u8>)
    requires
        no_line_breaks(x),
        x.len() > 0 ==> !is_lwsp(x.last()) && x.last() != 0x3d,
        qp_text_decoded(x, 0) == Some(xb),
    ensures
        qp_decoded_from(x, 0) == Some(xb),
{
    let n = x.len() as int;
    if n > 0 {
        lemma_line_break_at_exact(x, 0, n);
        assert(x.subrange(0, n) =~= x);
        assert(lwsp_trim_end(x, n) == n);
        assert(line_break(x, n).0 =~= Seq::<u8>::empty());
        assert(line_break(x, n).1 == n);
        assert(qp_line(x, 0).0 =~= x);
        assert(!qp_line(x, 0).1);
        assert(qp_decoded_from(x, n) == Some(Seq::<u8>::empty()));
        assert((xb + Seq::<u8>::empty()) + Seq::<u8>::empty() =~= xb);
    } else {
        assert(xb =~= Seq::<u8>::empty());
    }
}

proof fn lemma_qp_extend(x: Seq<u8>, xb: Seq<u8>, t: Seq<u8>, c: u8)
    requires
        no_line_breaks(x),
        qp_text_decoded(x, 0) == Some(xb),
        no_line_breaks(t),
        qp_text_decoded(t, 0) == Some(seq![c]),
        t.len() >= 1,
    ensures
        no_line_breaks(x + t),
        qp_text_decoded(x + t, 0) == Some(xb + seq![c]),
        (x + t).last() == t.last(),
{
    lemma_qp_text_concat(x, t, 0, xb);
    let ll = x.len() as int;
    assert forall|k: int| 0 <= k < (x + t).len() implies #[trigger] (x + t)[k] != 13 && (x + t)[k] != 10 by {
        if k < ll {
            assert((x + t)[k] == x[k]);
        } else {
            assert((x + t)[k] == t[k - ll]);
        }
    }
}

/// What the round trip claims for the encoding of `b` from `idx` after the
/// pending line `x`, which decodes to `xb`.
spec fn qp_round_goal(b: Seq<u8>, idx: int, x: Seq<u8>, xb: Seq<u8>) -> bool {
    qp_decoded_from(x + qp_encoded_from(b, idx, x.len() as int), 0) == Some(xb + b.subrange(idx, b.len() as int))
}

/// The pending line `x` may continue the encoding of `b` from `idx`.
spec fn qp_pending_ok(b: Seq<u8>, idx: int, x: Seq<u8>, xb: Seq<u8>) -> bool {
    &&& 0 <= idx <= b.len()
    &&& no_line_breaks(x)
    &&& qp_text_decoded(x, 0) == Some(xb)
    &&& x.len() > 0 ==> x.last() != 0x3d
    &&& x.len() > 0 && is_lwsp(x.last()) ==> (idx < b.len() && b[idx] != 13 && b[idx] != 10)
}

proof fn lemma_qp_case_end(b: Seq<u8>, idx: int, x: Seq<u8>, xb: Seq<u8>)
    requires
        qp_pending_ok(b, idx, x, xb),
        idx >= b.len(),
    ensures
        qp_round_goal(b, idx, x, xb),
{
    assert(x + qp_encoded_from(b, idx, x.len() as int) =~= x);
    assert(xb + b.subrange(idx, b.len() as int) =~= xb);
    lemma_decode_last_line(x, xb);
}

proof fn lemma_qp_case_crlf(b: Seq<u8>, idx: int, x: Seq<u8>, xb: Seq<u8>)
    requires
        qp_pending_ok(b, idx, x, xb),
        idx + 1 < b.len(),
        b[idx] == 13,
        b[idx + 1] == 10,
        qp_round_goal(b, idx + 2, seq![], seq![]),
    ensures
        qp_round_goal(b, idx, x, xb),
{
    let e2 = qp_encoded_from(b, idx + 2, 0);
    assert(x + qp_encoded_from(b, idx, x.len() as int) =~= x + crlf() + e2);
    lemma_decode_hard_line(x, e2, xb);
    assert(Seq::<u8>::empty() + e2 =~= e2);
    assert(xb + crlf() + (Seq::<u8>::empty() + b.subrange(idx + 2, b.len() as int)) =~= xb + b.subrange(
        idx,
        b.len() as int,
    ));
}

proof fn lemma_qp_case_soft(b: Seq<u8>, idx: int, x: Seq<u8>, xb: Seq<u8>)
    requires
        qp_pending_ok(b, idx, x, xb),
        idx < b.len(),
        !(b[idx] == 13 && idx + 1 < b.len() && b[idx + 1] == 10),
        x.len() + qp_token(b[idx], line_ends_after(b, idx)).len() > 76,
        qp_round_goal(b, idx + 1, qp_token(b[idx], line_ends_after(b, idx)), seq![b[idx]]),
    ensures
        qp_round_goal(b, idx, x, xb),
{
    let t = qp_token(b[idx], line_ends_after(b, idx));
    let e2 = qp_encoded_from(b, idx + 1, t.len() as int);
    assert(x + qp_encoded_from(b, idx, x.len() as int) =~= x + soft_break() + (t + e2));
    lemma_decode_soft_line(x, t + e2, xb);
    assert(xb + (seq![b[idx]] + b.subrange(idx + 1, b.len() as int)) =~= xb + b.subrange(idx, b.len() as int));
}

proof fn lemma_qp_case_fit(b: Seq<u8>, idx: int, x: Seq<u8>, xb: Seq<u8>)
    requires
        qp_pending_ok(b, idx, x, xb),
        idx < b.len(),
        !(b[idx] == 13 && idx + 1 < b.len() && b[idx + 1] == 10),
        x.len() + qp_token(b[idx], line_ends_after(b, idx)).len() <= 76,
        qp_round_goal(b, idx + 1, x + qp_token(b[idx], line_ends_after(b, idx)), xb + seq![b[idx]]),
    ensures
        qp_round_goal(b, idx, x, xb),
{
    let t = qp_token(b[idx], line_ends_after(b, idx));
    let ll = x.len() as int;
    let e2 = qp_encoded_from(b, idx + 1, ll + t.len());
    assert((x + t).len() == ll + t.len());
    assert(x + qp_encoded_from(b, idx, ll) =~= (x + t) + e2);
    assert((xb + seq![b[idx]]) + b.subrange(idx + 1, b.len() as int) =~= xb + b.subrange(idx, b.len() as int));
}

proof fn lemma_qp_round(b: Seq<u8>, idx: int, x: Seq<u8>, xb: Seq<u8>)
    requires
        qp_pending_ok(b, idx, x, xb),
    ensures
        qp_round_goal(b, idx, x, xb),
    decreases b.len() - idx,
{
    if idx >= b.len() {
        lemma_qp_case_end(b, idx, x, xb);
    } else if b[idx] == 13 && idx + 1 < b.len() && b[idx + 1] == 10 {
        lemma_qp_round(b, idx + 2, seq![], seq![]);
        lemma_qp_case_crlf(b, idx, x, xb);
    } else {
        let at_end = line_ends_after(b, idx);
        let t = qp_token(b[idx], at_end);
        lemma_qp_token(b[idx], at_end);
        if x.len() + t.len() > 76 {
            lemma_qp_round(b, idx + 1, t, seq![b[idx]]);
            lemma_qp_case_soft(b, idx, x, xb);
        } else {
            lemma_qp_extend(x, xb, t, b[idx]);
            lemma_qp_round(b, idx + 1, x + t, xb + seq![b[idx]]);
            lemma_qp_case_fit(b, idx, x, xb);
        }
    }
}

/// Quoted-printable encoding loses nothing: decoding the encoding of any
/// bytes gives them back.
pub proof fn law_quoted_printable_round_trip(b: Seq<u8>)
    ensures
        qp_decoded_from(qp_encoded(b), 0) == Some(b),
{
    assert(qp_text_decoded(Seq::<u8>::empty(), 0) == Some(Seq::<u8>::empty()));
    lemma_qp_round(b, 0, seq![], seq![]);
    assert(Seq::<u8>::empty() + qp_encoded(b) =~= qp_encoded(b));
    assert(Seq::<u8>::empty() + b.subrange(0, b.len() as int) =~= b);
}

} // verus!

verus! {

// ---------------------------------------------------------------------------
// Base64 round trip
// ---------------------------------------------------------------------------

proof fn lemma_base64_text_bytes(t: Seq<char>)
    requires
        forall|i: int| 0 <= i < t.len() ==> is_base64_char(#[trigger] t[i]),
    ensures
        forall|i: int| 0 <= i < utf8_bytes(t).len() ==> is_base64_byte(#[trigger] utf8_bytes(t)[i]),
{
    assert(vstd::utf8::is_ascii_chars(t)) by {
        assert forall|i: int| 0 <= i < t.len() implies '\0' <= #[trigger] t[i] <= '\u{7f}' by {
            assert(is_base64_char(t[i]));
        }
    }
    vstd::utf8::is_ascii_chars_encode_utf8(t);
    assert forall|i: int| 0 <= i < utf8_bytes(t).len() implies is_base64_byte(#[trigger] utf8_bytes(t)[i]) by {
        assert(t[i] as u8 == utf8_bytes(t)[i]);
        assert(is_base64_char(t[i]));
    }
}

proof fn lemma_kept_same(a: Seq<u8>, b: Seq<u8>, n: int)
    requires
        0 <= n <= a.len(),
        n <= b.len(),
        forall|i: int| 0 <= i < n ==> a[i] == b[i],
    ensures
        base64_kept(a, n) == base64_kept(b, n),
    decreases n,
{
    if n > 0 {
        lemma_kept_same(a, b, n - 1);
    }
}

proof fn lemma_kept_concat(x: Seq<u8>, y: Seq<u8>, k: int)
    requires
        0 <= k <= y.len(),
    ensures
        base64_kept(x + y, x.len() + k) == base64_kept(x, x.len() as int) + base64_kept(y, k),
    decreases k,
{
    if k == 0 {
        lemma_kept_same(x + y, x, x.len() as int);
        assert(base64_kept(x, x.len() as int) + Seq::<u8>::empty() =~= base64_kept(x, x.len() as int));
    } else {
        lemma_kept_concat(x, y, k - 1);
        assert((x + y)[x.len() + k - 1] == y[k - 1]);
        if is_base64_byte(y[k - 1]) {
            assert((base64_kept(x, x.len() as int) + base64_kept(y, k - 1)).push(y[k - 1]) =~= base64_kept(
                x,
                x.len() as int,
            ) + base64_kept(y, k - 1).push(y[k - 1]));
        }
    }
}

proof fn lemma_kept_all(e: Seq<u8>, n: int)
    requires
        0 <= n <= e.len(),
        forall|i: int| 0 <= i < e.len() ==> is_base64_byte(#[trigger] e[i]),
    ensures
        base64_kept(e, n) == e.subrange(0, n),
    decreases n,
{
    if n > 0 {
        lemma_kept_all(e, n - 1);
        assert(e.subrange(0, n - 1).push(e[n - 1]) =~= e.subrange(0, n));
    } else {
        assert(e.subrange(0, 0) =~= Seq::<u8>::empty());
    }
}

proof fn lemma_base64_lines_kept(e: Seq<u8>, p: int)
    requires
        0 <= p <= e.len(),
        forall|i: int| 0 <= i < e.len() ==> is_base64_byte(#[trigger] e[i]),
    ensures
        base64_kept(base64_lines_from(e, p), base64_lines_from(e, p).len() as int) == e.subrange(p, e.len() as int),
    decreases e.len() - p,
{
    let q = if e.len() - p <= 76 { e.len() as int } else { p + 76 };
    if p >= e.len() {
        assert(e.subrange(p, e.len() as int) =~= Seq::<u8>::empty());
    } else {
        let chunk = e.subrange(p, q);
        lemma_kept_all(chunk, chunk.len() as int);
        assert(chunk.subrange(0, chunk.len() as int) =~= chunk);
        assert(base64_kept(crlf(), 2) =~= Seq::<u8>::empty()) by {
            reveal_with_fuel(base64_kept, 3);
            assert(crlf()[0] == 13u8 && crlf()[1] == 10u8);
            assert(!is_base64_byte(13u8) && !is_base64_byte(10u8));
        }
        lemma_kept_concat(chunk, crlf(), 2);
        assert(base64_kept(chunk + crlf(), (chunk + crlf()).len() as int) =~= chunk);
        if q == e.len() {
            assert(base64_lines_from(e, p) == chunk + crlf());
        } else {
            let rest = base64_lines_from(e, q);
            lemma_base64_lines_kept(e, q);
            assert(base64_lines_from(e, p) == (chunk + crlf()) + rest);
            lemma_kept_concat(chunk + crlf(), rest, rest.len() as int);
            assert(chunk + e.subrange(q, e.len() as int) =~= e.subrange(p, e.len() as int));
        }
    }
}

/// A base64 body decodes as its unbroken text does: the line breaks drop out.
pub proof fn lemma_base64_body_decoded(input: Seq<u8>)
    requires
        forall|i: int|
            0 <= i < base64_standard_encoding(input).len() ==> is_base64_char(
                #[trigger] base64_standard_encoding(input)[i],
            ),
    ensures
        base64_body_decoded(base64_body(input)) == base64_standard_decoding(
            utf8_bytes(base64_standard_encoding(input)),
        ),
{
    let es = utf8_bytes(base64_standard_encoding(input));
    lemma_base64_text_bytes(base64_standard_encoding(input));
    lemma_base64_lines_kept(es, 0);
    assert(es.subrange(0, es.len() as int) =~= es);
}

} // verus!
