//! Rendering message bodies and attachments as MIME entities.
use vstd::prelude::*;
use vstd::utf8::{encode_utf8, is_ascii_chars};
use crate::message::{Body, BodyView};
use crate::mime_types::{MimePart, MimePartView, mime_view};
use crate::text::{eq_ignore_case, find_char, find_in, lemma_find_in_bounds, push_bytes, push_char, push_str, str_chars, str_eq_ignore_case, trim, trim_window, trimmed, window};
use crate::wire::MessageRenderError;
use crate::wire::content_type::{boundary_param, extract_boundary_param};
use crate::wire::header::{FieldView, field_views, lemma_lf_at, lf_at};
use crate::wire::mime_parse::delimiter_line;
use crate::wire::shared::{MAX_MULTIPART_DEPTH, decimal, push_decimal, trim_lwsp_end, lwsp_trim_end};
use crate::wire::transfer_encoding::{
    base64_body, crlf, encode_base64, encode_body_for_transfer_encoding, encode_quoted_printable_body, qp_encoded,
    transfer_encoded,
};

verus! {

// ---------------------------------------------------------------------------
// Render tree
// ---------------------------------------------------------------------------

/// A MIME entity ready to be written: a leaf with its header fields and
/// encoded body, or a multipart node.
pub enum RenderPart {
    Leaf { headers: Vec<(String, String)>, body: Vec<u8> },
    Multipart { content_type: String, boundary: Option<String>, parts: Vec<RenderPart> },
}

/// A render tree as plain values.
pub enum RenderPartView {
    Leaf { headers: Seq<FieldView>, body: Seq<u8> },
    Multipart { content_type: Seq<char>, boundary: Option<Seq<char>>, parts: Seq<RenderPartView> },
}

pub open spec fn render_view(p: RenderPart) -> RenderPartView
    decreases p,
{
    match p {
        RenderPart::Leaf { headers, body } => RenderPartView::Leaf { headers: field_views(headers@), body: body@ },
        RenderPart::Multipart { content_type, boundary, parts } => RenderPartView::Multipart {
            content_type: content_type@,
            boundary: crate::text::opt_view(boundary),
            parts: Seq::new(
                parts@.len(),
                |i: int|
                    {
                        if 0 <= i < parts@.len() {
                            render_view(parts@[i])
                        } else {
                            RenderPartView::Leaf { headers: seq![], body: seq![] }
                        }
                    },
            ),
        },
    }
}

pub open spec fn render_views(ps: Seq<RenderPart>) -> Seq<RenderPartView> {
    Seq::new(ps.len(), |i: int| render_view(ps[i]))
}

// ---------------------------------------------------------------------------
// Text leaves
// ---------------------------------------------------------------------------

/// Text bytes with every line break (CRLF, lone CR, lone LF) written as CRLF.
pub open spec fn canonical_from(b: Seq<u8>, i: int) -> Seq<u8>
    decreases b.len() - i,
{
    if i < 0 || i >= b.len() {
        seq![]
    } else if b[i] == 13 {
        crlf() + if i + 1 < b.len() && b[i + 1] == 10 {
            canonical_from(b, i + 2)
        } else {
            canonical_from(b, i + 1)
        }
    } else if b[i] == 10 {
        crlf() + canonical_from(b, i + 1)
    } else {
        seq![b[i]] + canonical_from(b, i + 1)
    }
}

/// The UTF-8 bytes of text, with canonical CRLF line breaks.
pub open spec fn canonical_text(s: Seq<char>) -> Seq<u8> {
    canonical_from(encode_utf8(s), 0)
}

pub fn canonicalize_text_line_endings(value: &str) -> (r: Vec<u8>)
    ensures
        r@ == canonical_text(value@),
{
    let bytes = value.as_bytes();
    let ghost b = bytes@;
    let mut out: Vec<u8> = Vec::new();
    let mut idx: usize = 0;
    while idx < bytes.len()
        invariant
            b == bytes@,
            idx <= b.len(),
            canonical_from(b, 0) == out@ + canonical_from(b, idx as int),
        decreases b.len() - idx,
    {
        let ghost before = out@;
        if bytes[idx] == 13 {
            out.push(13);
            out.push(10);
            if idx + 1 < bytes.len() && bytes[idx + 1] == 10 {
                assert(before + (crlf() + canonical_from(b, idx + 2)) =~= out@ + canonical_from(b, idx + 2));
                idx = idx + 2;
            } else {
                assert(before + (crlf() + canonical_from(b, idx + 1)) =~= out@ + canonical_from(b, idx + 1));
                idx = idx + 1;
            }
        } else if bytes[idx] == 10 {
            out.push(13);
            out.push(10);
            assert(before + (crlf() + canonical_from(b, idx + 1)) =~= out@ + canonical_from(b, idx + 1));
            idx = idx + 1;
        } else {
            let x = bytes[idx];
            out.push(x);
            assert(before + (seq![x] + canonical_from(b, idx + 1)) =~= out@ + canonical_from(b, idx + 1));
            idx = idx + 1;
        }
    }
    assert(out@ + seq![] =~= out@);
    out
}

/// Some line of `b` from `i` on (LF-separated, a CR before the LF not
/// counted) is longer than 998 bytes.
pub open spec fn overlong_from(b: Seq<u8>, i: int) -> bool
    decreases b.len() - i,
{
    if i < 0 || i > b.len() {
        false
    } else {
        let e = lf_at(b, i);
        let c = if e > i && b[e - 1] == 13 {
            e - 1
        } else {
            e
        };
        if c - i > 998 {
            true
        } else if e >= b.len() || e < i {
            false
        } else {
            overlong_from(b, e + 1)
        }
    }
}

pub fn contains_overlong_physical_line(body: &[u8]) -> (r: bool)
    ensures
        r == overlong_from(body@, 0),
{
    let mut i: usize = 0;
    loop
        invariant
            i <= body@.len(),
            overlong_from(body@, 0) == overlong_from(body@, i as int),
        decreases body@.len() - i,
    {
        let ghost s = body@;
        let mut e = i;
        while e < body.len() && body[e] != 10
            invariant
                i <= e <= body@.len(),
                s == body@,
                lf_at(s, e as int) == lf_at(s, i as int),
            decreases body@.len() - e,
        {
            e = e + 1;
        }
        proof {
            lemma_lf_at(s, i as int);
        }
        let c = if e > i && body[e - 1] == 13 {
            e - 1
        } else {
            e
        };
        if c - i > 998 {
            return true;
        }
        if e >= body.len() {
            return false;
        }
        i = e + 1;
    }
}

/// A field given by two string literals.
pub open spec fn field(name: Seq<char>, value: Seq<char>) -> FieldView {
    (name, value)
}

/// A text body as a MIME leaf: ASCII text is sent as is (quoted-printable
/// when a line exceeds 998 bytes); other text is declared UTF-8 and sent as
/// base64.
pub open spec fn text_leaf(content_type: Seq<char>, value: Seq<char>) -> RenderPartView {
    let c = canonical_text(value);
    if is_ascii_chars(value) {
        if overlong_from(c, 0) {
            RenderPartView::Leaf {
                headers: seq![
                    field("Content-Type"@, content_type),
                    field("Content-Transfer-Encoding"@, "quoted-printable"@),
                ],
                body: qp_encoded(c),
            }
        } else {
            RenderPartView::Leaf { headers: seq![field("Content-Type"@, content_type)], body: c }
        }
    } else {
        RenderPartView::Leaf {
            headers: seq![
                field("Content-Type"@, content_type + "; charset=utf-8"@),
                field("Content-Transfer-Encoding"@, "base64"@),
            ],
            body: base64_body(c),
        }
    }
}

pub fn pair(name: &str, value: &str) -> (r: (String, String))
    ensures
        r.0@ == name@,
        r.1@ == value@,
{
    (name.to_owned(), value.to_owned())
}

pub fn renderable_text_leaf(content_type: &str, value: &str) -> (r: RenderPart)
    ensures
        render_view(r) == text_leaf(content_type@, value@),
{
    let canonical_body = canonicalize_text_line_endings(value);
    if value.is_ascii() {
        let mut headers: Vec<(String, String)> = Vec::new();
        headers.push(pair("Content-Type", content_type));
        if contains_overlong_physical_line(canonical_body.as_slice()) {
            headers.push(pair("Content-Transfer-Encoding", "quoted-printable"));
            let body = encode_quoted_printable_body(canonical_body.as_slice());
            assert(field_views(headers@) =~= seq![
                field("Content-Type"@, content_type@),
                field("Content-Transfer-Encoding"@, "quoted-printable"@),
            ]);
            return RenderPart::Leaf { headers, body };
        }
        assert(field_views(headers@) =~= seq![field("Content-Type"@, content_type@)]);
        return RenderPart::Leaf { headers, body: canonical_body };
    }
    let mut headers: Vec<(String, String)> = Vec::new();
    let ct = content_type_with_charset(content_type);
    headers.push(("Content-Type".to_owned(), ct));
    headers.push(pair("Content-Transfer-Encoding", "base64"));
    assert(field_views(headers@) =~= seq![
        field("Content-Type"@, content_type@ + "; charset=utf-8"@),
        field("Content-Transfer-Encoding"@, "base64"@),
    ]);
    RenderPart::Leaf { headers, body: encode_base64(canonical_body.as_slice()) }
}

fn content_type_with_charset(content_type: &str) -> (r: String)
    ensures
        r@ == content_type@ + "; charset=utf-8"@,
{
    let mut v = content_type.to_owned();
    push_str(&mut v, "; charset=utf-8");
    v
}

} // verus!

verus! {

// ---------------------------------------------------------------------------
// Boundaries
// ---------------------------------------------------------------------------

/// Characters allowed in a boundary (RFC 2046 `bchars`).
pub open spec fn is_bchar(c: char) -> bool {
    ('0' <= c && c <= '9') || ('a' <= c && c <= 'z') || ('A' <= c && c <= 'Z') || c == '\'' || c == '(' || c == ')'
        || c == '+' || c == '_' || c == ',' || c == '-' || c == '.' || c == '/' || c == ':' || c == '=' || c == '?'
        || c == ' '
}

/// Why a boundary is refused.
pub enum BoundaryDefect {
    Empty,
    Invalid,
}

/// A boundary is 1 to 70 allowed characters not ending in a space.
pub open spec fn boundary_defect(v: Seq<char>) -> Option<BoundaryDefect> {
    if v.len() == 0 {
        Some(BoundaryDefect::Empty)
    } else if v.len() > 70 || v[v.len() - 1] == ' ' || exists|i: int| 0 <= i < v.len() && !is_bchar(#[trigger] v[i]) {
        Some(BoundaryDefect::Invalid)
    } else {
        None
    }
}

pub open spec fn boundary_error_is(e: MessageRenderError, d: BoundaryDefect) -> bool {
    match d {
        BoundaryDefect::Empty => e is EmptyMimeBoundary,
        BoundaryDefect::Invalid => e is InvalidMimeBoundary,
    }
}

pub fn validate_boundary(value: &str) -> (r: Result<(), MessageRenderError>)
    ensures
        match boundary_defect(value@) {
            None => r is Ok,
            Some(d) => r matches Err(e) && boundary_error_is(e, d),
        },
{
    let v = str_chars(value);
    if v.len() == 0 {
        return Err(MessageRenderError::EmptyMimeBoundary);
    }
    if v.len() > 70 || v[v.len() - 1] == ' ' {
        return Err(MessageRenderError::InvalidMimeBoundary);
    }
    let mut i: usize = 0;
    while i < v.len()
        invariant
            i <= v@.len(),
            v@ == value@,
            forall|j: int| 0 <= j < i ==> is_bchar(#[trigger] v@[j]),
        decreases v@.len() - i,
    {
        let c = v[i];
        if !(('0' <= c && c <= '9') || ('a' <= c && c <= 'z') || ('A' <= c && c <= 'Z') || c == '\'' || c == '('
            || c == ')' || c == '+' || c == '_' || c == ',' || c == '-' || c == '.' || c == '/' || c == ':' || c
            == '=' || c == '?' || c == ' ') {
            assert(!is_bchar(v@[i as int]));
            return Err(MessageRenderError::InvalidMimeBoundary);
        }
        i = i + 1;
    }
    Ok(())
}

/// The boundary generated from a counter value.
pub open spec fn generated_boundary(counter: int) -> Seq<char> {
    "=_email_message_boundary_"@ + decimal(counter as nat)
}

/// The counter after one boundary was generated.
pub open spec fn counter_after(counter: int) -> int {
    if counter < usize::MAX {
        counter + 1
    } else {
        counter
    }
}

pub fn next_boundary(counter: &mut usize) -> (r: String)
    ensures
        r@ == generated_boundary(*old(counter) as int),
        *final(counter) as int == counter_after(*old(counter) as int),
{
    let mut value = String::new();
    push_str(&mut value, "=_email_message_boundary_");
    push_decimal(&mut value, *counter);
    if *counter < usize::MAX {
        *counter = *counter + 1;
    }
    value
}

/// Some line of `b` from `i` on, compared as multipart delimiters are, is
/// `delim` or `close`.
pub open spec fn delimiter_line_from(b: Seq<u8>, i: int, delim: Seq<u8>, close: Seq<u8>) -> bool
    decreases b.len() - i,
{
    if i < 0 || i > b.len() {
        false
    } else {
        let e = lf_at(b, i);
        let line = delimiter_line(b, i);
        if line == delim || line == close {
            true
        } else if e >= b.len() || e < i {
            false
        } else {
            delimiter_line_from(b, e + 1, delim, close)
        }
    }
}

/// A body holds a line that would be read as a delimiter of `boundary`.
pub open spec fn has_delimiter_line(b: Seq<u8>, boundary: Seq<char>) -> bool {
    let d = crate::wire::mime_parse::delimiter_of(boundary);
    delimiter_line_from(b, 0, d, d + seq![0x2du8, 0x2du8])
}

pub fn contains_boundary_delimiter_line(body: &[u8], boundary: &str) -> (r: bool)
    ensures
        r == has_delimiter_line(body@, boundary@),
{
    let mut delimiter: Vec<u8> = Vec::new();
    delimiter.push(0x2d);
    delimiter.push(0x2d);
    push_bytes(&mut delimiter, boundary.as_bytes());
    let mut closing: Vec<u8> = Vec::new();
    push_bytes(&mut closing, delimiter.as_slice());
    closing.push(0x2d);
    closing.push(0x2d);
    let ghost d = crate::wire::mime_parse::delimiter_of(boundary@);
    assert(delimiter@ =~= d);
    assert(closing@ =~= d + seq![0x2du8, 0x2du8]);
    let mut i: usize = 0;
    loop
        invariant
            i <= body@.len(),
            delimiter@ == d,
            closing@ == d + seq![0x2du8, 0x2du8],
            has_delimiter_line(body@, boundary@) == delimiter_line_from(body@, i as int, delimiter@, closing@),
        decreases body@.len() - i,
    {
        let ghost s = body@;
        let mut e = i;
        while e < body.len() && body[e] != 10
            invariant
                i <= e <= body@.len(),
                s == body@,
                lf_at(s, e as int) == lf_at(s, i as int),
            decreases body@.len() - e,
        {
            e = e + 1;
        }
        proof {
            lemma_lf_at(s, i as int);
        }
        let c = if e > i && body[e - 1] == 13 {
            e - 1
        } else {
            e
        };
        let t = trim_lwsp_end(body, i, c);
        assert(s.subrange(i as int, t as int) =~= delimiter_line(s, i as int)) by {
            let raw = s.subrange(i as int, c as int);
            assert(raw.subrange(0, lwsp_trim_end(raw, raw.len() as int)) =~= s.subrange(i as int, t as int));
        }
        if crate::wire::shared::bytes_window_eq(body, i, t, delimiter.as_slice())
            || crate::wire::shared::bytes_window_eq(body, i, t, closing.as_slice()) {
            return true;
        }
        if e >= body.len() {
            return false;
        }
        i = e + 1;
    }
}

/// Some part of the tree would clash with `boundary`: a leaf body holds a
/// delimiter line, or a nested multipart uses the same boundary (given or
/// in its content type).
pub open spec fn part_conflicts(p: RenderPartView, boundary: Seq<char>) -> bool
    decreases p,
{
    match p {
        RenderPartView::Leaf { body, .. } => has_delimiter_line(body, boundary),
        RenderPartView::Multipart { content_type, boundary: nested, parts } => nested == Some(boundary) || boundary_param(
            content_type,
        ) == Some(boundary) || exists|k: int| 0 <= k < parts.len() && part_conflicts(#[trigger] parts[k], boundary),
    }
}

pub open spec fn parts_conflict(ps: Seq<RenderPartView>, boundary: Seq<char>) -> bool {
    exists|k: int| 0 <= k < ps.len() && part_conflicts(#[trigger] ps[k], boundary)
}

fn opt_str_is(o: &Option<String>, b: &str) -> (r: bool)
    ensures
        r == (crate::text::opt_view(*o) == Some(b@)),
{
    match o {
        Some(x) => crate::text::str_eq(x.as_str(), b),
        None => false,
    }
}

pub fn multipart_parts_conflict_with_boundary(parts: &[RenderPart], boundary: &str) -> (r: bool)
    ensures
        r == parts_conflict(render_views(parts@), boundary@),
    decreases parts@,
{
    let ghost views = render_views(parts@);
    let mut k: usize = 0;
    while k < parts.len()
        invariant
            k <= parts@.len(),
            views == render_views(parts@),
            forall|j: int| 0 <= j < k ==> !part_conflicts(#[trigger] views[j], boundary@),
        decreases parts@.len() - k,
    {
        let c = match &parts[k] {
            RenderPart::Leaf { body, .. } => contains_boundary_delimiter_line(body.as_slice(), boundary),
            RenderPart::Multipart { content_type, boundary: nested, parts: inner } => {
                let header_boundary = extract_boundary_param(content_type.as_str());
                if opt_str_is(nested, boundary) || opt_str_is(&header_boundary, boundary) {
                    true
                } else {
                    proof {
                        assert(decreases_to!(parts@ => parts@[k as int]));
                    }
                    let inner_conflict = multipart_parts_conflict_with_boundary(inner.as_slice(), boundary);
                    proof {
                        let iv = render_views(inner@);
                        let pv = render_view(parts@[k as int]);
                        assert(pv->Multipart_parts =~= iv);
                    }
                    inner_conflict
                }
            },
        };
        assert(views[k as int] == render_view(parts@[k as int]));
        if c {
            return true;
        }
        k = k + 1;
    }
    false
}

} // verus!

verus! {

// ---------------------------------------------------------------------------
// From bodies and MIME trees to render trees
// ---------------------------------------------------------------------------

/// `v` up to its first `;`.
pub open spec fn before_semicolon(v: Seq<char>) -> Seq<char> {
    match find_in(v, ';', 0, v.len() as int) {
        Some(k) => v.subrange(0, k),
        None => v,
    }
}

/// The media type of a content-type value: up to the first `;`, trimmed.
pub open spec fn media_prefix(v: Seq<char>) -> Seq<char> {
    trim(before_semicolon(v))
}

/// The value of the first `Content-Type` field from `k`.
pub open spec fn first_content_type(hs: Seq<FieldView>, k: int) -> Option<Seq<char>>
    decreases hs.len() - k,
{
    if k < 0 || k >= hs.len() {
        None
    } else if eq_ignore_case(hs[k].0, "content-type"@) {
        Some(hs[k].1)
    } else {
        first_content_type(hs, k + 1)
    }
}

/// The media type of a render tree's root.
pub open spec fn render_media_type(p: RenderPartView) -> Seq<char> {
    match p {
        RenderPartView::Leaf { headers, .. } => match first_content_type(headers, 0) {
            Some(v) => media_prefix(v),
            None => "application/octet-stream"@,
        },
        RenderPartView::Multipart { content_type, .. } => media_prefix(content_type),
    }
}

fn media_prefix_exec(value: &str) -> (r: String)
    ensures
        r@ == media_prefix(value@),
{
    let v = str_chars(value);
    let end = match find_char(&v, ';', 0, v.len()) {
        Some(k) => k,
        None => v.len(),
    };
    proof {
        lemma_find_in_bounds(v@, ';', 0, v@.len() as int);
    }
    let head = crate::text::sub_chars(&v, 0, end);
    assert(head@ == before_semicolon(value@)) by {
        if find_in(v@, ';', 0, v@.len() as int) is None {
            assert(v@.subrange(0, v@.len() as int) =~= v@);
        }
    }
    let (a, b) = trim_window(&head, 0, head.len());
    crate::text::string_from_chars(head.as_slice(), a, b)
}

#[verifier::loop_isolation(false)]
pub fn media_type_of_render_part(part: &RenderPart) -> (r: String)
    ensures
        r@ == render_media_type(render_view(*part)),
{
    match part {
        RenderPart::Leaf { headers, .. } => {
            let ghost hs = field_views(headers@);
            let mut k: usize = 0;
            while k < headers.len()
                invariant
                    k <= headers@.len(),
                    hs == field_views(headers@),
                    first_content_type(hs, 0) == first_content_type(hs, k as int),
                decreases headers@.len() - k,
            {
                if str_eq_ignore_case(headers[k].0.as_str(), "content-type") {
                    return media_prefix_exec(headers[k].1.as_str());
                }
                k = k + 1;
            }
            "application/octet-stream".to_owned()
        },
        RenderPart::Multipart { content_type, .. } => media_prefix_exec(content_type.as_str()),
    }
}

/// Header fields of a MIME leaf: its content type, then its transfer
/// encoding and disposition when present.
pub open spec fn leaf_fields(ct: Seq<char>, cte: Option<Seq<char>>, cd: Option<Seq<char>>) -> Seq<FieldView> {
    seq![field("Content-Type"@, ct)] + match cte {
        Some(e) => seq![field("Content-Transfer-Encoding"@, e)],
        None => seq![],
    } + match cd {
        Some(d) => seq![field("Content-Disposition"@, d)],
        None => seq![],
    }
}

/// A MIME tree as a render tree (leaf bodies encoded for their transfer
/// encoding); `None` when it nests deeper than 100 levels below `depth`.
pub open spec fn mime_render_view(m: MimePartView, depth: int) -> Option<RenderPartView>
    decreases m, 0int,
{
    if depth > 100 {
        None
    } else {
        match m {
            MimePartView::Leaf { content_type, content_transfer_encoding, content_disposition, body } => Some(
                RenderPartView::Leaf {
                    headers: leaf_fields(content_type, content_transfer_encoding, content_disposition),
                    body: transfer_encoded(body, content_transfer_encoding),
                },
            ),
            MimePartView::Multipart { content_type, boundary, parts } => match children_render_view(
                parts,
                0,
                depth + 1,
            ) {
                Some(rs) => Some(RenderPartView::Multipart { content_type, boundary, parts: rs }),
                None => None,
            },
        }
    }
}

/// The children `k..` of a multipart node as render trees.
pub open spec fn children_render_view(ps: Seq<MimePartView>, k: int, depth: int) -> Option<Seq<RenderPartView>>
    decreases ps, ps.len() - k,
{
    if k < 0 || k >= ps.len() {
        Some(seq![])
    } else {
        match mime_render_view(ps[k], depth) {
            None => None,
            Some(r) => match children_render_view(ps, k + 1, depth) {
                Some(rest) => Some(seq![r] + rest),
                None => None,
            },
        }
    }
}

#[verifier::loop_isolation(false)]
pub fn mime_to_render_part(part: &MimePart, depth: usize) -> (r: Result<RenderPart, MessageRenderError>)
    ensures
        match mime_render_view(mime_view(*part), depth as int) {
            Some(v) => r matches Ok(p) && render_view(p) == v,
            None => r matches Err(e) && e is MimeNestingTooDeep,
        },
    decreases part,
{
    if depth > MAX_MULTIPART_DEPTH {
        return Err(MessageRenderError::MimeNestingTooDeep);
    }
    match part {
        MimePart::Leaf { content_type, content_transfer_encoding, content_disposition, body } => {
            let mut headers: Vec<(String, String)> = Vec::new();
            headers.push(pair("Content-Type", content_type.as_str()));
            match content_transfer_encoding {
                Some(v) => {
                    headers.push(pair("Content-Transfer-Encoding", v.as_str()));
                },
                None => {},
            }
            match content_disposition {
                Some(v) => {
                    headers.push(pair("Content-Disposition", v.as_str()));
                },
                None => {},
            }
            let cte_name = match content_transfer_encoding {
                Some(v) => Some(v.as_str()),
                None => None,
            };
            let rendered_body = encode_body_for_transfer_encoding(body.as_slice(), cte_name);
            let r = RenderPart::Leaf { headers, body: rendered_body };
            assert(field_views(headers@) =~= leaf_fields(
                content_type@,
                crate::mime_types::opt_encoding_view(*content_transfer_encoding),
                crate::mime_types::opt_disposition_view(*content_disposition),
            ));
            Ok(r)
        },
        MimePart::Multipart { content_type, boundary, parts } => {
            let ghost mv = mime_view(*part);
            let ghost ps = mv->Multipart_parts;
            let mut rendered_parts: Vec<RenderPart> = Vec::new();
            let mut i: usize = 0;
            while i < parts.len()
                invariant
                    i <= parts@.len(),
                    depth <= 100,
                    mv == mime_view(*part),
                    ps == mv->Multipart_parts,
                    ps.len() == parts@.len(),
                    *part == (MimePart::Multipart { content_type: *content_type, boundary: *boundary, parts: *parts }),
                    children_render_view(ps, 0, depth + 1) == match children_render_view(ps, i as int, depth + 1) {
                        Some(rest) => Some(render_views(rendered_parts@) + rest),
                        None => None,
                    },
                decreases parts@.len() - i,
            {
                proof {
                    assert(decreases_to!(*part => part->parts));
                    assert(decreases_to!(*parts => parts@));
                    assert(decreases_to!(parts@ => parts@[i as int]));
                    assert(ps[i as int] == mime_view(parts@[i as int]));
                }
                match mime_to_render_part(&parts[i], depth + 1) {
                    Ok(p) => {
                        let ghost before = render_views(rendered_parts@);
                        rendered_parts.push(p);
                        proof {
                            assert(render_views(rendered_parts@) =~= before.push(render_view(p)));
                            match children_render_view(ps, i + 1, depth + 1) {
                                Some(rest) => {
                                    assert(before + (seq![render_view(p)] + rest) =~= render_views(rendered_parts@)
                                        + rest);
                                },
                                None => {},
                            }
                        }
                    },
                    Err(e) => {
                        return Err(e);
                    },
                }
                i = i + 1;
            }
            let r = RenderPart::Multipart {
                content_type: content_type.as_str().to_owned(),
                boundary: crate::text::clone_opt_string_ref(boundary),
                parts: rendered_parts,
            };
            proof {
                assert(render_views(rendered_parts@) + Seq::<RenderPartView>::empty() =~= render_views(rendered_parts@));
                assert(render_view(r)->Multipart_parts =~= render_views(rendered_parts@));
            }
            Ok(r)
        },
    }
}

/// A message body as a render tree; `None` when a MIME body nests too deep.
pub open spec fn root_render_view(b: BodyView) -> Option<RenderPartView> {
    match b {
        BodyView::Text(t) => Some(text_leaf("text/plain"@, t)),
        BodyView::Html(h) => Some(text_leaf("text/html"@, h)),
        BodyView::TextAndHtml(t, h) => Some(
            RenderPartView::Multipart {
                content_type: "multipart/alternative"@,
                boundary: None,
                parts: seq![text_leaf("text/plain"@, t), text_leaf("text/html"@, h)],
            },
        ),
        BodyView::Mime(m) => mime_render_view(m, 0),
    }
}

pub fn body_to_root_part(body: &Body) -> (r: Result<RenderPart, MessageRenderError>)
    ensures
        match root_render_view(crate::message::body_view(*body)) {
            Some(v) => r matches Ok(p) && render_view(p) == v,
            None => r matches Err(e) && e is MimeNestingTooDeep,
        },
{
    match body {
        Body::Text(text) => Ok(renderable_text_leaf("text/plain", text.as_str())),
        Body::Html(html) => Ok(renderable_text_leaf("text/html", html.as_str())),
        Body::TextAndHtml { text, html } => {
            let mut parts: Vec<RenderPart> = Vec::new();
            parts.push(renderable_text_leaf("text/plain", text.as_str()));
            parts.push(renderable_text_leaf("text/html", html.as_str()));
            let r = RenderPart::Multipart {
                content_type: "multipart/alternative".to_owned(),
                boundary: None,
                parts,
            };
            proof {
                assert(render_view(r)->Multipart_parts =~= seq![
                    text_leaf("text/plain"@, text@),
                    text_leaf("text/html"@, html@),
                ]);
            }
            Ok(r)
        },
        Body::Mime(mime) => mime_to_render_part(mime, 0),
    }
}

} // verus!

verus! {

// ---------------------------------------------------------------------------
// Writing a render tree
// ---------------------------------------------------------------------------

/// Why a render tree cannot be written.
pub enum RenderDefect {
    Field(crate::wire::header::FieldDefect, Seq<char>),
    Boundary(BoundaryDefect),
    Mismatched,
    EmptyParts,
    TooDeep,
    NotMultipart,
}

pub open spec fn render_defect_is(e: MessageRenderError, d: RenderDefect) -> bool {
    match d {
        RenderDefect::Field(f, name) => crate::wire::header::field_error_is(e, f, name),
        RenderDefect::Boundary(b) => boundary_error_is(e, b),
        RenderDefect::Mismatched => e is MismatchedMimeBoundary,
        RenderDefect::EmptyParts => e is EmptyMultipartParts,
        RenderDefect::TooDeep => e is MimeNestingTooDeep,
        RenderDefect::NotMultipart => e is InvalidMultipartContentType,
    }
}

/// Header fields `k..` written one after another.
pub open spec fn fields_bytes(hs: Seq<FieldView>, k: int, soft: Option<usize>) -> Result<Seq<u8>, RenderDefect>
    decreases hs.len() - k,
{
    if k < 0 || k >= hs.len() {
        Ok(seq![])
    } else {
        match crate::wire::header::rendered_field(hs[k].0, hs[k].1, soft) {
            Err(d) => Err(RenderDefect::Field(d, hs[k].0)),
            Ok(b) => match fields_bytes(hs, k + 1, soft) {
                Ok(rest) => Ok(b + rest),
                Err(d) => Err(d),
            },
        }
    }
}

/// Trying generated boundaries from `counter`, at most `tries` of them, for
/// one that no part clashes with. The boundary and the counter after it.
pub open spec fn auto_boundary(ps: Seq<RenderPartView>, counter: int, tries: int) -> Result<
    (Seq<char>, int),
    RenderDefect,
>
    decreases tries,
{
    if tries <= 0 {
        Err(RenderDefect::Boundary(BoundaryDefect::Invalid))
    } else {
        let cand = generated_boundary(counter);
        match boundary_defect(cand) {
            Some(d) => Err(RenderDefect::Boundary(d)),
            None => if !parts_conflict(ps, cand) {
                Ok((cand, counter_after(counter)))
            } else {
                auto_boundary(ps, counter_after(counter), tries - 1)
            },
        }
    }
}

/// The boundary of a multipart node: the content type's `boundary`
/// parameter (which a given boundary must equal), else the given boundary,
/// else a generated one.
pub open spec fn chosen_boundary(ct: Seq<char>, given: Option<Seq<char>>, ps: Seq<RenderPartView>, counter: int) -> Result<
    (Seq<char>, int),
    RenderDefect,
> {
    match boundary_param(ct) {
        Some(h) => match boundary_defect(h) {
            Some(d) => Err(RenderDefect::Boundary(d)),
            None => match given {
                Some(x) => match boundary_defect(x) {
                    Some(d) => Err(RenderDefect::Boundary(d)),
                    None => if h != x {
                        Err(RenderDefect::Mismatched)
                    } else {
                        Ok((h, counter))
                    },
                },
                None => Ok((h, counter)),
            },
        },
        None => match given {
            Some(x) => match boundary_defect(x) {
                Some(d) => Err(RenderDefect::Boundary(d)),
                None => Ok((x, counter)),
            },
            None => auto_boundary(ps, counter, 128),
        },
    }
}

/// `--boundary`, as bytes.
pub open spec fn dash_boundary(b: Seq<char>) -> Seq<u8> {
    seq![0x2du8, 0x2du8] + encode_utf8(b)
}

/// A render tree written: its top-level header fields, its body, and the
/// boundary counter afterwards.
pub open spec fn rendered(p: RenderPartView, counter: int, soft: Option<usize>, depth: int) -> Result<
    (Seq<FieldView>, Seq<u8>, int),
    RenderDefect,
>
    decreases p, 0int, 0int,
{
    if depth > 100 {
        Err(RenderDefect::TooDeep)
    } else {
        match p {
            RenderPartView::Leaf { headers, body } => Ok((headers, body, counter)),
            RenderPartView::Multipart { content_type, boundary, parts } => {
                if !crate::wire::mime_parse::starts_with_chars(
                    crate::text::ascii_lower(media_prefix(content_type)),
                    "multipart/"@,
                ) {
                    Err(RenderDefect::NotMultipart)
                } else if parts.len() == 0 {
                    Err(RenderDefect::EmptyParts)
                } else {
                    match chosen_boundary(content_type, boundary, parts, counter) {
                        Err(d) => Err(d),
                        Ok((bv, c1)) => if parts_conflict(parts, bv) {
                            Err(RenderDefect::Boundary(BoundaryDefect::Invalid))
                        } else {
                            let ctv = if boundary_param(content_type) is Some {
                                content_type
                            } else {
                                content_type + "; boundary=\""@ + bv + "\""@
                            };
                            match children_rendered(parts, 0, bv, c1, soft, depth + 1) {
                                Err(d) => Err(d),
                                Ok((body, c2)) => Ok(
                                    (
                                        seq![field("Content-Type"@, ctv)],
                                        body + dash_boundary(bv) + seq![0x2du8, 0x2du8] + crlf(),
                                        c2,
                                    ),
                                ),
                            }
                        },
                    }
                }
            },
        }
    }
}

/// One child of a multipart node written after its delimiter line: its
/// header fields, a blank line, its body, CRLF; and the counter after it. A
/// child whose body holds a delimiter line of the node is refused.
pub open spec fn child_chunk(p: RenderPartView, b: Seq<char>, counter: int, soft: Option<usize>, depth: int) -> Result<
    (Seq<u8>, int),
    RenderDefect,
>
    decreases p, 1int, 0int,
{
    match rendered(p, counter, soft, depth) {
        Err(d) => Err(d),
        Ok((hs, pb, c1)) => if has_delimiter_line(pb, b) {
            Err(RenderDefect::Boundary(BoundaryDefect::Invalid))
        } else {
            match fields_bytes(hs, 0, soft) {
                Err(d) => Err(d),
                Ok(fb) => Ok((dash_boundary(b) + crlf() + fb + crlf() + pb + crlf(), c1)),
            }
        },
    }
}

/// The children `k..` of a multipart node written one after another.
pub open spec fn children_rendered(
    ps: Seq<RenderPartView>,
    k: int,
    b: Seq<char>,
    counter: int,
    soft: Option<usize>,
    depth: int,
) -> Result<(Seq<u8>, int), RenderDefect>
    decreases ps, 2int, ps.len() - k,
{
    if k < 0 || k >= ps.len() {
        Ok((seq![], counter))
    } else {
        match child_chunk(ps[k], b, counter, soft, depth) {
            Err(d) => Err(d),
            Ok((chunk, c1)) => match children_rendered(ps, k + 1, b, c1, soft, depth) {
                Err(d) => Err(d),
                Ok((rest, c2)) => Ok((chunk + rest, c2)),
            },
        }
    }
}

/// Writes header fields onto `out`.
pub fn push_fields(out: &mut Vec<u8>, fields: &Vec<(String, String)>, soft_fold_at: Option<usize>) -> (r: Result<
    (),
    MessageRenderError,
>)
    ensures
        match fields_bytes(field_views(fields@), 0, soft_fold_at) {
            Ok(b) => r is Ok && final(out)@ == old(out)@ + b,
            Err(d) => r matches Err(e) && render_defect_is(e, d),
        },
{
    let ghost hs = field_views(fields@);
    let mut k: usize = 0;
    while k < fields.len()
        invariant
            k <= fields@.len(),
            hs == field_views(fields@),
            fields_bytes(hs, 0, soft_fold_at) == match fields_bytes(hs, k as int, soft_fold_at) {
                Ok(rest) => Ok(out@.subrange(old(out)@.len() as int, out@.len() as int) + rest),
                Err(d) => Err(d),
            },
            old(out)@.len() <= out@.len(),
            out@.subrange(0, old(out)@.len() as int) == old(out)@,
        decreases fields@.len() - k,
    {
        let ghost before = out@;
        assert(hs[k as int] == (fields@[k as int].0@, fields@[k as int].1@));
        match crate::wire::header::push_header_line(out, fields[k].0.as_str(), fields[k].1.as_str(), soft_fold_at) {
            Ok(()) => {},
            Err(e) => return Err(e),
        }
        proof {
            let added = out@.subrange(before.len() as int, out@.len() as int);
            let so_far = before.subrange(old(out)@.len() as int, before.len() as int);
            match crate::wire::header::rendered_field(hs[k as int].0, hs[k as int].1, soft_fold_at) {
                Ok(bb) => {
                    assert(added =~= bb);
                },
                Err(_) => {},
            }
            assert(out@.subrange(old(out)@.len() as int, out@.len() as int) =~= so_far + added);
            assert(out@.subrange(0, old(out)@.len() as int) =~= old(out)@);
            match fields_bytes(hs, k + 1, soft_fold_at) {
                Ok(rest) => {
                    assert(so_far + (added + rest) =~= (so_far + added) + rest);
                },
                Err(_) => {},
            }
        }
        k = k + 1;
    }
    proof {
        let got = out@.subrange(old(out)@.len() as int, out@.len() as int);
        assert(got + Seq::<u8>::empty() =~= got);
        assert(out@ =~= old(out)@ + got);
    }
    Ok(())
}

} // verus!

verus! {

fn boundary_equal(a: &str, b: &str) -> (r: bool)
    ensures
        r == (a@ == b@),
{
    crate::text::str_eq(a, b)
}

/// Picks the boundary of a multipart node (see `chosen_boundary`), and
/// whether it came from the content type.
#[verifier::loop_isolation(false)]
fn choose_boundary(
    content_type: &str,
    boundary: &Option<String>,
    parts: &Vec<RenderPart>,
    boundary_counter: &mut usize,
) -> (r: Result<(String, bool), MessageRenderError>)
    ensures
        match chosen_boundary(
            content_type@,
            crate::text::opt_view(*boundary),
            render_views(parts@),
            *old(boundary_counter) as int,
        ) {
            Ok((b, c)) => r matches Ok((s, h)) && s@ == b && *final(boundary_counter) as int == c && h == (
            boundary_param(content_type@) is Some),
            Err(d) => r matches Err(e) && render_defect_is(e, d),
        },
{
    let header_boundary = extract_boundary_param(content_type);
    match header_boundary {
        Some(hb) => {
            match validate_boundary(hb.as_str()) {
                Ok(()) => {},
                Err(e) => return Err(e),
            }
            match boundary {
                Some(explicit) => {
                    match validate_boundary(explicit.as_str()) {
                        Ok(()) => {},
                        Err(e) => return Err(e),
                    }
                    if !boundary_equal(hb.as_str(), explicit.as_str()) {
                        return Err(MessageRenderError::MismatchedMimeBoundary);
                    }
                },
                None => {},
            }
            Ok((hb, true))
        },
        None => {
            match boundary {
                Some(value) => {
                    match validate_boundary(value.as_str()) {
                        Ok(()) => {},
                        Err(e) => return Err(e),
                    }
                    Ok((value.clone(), false))
                },
                None => {
                    let ghost ps = render_views(parts@);
                    let mut chosen: Option<String> = None;
                    let mut attempt: usize = 0;
                    while attempt < 128 && chosen.is_none()
                        invariant
                            attempt <= 128,
                            chosen is None ==> auto_boundary(ps, *old(boundary_counter) as int, 128) == auto_boundary(
                                ps,
                                *boundary_counter as int,
                                128 - attempt,
                            ),
                            chosen matches Some(c) ==> auto_boundary(ps, *old(boundary_counter) as int, 128) == Ok::<
                                (Seq<char>, int),
                                RenderDefect,
                            >((c@, *boundary_counter as int)),
                        decreases 128 - attempt,
                    {
                        let candidate = next_boundary(boundary_counter);
                        match validate_boundary(candidate.as_str()) {
                            Ok(()) => {},
                            Err(e) => return Err(e),
                        }
                        if !multipart_parts_conflict_with_boundary(parts.as_slice(), candidate.as_str()) {
                            chosen = Some(candidate);
                        }
                        attempt = attempt + 1;
                    }
                    match chosen {
                        Some(value) => Ok((value, false)),
                        None => Err(MessageRenderError::InvalidMimeBoundary),
                    }
                },
            }
        },
    }
}

} // verus!

verus! {

/// Writes one child of a multipart node, after its delimiter line.
#[verifier::rlimit(40)]
#[verifier::spinoff_prover]
fn render_child(
    part: &RenderPart,
    boundary: &str,
    boundary_counter: &mut usize,
    soft_fold_at: Option<usize>,
    depth: usize,
    body: &mut Vec<u8>,
) -> (r: Result<(), MessageRenderError>)
    ensures
        match child_chunk(render_view(*part), boundary@, *old(boundary_counter) as int, soft_fold_at, depth as int) {
            Ok((chunk, c)) => r is Ok && final(body)@ == old(body)@ + chunk && *final(boundary_counter) as int == c,
            Err(d) => r matches Err(e) && render_defect_is(e, d),
        },
    decreases part, 1int, 0int,
{
    let ghost before = body@;
    body.push(0x2d);
    body.push(0x2d);
    push_bytes(body, boundary.as_bytes());
    body.push(13);
    body.push(10);
    let (part_headers, part_body) = match render_part(part, boundary_counter, soft_fold_at, depth) {
        Ok(x) => x,
        Err(e) => return Err(e),
    };
    if contains_boundary_delimiter_line(part_body.as_slice(), boundary) {
        return Err(MessageRenderError::InvalidMimeBoundary);
    }
    let ghost mid = body@;
    match push_fields(body, &part_headers, soft_fold_at) {
        Ok(()) => {},
        Err(e) => return Err(e),
    }
    let ghost fb = body@.subrange(mid.len() as int, body@.len() as int);
    assert(body@ =~= mid + fb);
    body.push(13);
    body.push(10);
    push_bytes(body, part_body.as_slice());
    body.push(13);
    body.push(10);
    assert(body@ =~= before + (dash_boundary(boundary@) + crlf() + fb + crlf() + part_body@ + crlf()));
    Ok(())
}

/// Writes the children of a multipart node with boundary `boundary`.
fn render_children(
    parts: &Vec<RenderPart>,
    boundary: &str,
    boundary_counter: &mut usize,
    soft_fold_at: Option<usize>,
    depth: usize,
) -> (r: Result<Vec<u8>, MessageRenderError>)
    ensures
        match children_rendered(
            render_views(parts@),
            0,
            boundary@,
            *old(boundary_counter) as int,
            soft_fold_at,
            depth as int,
        ) {
            Ok((b, c)) => r matches Ok(body) && body@ == b && *final(boundary_counter) as int == c,
            Err(d) => r matches Err(e) && render_defect_is(e, d),
        },
    decreases parts, 2int, 0int,
{
    let ghost ps = render_views(parts@);
    let ghost bv = boundary@;
    let ghost c0 = *old(boundary_counter) as int;
    let mut body: Vec<u8> = Vec::new();
    let mut i: usize = 0;
    while i < parts.len()
        invariant
            i <= parts@.len(),
            ps == render_views(parts@),
            bv == boundary@,
            c0 == *old(boundary_counter) as int,
            children_rendered(ps, 0, bv, c0, soft_fold_at, depth as int) == match children_rendered(
                ps,
                i as int,
                bv,
                *boundary_counter as int,
                soft_fold_at,
                depth as int,
            ) {
                Ok((rest, c2)) => Ok::<(Seq<u8>, int), RenderDefect>((body@ + rest, c2)),
                Err(d) => Err(d),
            },
        decreases parts@.len() - i,
    {
        proof {
            assert(decreases_to!(*parts => parts@));
            assert(decreases_to!(parts@ => parts@[i as int]));
            assert(ps[i as int] == render_view(parts@[i as int]));
        }
        let ghost before = body@;
        let ghost cb = *boundary_counter as int;
        match render_child(&parts[i], boundary, boundary_counter, soft_fold_at, depth, &mut body) {
            Ok(()) => {},
            Err(e) => return Err(e),
        }
        proof {
            match child_chunk(ps[i as int], bv, cb, soft_fold_at, depth as int) {
                Ok((chunk, c1)) => {
                    assert(body@ == before + chunk);
                    assert(*boundary_counter as int == c1);
                    match children_rendered(ps, i + 1, bv, c1, soft_fold_at, depth as int) {
                        Ok((rest, c2)) => {
                            assert(before + (chunk + rest) =~= body@ + rest);
                        },
                        Err(_) => {},
                    }
                },
                Err(_) => {},
            }
        }
        i = i + 1;
    }
    assert(body@ + Seq::<u8>::empty() =~= body@);
    Ok(body)
}

/// Renders a render tree: its top-level header fields and its body.
pub fn render_part(part: &RenderPart, boundary_counter: &mut usize, soft_fold_at: Option<usize>, depth: usize) -> (r: Result<
    (Vec<(String, String)>, Vec<u8>),
    MessageRenderError,
>)
    ensures
        match rendered(render_view(*part), *old(boundary_counter) as int, soft_fold_at, depth as int) {
            Ok((hs, b, c)) => r matches Ok((h, body)) && field_views(h@) == hs && body@ == b
                && *final(boundary_counter) as int == c,
            Err(d) => r matches Err(e) && render_defect_is(e, d),
        },
    decreases part, 0int, 0int,
{
    if depth > MAX_MULTIPART_DEPTH {
        return Err(MessageRenderError::MimeNestingTooDeep);
    }
    match part {
        RenderPart::Leaf { headers, body } => {
            let mut h: Vec<(String, String)> = Vec::new();
            let mut k: usize = 0;
            while k < headers.len()
                invariant
                    k <= headers@.len(),
                    h@.len() == k,
                    forall|j: int| 0 <= j < k ==> (#[trigger] h@[j]).0@ == headers@[j].0@ && h@[j].1@ == headers@[j].1@,
                decreases headers@.len() - k,
            {
                let (n, v) = pair(headers[k].0.as_str(), headers[k].1.as_str());
                h.push((n, v));
                k = k + 1;
            }
            assert(field_views(h@) =~= field_views(headers@));
            let mut b: Vec<u8> = Vec::new();
            push_bytes(&mut b, body.as_slice());
            assert(b@ =~= body@);
            Ok((h, b))
        },
        RenderPart::Multipart { content_type, boundary, parts } => {
            let ghost pv = render_view(*part);
            assert(pv->Multipart_parts =~= render_views(parts@));
            let media = media_prefix_exec(content_type.as_str());
            let mv = str_chars(media.as_str());
            let lowered = crate::text::lower_string(mv.as_slice(), 0, mv.len());
            assert(mv@.subrange(0, mv@.len() as int) =~= mv@);
            if !crate::wire::mime_parse::starts_with_multipart(lowered.as_str()) {
                return Err(MessageRenderError::InvalidMultipartContentType);
            }
            if parts.len() == 0 {
                return Err(MessageRenderError::EmptyMultipartParts);
            }
            let (boundary_value, has_header_boundary) = match choose_boundary(
                content_type.as_str(),
                boundary,
                parts,
                boundary_counter,
            ) {
                Ok(x) => x,
                Err(e) => return Err(e),
            };
            if multipart_parts_conflict_with_boundary(parts.as_slice(), boundary_value.as_str()) {
                return Err(MessageRenderError::InvalidMimeBoundary);
            }
            let mut content_type_value = content_type.as_str().to_owned();
            if !has_header_boundary {
                push_str(&mut content_type_value, "; boundary=\"");
                push_str(&mut content_type_value, boundary_value.as_str());
                push_str(&mut content_type_value, "\"");
            }
            let ghost ctv = content_type_value@;
            let mut headers: Vec<(String, String)> = Vec::new();
            headers.push(("Content-Type".to_owned(), content_type_value));
            let ghost bv = boundary_value@;
            proof {
                assert(decreases_to!(*part => part->parts));
            }
            let mut body = match render_children(parts, boundary_value.as_str(), boundary_counter, soft_fold_at, depth + 1) {
                Ok(b) => b,
                Err(e) => return Err(e),
            };
            let ghost children = body@;
            body.push(0x2d);
            body.push(0x2d);
            push_bytes(&mut body, boundary_value.as_str().as_bytes());
            body.push(0x2d);
            body.push(0x2d);
            body.push(13);
            body.push(10);
            proof {
                assert(body@ =~= children + dash_boundary(bv) + seq![0x2du8, 0x2du8] + crlf());
                assert(field_views(headers@) =~= seq![field("Content-Type"@, ctv)]);
            }
            Ok((headers, body))
        },
    }
}

} // verus!

verus! {

// ---------------------------------------------------------------------------
// The body of a message with its attachments
// ---------------------------------------------------------------------------

/// Why a message body cannot be rendered.
pub enum PayloadDefect {
    Render(RenderDefect),
    BadContentId,
    UnsupportedAttachment,
}

pub open spec fn payload_error_is(e: MessageRenderError, d: PayloadDefect) -> bool {
    match d {
        PayloadDefect::Render(r) => render_defect_is(e, r),
        PayloadDefect::BadContentId => e is InvalidContentId,
        PayloadDefect::UnsupportedAttachment => e is UnsupportedAttachmentBody,
    }
}

/// Attachments `k..` as MIME leaves; the first failure wins.
pub open spec fn attachment_leaves(a: Seq<crate::message::AttachmentView>, k: int) -> Result<Seq<RenderPartView>, PayloadDefect>
    decreases a.len() - k,
{
    if k < 0 || k >= a.len() {
        Ok(seq![])
    } else {
        match crate::wire::attachment::attachment_leaf(a[k]) {
            Err(true) => Err(PayloadDefect::BadContentId),
            Err(false) => Err(PayloadDefect::UnsupportedAttachment),
            Ok(l) => match attachment_leaves(a, k + 1) {
                Ok(rest) => Ok(seq![l] + rest),
                Err(d) => Err(d),
            },
        }
    }
}

/// The tree of a body with attachments: inline ones wrap the body in
/// `multipart/related`, regular ones then wrap that in `multipart/mixed`.
pub open spec fn wrapped_tree(root: RenderPartView, a: Seq<crate::message::AttachmentView>) -> Result<
    RenderPartView,
    PayloadDefect,
> {
    let inline = crate::wire::attachment::attachments_where(a, a.len() as int, true);
    let regular = crate::wire::attachment::attachments_where(a, a.len() as int, false);
    let with_inline = if inline.len() == 0 {
        Ok(root)
    } else {
        match attachment_leaves(inline, 0) {
            Err(d) => Err(d),
            Ok(ls) => Ok(
                RenderPartView::Multipart {
                    content_type: "multipart/related; type=\""@ + render_media_type(root) + "\""@,
                    boundary: None,
                    parts: seq![root] + ls,
                },
            ),
        }
    };
    match with_inline {
        Err(d) => Err(d),
        Ok(t) => if regular.len() == 0 {
            Ok(t)
        } else {
            match attachment_leaves(regular, 0) {
                Err(d) => Err(d),
                Ok(ls) => Ok(
                    RenderPartView::Multipart { content_type: "multipart/mixed"@, boundary: None, parts: seq![t] + ls },
                ),
            }
        },
    }
}

/// A text body sent without MIME: ASCII with no line over 998 bytes.
pub open spec fn plain_text_body(body: BodyView) -> Option<Seq<char>> {
    match body {
        BodyView::Text(t) => if is_ascii_chars(t) && !overlong_from(canonical_text(t), 0) {
            Some(t)
        } else {
            None
        },
        _ => None,
    }
}

/// What goes below a message's own header fields: the MIME fields (if
/// any), the body bytes, and whether the body is MIME.
pub open spec fn render_payload(body: BodyView, a: Seq<crate::message::AttachmentView>, soft: Option<usize>) -> Result<
    (Seq<FieldView>, Seq<u8>, bool),
    PayloadDefect,
> {
    let tree: Result<RenderPartView, PayloadDefect> = if a.len() == 0 {
        match body {
            BodyView::Text(t) => Ok(text_leaf("text/plain"@, t)),
            _ => match root_render_view(body) {
                Some(r) => Ok(r),
                None => Err(PayloadDefect::Render(RenderDefect::TooDeep)),
            },
        }
    } else {
        match root_render_view(body) {
            None => Err(PayloadDefect::Render(RenderDefect::TooDeep)),
            Some(r) => wrapped_tree(r, a),
        }
    };
    if a.len() == 0 && plain_text_body(body) is Some {
        Ok((seq![], canonical_text(plain_text_body(body)->0), false))
    } else {
        match tree {
            Err(d) => Err(d),
            Ok(t) => match rendered(t, 0, soft, 0) {
                Err(d) => Err(PayloadDefect::Render(d)),
                Ok((hs, b, _)) => Ok((hs, b, true)),
            },
        }
    }
}

fn attachment_parts(atts: &Vec<&crate::message::Attachment>, parts: &mut Vec<RenderPart>) -> (r: Result<
    (),
    MessageRenderError,
>)
    ensures
        match attachment_leaves(crate::wire::attachment::attachment_ref_views(atts@), 0) {
            Ok(ls) => r is Ok && render_views(final(parts)@) == render_views(old(parts)@) + ls,
            Err(d) => r matches Err(e) && payload_error_is(e, d),
        },
{
    let ghost a = crate::wire::attachment::attachment_ref_views(atts@);
    let ghost start = render_views(parts@);
    let mut k: usize = 0;
    while k < atts.len()
        invariant
            k <= atts@.len(),
            a == crate::wire::attachment::attachment_ref_views(atts@),
            start == render_views(old(parts)@),
            attachment_leaves(a, 0) == match attachment_leaves(a, k as int) {
                Ok(rest) => Ok(render_views(parts@).subrange(start.len() as int, render_views(parts@).len() as int) + rest),
                Err(d) => Err(d),
            },
            start.len() <= render_views(parts@).len(),
            render_views(parts@).subrange(0, start.len() as int) == start,
        decreases atts@.len() - k,
    {
        assert(a[k as int] == atts@[k as int]@);
        let p = match crate::wire::attachment::attachment_to_mime_part(atts[k]) {
            Ok(p) => p,
            Err(e) => return Err(e),
        };
        let ghost before = render_views(parts@);
        parts.push(p);
        proof {
            let now = render_views(parts@);
            assert(now =~= before.push(render_view(p)));
            let got0 = before.subrange(start.len() as int, before.len() as int);
            assert(now.subrange(start.len() as int, now.len() as int) =~= got0.push(render_view(p)));
            assert(now.subrange(0, start.len() as int) =~= start);
            match attachment_leaves(a, k + 1) {
                Ok(rest) => {
                    assert(got0 + (seq![render_view(p)] + rest) =~= got0.push(render_view(p)) + rest);
                },
                Err(_) => {},
            }
        }
        k = k + 1;
    }
    proof {
        let now = render_views(parts@);
        let got = now.subrange(start.len() as int, now.len() as int);
        assert(got + Seq::<RenderPartView>::empty() =~= got);
        assert(now =~= start + got);
    }
    Ok(())
}

} // verus!

verus! {

fn render_tree(root: &RenderPart, soft_fold_at: Option<usize>) -> (r: Result<
    (Vec<(String, String)>, Vec<u8>, bool),
    MessageRenderError,
>)
    ensures
        match rendered(render_view(*root), 0, soft_fold_at, 0) {
            Ok((hs, b, _)) => r matches Ok((h, body, m)) && field_views(h@) == hs && body@ == b && m,
            Err(d) => r matches Err(e) && payload_error_is(e, PayloadDefect::Render(d)),
        },
{
    let mut boundary_counter: usize = 0;
    match render_part(root, &mut boundary_counter, soft_fold_at, 0) {
        Ok((headers, body)) => Ok((headers, body, true)),
        Err(e) => Err(e),
    }
}

/// The MIME fields, body bytes, and MIME flag of a message.
pub fn build_render_payload(message: &crate::message::Message, soft_fold_at: Option<usize>) -> (r: Result<
    (Vec<(String, String)>, Vec<u8>, bool),
    MessageRenderError,
>)
    ensures
        match render_payload(message@.body, message@.attachments, soft_fold_at) {
            Ok((hs, b, m)) => r matches Ok((h, body, mm)) && field_views(h@) == hs && body@ == b && mm == m,
            Err(d) => r matches Err(e) && payload_error_is(e, d),
        },
{
    let attachments = message.attachments();
    if attachments.len() == 0 {
        match message.body() {
            Body::Text(text) => {
                let canonical_body = canonicalize_text_line_endings(text.as_str());
                if text.as_str().is_ascii() && !contains_overlong_physical_line(canonical_body.as_slice()) {
                    return Ok((Vec::new(), canonical_body, false));
                }
                let root = renderable_text_leaf("text/plain", text.as_str());
                return render_tree(&root, soft_fold_at);
            },
            _ => {
                let root = match body_to_root_part(message.body()) {
                    Ok(r) => r,
                    Err(e) => return Err(e),
                };
                return render_tree(&root, soft_fold_at);
            },
        }
    }
    let root_body = match body_to_root_part(message.body()) {
        Ok(r) => r,
        Err(e) => return Err(e),
    };
    let (inline, regular) = crate::wire::attachment::partition_attachments(attachments);
    let mut content_root = root_body;
    if inline.len() > 0 {
        let related_type = media_type_of_render_part(&content_root);
        let mut content_type = "multipart/related; type=\"".to_owned();
        push_str(&mut content_type, related_type.as_str());
        push_str(&mut content_type, "\"");
        let mut parts: Vec<RenderPart> = Vec::new();
        let ghost root_view = render_view(content_root);
        parts.push(content_root);
        assert(render_views(parts@) =~= seq![root_view]);
        match attachment_parts(&inline, &mut parts) {
            Ok(()) => {},
            Err(e) => return Err(e),
        }
        content_root = RenderPart::Multipart { content_type, boundary: None, parts };
        proof {
            assert(render_view(content_root)->Multipart_parts =~= render_views(parts@));
        }
    }
    if regular.len() > 0 {
        let mut parts: Vec<RenderPart> = Vec::new();
        let ghost root_view = render_view(content_root);
        parts.push(content_root);
        assert(render_views(parts@) =~= seq![root_view]);
        match attachment_parts(&regular, &mut parts) {
            Ok(()) => {},
            Err(e) => return Err(e),
        }
        content_root = RenderPart::Multipart { content_type: "multipart/mixed".to_owned(), boundary: None, parts };
        proof {
            assert(render_view(content_root)->Multipart_parts =~= render_views(parts@));
        }
    }
    render_tree(&content_root, soft_fold_at)
}

} // verus!
