//! Parsing message bodies into text or MIME trees.
use vstd::prelude::*;
use vstd::utf8::encode_utf8;
use crate::message::{Body, BodyView};
use crate::mime_types::{
    ContentDisposition, ContentTransferEncoding, ContentType, MimePart, MimePartView, encoding_name,
    encoding_name_of, encoding_token_ok, lemma_encoding_name_of, mime_view, normalize_value, opt_disposition_view,
    opt_encoding_view,
};
use crate::text::{eq_ignore_case, push_bytes, push_str, str_chars, str_eq, str_eq_ignore_case, trim, utf8_lossy, utf8_lossy_string};
use crate::wire::MessageParseError;
use crate::wire::content_type::{ContentTypeHeader, ContentTypeHeaderView, content_type_header};
use crate::wire::header::{
    FieldView, LineDefect, field_views, header_fields, header_split, lemma_lf_at, lf_at, line_error_is,
    parse_header_lines_bytes, split_headers_and_body_bytes,
};
use crate::wire::shared::{MAX_MULTIPART_DEPTH, MAX_MULTIPART_PARTS, latin1_chars, latin1_string, lwsp_trim_end, trim_lwsp_end};
use crate::wire::transfer_encoding::{
    decode_transfer_encoded_body, decoded_as, multipart_encoding_details, multipart_encoding_ok, transfer_decoded,
    validate_multipart_transfer_encoding,
};

verus! {

// ---------------------------------------------------------------------------
// Splitting a multipart body
// ---------------------------------------------------------------------------

/// `v` without one trailing line break (CRLF or LF).
pub open spec fn strip_separator(v: Seq<u8>) -> Seq<u8> {
    if v.len() >= 2 && v[v.len() - 2] == 13 && v[v.len() - 1] == 10 {
        v.subrange(0, v.len() - 2)
    } else if v.len() >= 1 && v[v.len() - 1] == 10 {
        v.subrange(0, v.len() - 1)
    } else {
        v
    }
}

/// The line of `body` starting at `i` as compared with a delimiter: without
/// its LF, a CR before it, and trailing spaces and tabs.
pub open spec fn delimiter_line(body: Seq<u8>, i: int) -> Seq<u8> {
    let e = lf_at(body, i);
    let c = if e > i && body[e - 1] == 13 {
        e - 1
    } else {
        e
    };
    let raw = body.subrange(i, c);
    raw.subrange(0, lwsp_trim_end(raw, raw.len() as int))
}

/// Progress through a multipart body: finished parts, the part being
/// collected, whether a part is open, whether a delimiter was seen.
pub struct SplitState {
    pub parts: Seq<Seq<u8>>,
    pub current: Seq<u8>,
    pub in_part: bool,
    pub opening: bool,
}

/// The parts of a multipart body from line `i` on: lines between
/// delimiters (`--boundary`) are collected, each part without the line
/// break before the next delimiter; the close delimiter (`--boundary--`)
/// ends the body. At most 1024 parts.
pub open spec fn split_from(body: Seq<u8>, i: int, delim: Seq<u8>, close: Seq<u8>, st: SplitState) -> Result<
    Seq<Seq<u8>>,
    Seq<char>,
>
    decreases body.len() - i,
{
    if i < 0 || i > body.len() {
        Err("multipart body missing closing boundary"@)
    } else {
        let e = lf_at(body, i);
        let line = delimiter_line(body, i);
        if (line == delim || line == close) && st.in_part && st.parts.len() >= 1024 {
            Err("multipart body exceeds maximum of 1024 parts"@)
        } else {
            let parts = if st.in_part {
                st.parts.push(strip_separator(st.current))
            } else {
                st.parts
            };
            if line == close {
                if !st.opening {
                    Err("multipart body missing opening boundary"@)
                } else {
                    Ok(parts)
                }
            } else {
                let next = if line == delim {
                    SplitState { parts, current: seq![], in_part: true, opening: true }
                } else if st.in_part {
                    SplitState { current: st.current + body.subrange(i, e) + seq![10u8], ..st }
                } else {
                    st
                };
                if e >= body.len() || e < i {
                    Err("multipart body missing closing boundary"@)
                } else {
                    split_from(body, e + 1, delim, close, next)
                }
            }
        }
    }
}

/// `--boundary`, as bytes.
pub open spec fn delimiter_of(boundary: Seq<char>) -> Seq<u8> {
    seq![0x2du8, 0x2du8] + encode_utf8(boundary)
}

/// The parts of a multipart body, or the error text.
pub open spec fn multipart_split(body: Seq<u8>, boundary: Seq<char>) -> Result<Seq<Seq<u8>>, Seq<char>> {
    split_from(
        body,
        0,
        delimiter_of(boundary),
        delimiter_of(boundary) + seq![0x2du8, 0x2du8],
        SplitState { parts: seq![], current: seq![], in_part: false, opening: false },
    )
}

fn strip_boundary_separator_newline(value: &mut Vec<u8>)
    ensures
        final(value)@ == strip_separator(old(value)@),
{
    let n = value.len();
    if n >= 2 && value[n - 2] == 13 && value[n - 1] == 10 {
        value.truncate(n - 2);
        assert(value@ =~= strip_separator(old(value)@));
        return;
    }
    if n >= 1 && value[n - 1] == 10 {
        value.truncate(n - 1);
        assert(value@ =~= strip_separator(old(value)@));
    }
}

pub open spec fn byte_vecs(v: Seq<Vec<u8>>) -> Seq<Seq<u8>> {
    Seq::new(v.len(), |i: int| v[i]@)
}

pub fn mime_error(details: &str) -> (r: MessageParseError)
    ensures
        r matches MessageParseError::MimeBodyParse { details: d } && d@ == details@,
{
    MessageParseError::MimeBodyParse { details: details.to_owned() }
}

/// The error that reports the text `m`.
pub open spec fn mime_error_is(e: MessageParseError, m: Seq<char>) -> bool {
    e matches MessageParseError::MimeBodyParse { details } && details@ == m
}

pub fn split_multipart_parts(body: &[u8], boundary: &str) -> (r: Result<Vec<Vec<u8>>, MessageParseError>)
    ensures
        match multipart_split(body@, boundary@) {
            Ok(ps) => r matches Ok(v) && byte_vecs(v@) == ps,
            Err(m) => r matches Err(e) && mime_error_is(e, m),
        },
{
    let mut delimiter: Vec<u8> = Vec::new();
    delimiter.push(0x2d);
    delimiter.push(0x2d);
    push_bytes(&mut delimiter, boundary.as_bytes());
    let mut end_delimiter: Vec<u8> = Vec::new();
    push_bytes(&mut end_delimiter, delimiter.as_slice());
    end_delimiter.push(0x2d);
    end_delimiter.push(0x2d);
    let ghost delim = delimiter_of(boundary@);
    let ghost close = delim + seq![0x2du8, 0x2du8];
    assert(delimiter@ =~= delim);
    assert(end_delimiter@ =~= close);
    let mut parts: Vec<Vec<u8>> = Vec::new();
    let mut current: Vec<u8> = Vec::new();
    let mut in_part = false;
    let mut found_opening = false;
    let mut i: usize = 0;
    assert(byte_vecs(parts@) =~= Seq::<Seq<u8>>::empty());
    loop
        invariant
            i <= body@.len(),
            delimiter@ == delim,
            end_delimiter@ == close,
            !in_part ==> current@ == Seq::<u8>::empty(),
            multipart_split(body@, boundary@) == split_from(
                body@,
                i as int,
                delim,
                close,
                SplitState { parts: byte_vecs(parts@), current: current@, in_part, opening: found_opening },
            ),
        decreases body@.len() - i,
    {
        let ghost s = body@;
        let ghost st = SplitState { parts: byte_vecs(parts@), current: current@, in_part, opening: found_opening };
        let mut e = i;
        while e < body.len() && body[e] != 10
            invariant
                i <= e <= body@.len(),
                s == body@,
                lf_at(s, e as int) == lf_at(s, i as int),
            decreases body@.len() - e,
        {
            e = e + 1;
        }
        proof {
            lemma_lf_at(s, i as int);
        }
        let c = if e > i && body[e - 1] == 13 {
            e - 1
        } else {
            e
        };
        let t = trim_lwsp_end(body, i, c);
        assert(s.subrange(i as int, t as int) =~= delimiter_line(s, i as int)) by {
            let raw = s.subrange(i as int, c as int);
            assert(raw.subrange(0, lwsp_trim_end(raw, raw.len() as int)) =~= s.subrange(i as int, t as int));
        }
        let is_delim = crate::wire::shared::bytes_window_eq(body, i, t, delimiter.as_slice());
        let is_close = crate::wire::shared::bytes_window_eq(body, i, t, end_delimiter.as_slice());
        if (is_delim || is_close) && in_part && parts.len() >= MAX_MULTIPART_PARTS {
            return Err(mime_error("multipart body exceeds maximum of 1024 parts"));
        }
        if (is_delim || is_close) && in_part {
            let mut taken: Vec<u8> = Vec::new();
            std::mem::swap(&mut taken, &mut current);
            strip_boundary_separator_newline(&mut taken);
            let ghost before = byte_vecs(parts@);
            parts.push(taken);
            assert(byte_vecs(parts@) =~= before.push(strip_separator(st.current)));
        }
        if is_close {
            if !found_opening {
                return Err(mime_error("multipart body missing opening boundary"));
            }
            return Ok(parts);
        }
        if is_delim {
            in_part = true;
            found_opening = true;
        } else if in_part {
            let ghost cur0 = current@;
            push_bytes(&mut current, &body[i..e]);
            current.push(10);
            assert(current@ =~= cur0 + s.subrange(i as int, e as int) + seq![10u8]);
        }
        if e >= body.len() {
            return Err(mime_error("multipart body missing closing boundary"));
        }
        i = e + 1;
    }
}

// ---------------------------------------------------------------------------
// Text bodies
// ---------------------------------------------------------------------------

/// A text body decoded in its charset: ISO-8859-1 (or `latin1`) maps bytes
/// to code points, anything else is read as UTF-8 with invalid sequences
/// replaced.
pub open spec fn text_decoded(body: Seq<u8>, charset: Option<Seq<char>>) -> Seq<char> {
    match charset {
        Some(c) => if eq_ignore_case(c, "iso-8859-1"@) || eq_ignore_case(c, "latin1"@) {
            latin1_chars(body)
        } else {
            utf8_lossy(body)
        },
        None => utf8_lossy(body),
    }
}

pub fn decode_text_body(body: &[u8], charset: Option<&str>) -> (r: String)
    ensures
        r@ == text_decoded(
            body@,
            match charset {
                Some(c) => Some(c@),
                None => None,
            },
        ),
{
    match charset {
        None => utf8_lossy_string(body),
        Some(c) => {
            if str_eq_ignore_case(c, "iso-8859-1") || str_eq_ignore_case(c, "latin1") {
                let r = latin1_string(body, 0, body.len());
                assert(body@.subrange(0, body@.len() as int) =~= body@);
                return r;
            }
            utf8_lossy_string(body)
        },
    }
}

} // verus!

verus! {

// ---------------------------------------------------------------------------
// MIME parts
// ---------------------------------------------------------------------------

/// Why a body or part cannot be parsed: a bad header line, or bad MIME
/// structure or content (with the error text).
pub enum BodyDefect {
    Header(LineDefect),
    Mime(Seq<char>),
}

pub open spec fn body_error_is(e: MessageParseError, d: BodyDefect) -> bool {
    match d {
        BodyDefect::Header(l) => line_error_is(e, l),
        BodyDefect::Mime(m) => mime_error_is(e, m),
    }
}

pub open spec fn starts_with_chars(s: Seq<char>, p: Seq<char>) -> bool {
    p.len() <= s.len() && s.subrange(0, p.len() as int) == p
}

pub open spec fn depth_error() -> Seq<char> {
    "multipart nesting exceeds maximum depth of 100"@
}

/// What a part's headers say: its content type, transfer encoding (by
/// name) and disposition.
pub struct PartMeta {
    pub ct: ContentTypeHeaderView,
    pub cte: Option<Seq<char>>,
    pub disposition: Option<Seq<char>>,
}

/// A part without a `Content-Type` is `text/plain`.
pub open spec fn default_meta() -> PartMeta {
    PartMeta {
        ct: ContentTypeHeaderView {
            normalized: "text/plain"@,
            media_type: "text/plain"@,
            boundary: None,
            charset: None,
        },
        cte: None,
        disposition: None,
    }
}

/// Reading a part's fields from `k`: the last `Content-Type`,
/// `Content-Transfer-Encoding` and `Content-Disposition` win; an invalid
/// encoding or disposition is an error.
pub open spec fn part_meta_from(fields: Seq<FieldView>, k: int, m: PartMeta) -> Result<PartMeta, Seq<char>>
    decreases fields.len() - k,
{
    if k < 0 || k >= fields.len() {
        Ok(m)
    } else {
        let name = fields[k].0;
        let value = fields[k].1;
        if eq_ignore_case(name, "content-type"@) {
            part_meta_from(fields, k + 1, PartMeta { ct: content_type_header(value), ..m })
        } else if eq_ignore_case(name, "content-transfer-encoding"@) {
            if encoding_token_ok(value) {
                part_meta_from(fields, k + 1, PartMeta { cte: Some(encoding_name_of(trim(value))), ..m })
            } else {
                Err("invalid content-transfer-encoding `"@ + value + "`"@)
            }
        } else if eq_ignore_case(name, "content-disposition"@) {
            match normalize_value(value, false) {
                Some(d) => part_meta_from(fields, k + 1, PartMeta { disposition: Some(d), ..m }),
                None => Err("invalid content-disposition `"@ + value + "`"@),
            }
        } else {
            part_meta_from(fields, k + 1, m)
        }
    }
}

/// Transfer encodings allowed on a multipart part, by name.
pub open spec fn multipart_encoding_name_ok(cte: Option<Seq<char>>) -> bool {
    match cte {
        None => true,
        Some(n) => eq_ignore_case(n, "7bit"@) || eq_ignore_case(n, "8bit"@) || eq_ignore_case(n, "binary"@),
    }
}

/// A MIME part (headers, blank line, body) parsed at nesting `depth`.
pub open spec fn mime_part_parsed(part: Seq<u8>, depth: int) -> Result<MimePartView, BodyDefect>
    decreases 101 - depth, 1int, 0int,
{
    if depth > 100 || depth < 0 {
        Err(BodyDefect::Mime(depth_error()))
    } else {
        let sp = header_split(part);
        match header_fields(part.subrange(0, sp.0)) {
            Err(d) => Err(BodyDefect::Header(d)),
            Ok(fields) => match part_meta_from(fields, 0, default_meta()) {
                Err(m) => Err(BodyDefect::Mime(m)),
                Ok(meta) => {
                    let body = part.subrange(sp.1, part.len() as int);
                    if starts_with_chars(meta.ct.media_type, "multipart/"@) {
                        if !multipart_encoding_name_ok(meta.cte) {
                            Err(BodyDefect::Mime(multipart_encoding_details(meta.cte->0)))
                        } else {
                            multipart_parsed(body, meta.ct.normalized, meta.ct.boundary, depth)
                        }
                    } else {
                        match transfer_decoded(body, meta.cte) {
                            Err(m) => Err(BodyDefect::Mime(m)),
                            Ok(d) => match normalize_value(meta.ct.normalized, true) {
                                None => Err(BodyDefect::Mime("invalid content type `"@ + meta.ct.normalized + "`"@)),
                                Some(c) => Ok(
                                    MimePartView::Leaf {
                                        content_type: c,
                                        content_transfer_encoding: meta.cte,
                                        content_disposition: meta.disposition,
                                        body: d,
                                    },
                                ),
                            },
                        }
                    }
                },
            },
        }
    }
}

/// A multipart body with content type `ct_value` parsed at nesting `depth`:
/// its parts are parsed one level deeper.
pub open spec fn multipart_parsed(body: Seq<u8>, ct_value: Seq<char>, boundary: Option<Seq<char>>, depth: int) -> Result<
    MimePartView,
    BodyDefect,
>
    decreases 101 - depth, 0int, 0int,
{
    if depth > 100 || depth < 0 {
        Err(BodyDefect::Mime(depth_error()))
    } else {
        match boundary {
            None => Err(BodyDefect::Mime("multipart part is missing boundary parameter"@)),
            Some(b) => match multipart_split(body, b) {
                Err(m) => Err(BodyDefect::Mime(m)),
                Ok(ps) => match parts_parsed(ps, 0, depth + 1) {
                    Err(d) => Err(d),
                    Ok(views) => match normalize_value(ct_value, true) {
                        None => Err(BodyDefect::Mime("invalid multipart content type `"@ + ct_value + "`"@)),
                        Some(c) => Ok(MimePartView::Multipart { content_type: c, boundary: Some(b), parts: views }),
                    },
                },
            },
        }
    }
}

/// Parts `k..` parsed at nesting `depth`; the first error wins.
pub open spec fn parts_parsed(ps: Seq<Seq<u8>>, k: int, depth: int) -> Result<Seq<MimePartView>, BodyDefect>
    decreases 101 - depth, 2int, ps.len() - k,
{
    if k < 0 || k >= ps.len() || depth > 101 {
        Ok(seq![])
    } else {
        match mime_part_parsed(ps[k], depth) {
            Err(d) => Err(d),
            Ok(v) => match parts_parsed(ps, k + 1, depth) {
                Err(d) => Err(d),
                Ok(rest) => Ok(seq![v] + rest),
            },
        }
    }
}

/// The parsed result matches its specification.
pub open spec fn part_result_is(r: Result<MimePart, MessageParseError>, s: Result<MimePartView, BodyDefect>) -> bool {
    match s {
        Ok(v) => r matches Ok(p) && mime_view(p) == v,
        Err(d) => r matches Err(e) && body_error_is(e, d),
    }
}

fn depth_exceeded() -> (r: MessageParseError)
    ensures
        mime_error_is(r, depth_error()),
{
    mime_error("multipart nesting exceeds maximum depth of 100")
}

pub fn quoted_details(prefix: &str, value: &str) -> (r: MessageParseError)
    ensures
        mime_error_is(r, prefix@ + value@ + "`"@),
{
    let mut details = String::new();
    push_str(&mut details, prefix);
    push_str(&mut details, value);
    push_str(&mut details, "`");
    MessageParseError::MimeBodyParse { details }
}

pub fn starts_with_multipart(s: &str) -> (r: bool)
    ensures
        r == starts_with_chars(s@, "multipart/"@),
{
    let v = str_chars(s);
    let p = str_chars("multipart/");
    if p.len() > v.len() {
        return false;
    }
    let mut i: usize = 0;
    while i < p.len()
        invariant
            i <= p@.len() <= v@.len(),
            v@ == s@,
            p@ == "multipart/"@,
            forall|j: int| 0 <= j < i ==> v@[j] == p@[j],
        decreases p@.len() - i,
    {
        if v[i] != p[i] {
            assert(v@.subrange(0, p@.len() as int)[i as int] != p@[i as int]);
            return false;
        }
        i = i + 1;
    }
    assert(v@.subrange(0, p@.len() as int) =~= p@);
    true
}

#[verifier::loop_isolation(false)]
pub fn parse_mime_part(part: &[u8], depth: usize) -> (r: Result<MimePart, MessageParseError>)
    ensures
        part_result_is(r, mime_part_parsed(part@, depth as int)),
    decreases 101 - depth as int, 1int, 0int,
{
    if depth > MAX_MULTIPART_DEPTH {
        return Err(depth_exceeded());
    }
    let (he, bs) = split_headers_and_body_bytes(part);
    let parsed_headers = match parse_header_lines_bytes(&part[0..he]) {
        Ok(h) => h,
        Err(e) => return Err(e),
    };
    let ghost fields = field_views(parsed_headers@);
    let mut content_type = ContentTypeHeader {
        normalized: "text/plain".to_owned(),
        media_type: "text/plain".to_owned(),
        boundary: None,
        charset: None,
    };
    let mut content_transfer_encoding: Option<ContentTransferEncoding> = None;
    let mut content_disposition: Option<ContentDisposition> = None;
    let mut k: usize = 0;
    while k < parsed_headers.len()
        invariant
            k <= parsed_headers@.len(),
            fields == field_views(parsed_headers@),
            part_meta_from(fields, 0, default_meta()) == part_meta_from(
                fields,
                k as int,
                PartMeta {
                    ct: content_type@,
                    cte: opt_encoding_view(content_transfer_encoding),
                    disposition: opt_disposition_view(content_disposition),
                },
            ),
        decreases parsed_headers@.len() - k,
    {
        let name = parsed_headers[k].0.as_str();
        let value = parsed_headers[k].1.as_str();
        assert(fields[k as int] == (name@, value@));
        if str_eq_ignore_case(name, "content-type") {
            content_type = ContentTypeHeader::parse(value);
        } else if str_eq_ignore_case(name, "content-transfer-encoding") {
            match ContentTransferEncoding::from_str(value) {
                Ok(e) => {
                    proof {
                        lemma_encoding_name_of(e, trim(value@));
                    }
                    content_transfer_encoding = Some(e);
                },
                Err(_) => {
                    return Err(quoted_details("invalid content-transfer-encoding `", value));
                },
            }
        } else if str_eq_ignore_case(name, "content-disposition") {
            match ContentDisposition::from_str(value) {
                Ok(d) => {
                    content_disposition = Some(d);
                },
                Err(_) => {
                    return Err(quoted_details("invalid content-disposition `", value));
                },
            }
        }
        k = k + 1;
    }
    let body = &part[bs..part.len()];
    if starts_with_multipart(content_type.media_type.as_str()) {
        match validate_multipart_transfer_encoding(content_transfer_encoding.as_ref()) {
            Ok(()) => {},
            Err(e) => return Err(e),
        }
        return parse_multipart_body(body, content_type.normalized.as_str(), content_type.boundary, depth);
    }
    let decoded_body = match decode_transfer_encoded_body(
        body,
        match &content_transfer_encoding {
            Some(e) => Some(e.as_str()),
            None => None,
        },
    ) {
        Ok(d) => d,
        Err(e) => return Err(e),
    };
    let ct = match ContentType::from_str(content_type.normalized.as_str()) {
        Ok(ct) => ct,
        Err(_) => return Err(quoted_details("invalid content type `", content_type.normalized.as_str())),
    };
    Ok(
        MimePart::Leaf {
            content_type: ct,
            content_transfer_encoding,
            content_disposition,
            body: decoded_body,
        },
    )
}

#[verifier::loop_isolation(false)]
pub fn parse_multipart_body(body: &[u8], content_type_value: &str, boundary: Option<String>, depth: usize) -> (r: Result<
    MimePart,
    MessageParseError,
>)
    ensures
        part_result_is(r, multipart_parsed(body@, content_type_value@, crate::text::opt_view(boundary), depth as int)),
    decreases 101 - depth as int, 0int, 0int,
{
    if depth > MAX_MULTIPART_DEPTH {
        return Err(depth_exceeded());
    }
    let boundary = match boundary {
        Some(b) => b,
        None => return Err(mime_error("multipart part is missing boundary parameter")),
    };
    let parts = match split_multipart_parts(body, boundary.as_str()) {
        Ok(p) => p,
        Err(e) => return Err(e),
    };
    let ghost ps = byte_vecs(parts@);
    let mut parsed_parts: Vec<MimePart> = Vec::new();
    let mut i: usize = 0;
    while i < parts.len()
        invariant
            i <= parts@.len(),
            depth <= 100,
            ps == byte_vecs(parts@),
            parts_parsed(ps, 0, depth + 1) == match parts_parsed(ps, i as int, depth + 1) {
                Ok(rest) => Ok(Seq::new(parsed_parts@.len(), |j: int| mime_view(parsed_parts@[j])) + rest),
                Err(d) => Err(d),
            },
        decreases parts@.len() - i,
    {
        assert(parts@[i as int]@ == ps[i as int]);
        let p = match parse_mime_part(parts[i].as_slice(), depth + 1) {
            Ok(p) => p,
            Err(e) => return Err(e),
        };
        let ghost before = Seq::new(parsed_parts@.len(), |j: int| mime_view(parsed_parts@[j]));
        parsed_parts.push(p);
        proof {
            let now = Seq::new(parsed_parts@.len(), |j: int| mime_view(parsed_parts@[j]));
            assert(now =~= before + seq![mime_view(p)]);
            match parts_parsed(ps, i + 1, depth + 1) {
                Ok(rest) => {
                    assert(before + (seq![mime_view(p)] + rest) =~= now + rest);
                },
                Err(_) => {},
            }
        }
        i = i + 1;
    }
    let ct = match ContentType::from_str(content_type_value) {
        Ok(ct) => ct,
        Err(_) => return Err(quoted_details("invalid multipart content type `", content_type_value)),
    };
    let r = MimePart::Multipart { content_type: ct, boundary: Some(boundary), parts: parsed_parts };
    proof {
        let views = Seq::new(parsed_parts@.len(), |j: int| mime_view(parsed_parts@[j]));
        assert(views + Seq::<MimePartView>::empty() =~= views);
        assert(mime_view(r)->Multipart_parts =~= views);
    }
    Ok(r)
}

} // verus!

verus! {

// ---------------------------------------------------------------------------
// Message bodies
// ---------------------------------------------------------------------------

/// A message body parsed from its bytes, top-level `Content-Type` and
/// `Content-Transfer-Encoding`: no content type gives text; `text/plain` and
/// `text/html` give text in their charset; `multipart/*` gives a MIME tree;
/// anything else gives a single MIME leaf.
pub open spec fn body_parsed(raw: Seq<u8>, ct: Option<Seq<char>>, enc: Option<Seq<char>>) -> Result<
    BodyView,
    BodyDefect,
> {
    match ct {
        None => match transfer_decoded(raw, enc) {
            Err(m) => Err(BodyDefect::Mime(m)),
            Ok(d) => Ok(BodyView::Text(utf8_lossy(d))),
        },
        Some(v) => {
            let h = content_type_header(v);
            if h.media_type == "text/plain"@ {
                match transfer_decoded(raw, enc) {
                    Err(m) => Err(BodyDefect::Mime(m)),
                    Ok(d) => Ok(BodyView::Text(text_decoded(d, h.charset))),
                }
            } else if h.media_type == "text/html"@ {
                match transfer_decoded(raw, enc) {
                    Err(m) => Err(BodyDefect::Mime(m)),
                    Ok(d) => Ok(BodyView::Html(text_decoded(d, h.charset))),
                }
            } else if starts_with_chars(h.media_type, "multipart/"@) {
                if !multipart_encoding_name_ok(enc) {
                    Err(BodyDefect::Mime(multipart_encoding_details(enc->0)))
                } else {
                    match h.boundary {
                        None => Err(BodyDefect::Mime("multipart body is missing boundary parameter"@)),
                        Some(b) => match multipart_parsed(raw, h.normalized, Some(b), 0) {
                            Ok(m) => Ok(BodyView::Mime(m)),
                            Err(d) => Err(d),
                        },
                    }
                }
            } else {
                match transfer_decoded(raw, enc) {
                    Err(m) => Err(BodyDefect::Mime(m)),
                    Ok(d) => match normalize_value(h.normalized, true) {
                        None => Err(BodyDefect::Mime("invalid content type `"@ + h.normalized + "`"@)),
                        Some(c) => Ok(
                            BodyView::Mime(
                                MimePartView::Leaf {
                                    content_type: c,
                                    content_transfer_encoding: enc,
                                    content_disposition: None,
                                    body: d,
                                },
                            ),
                        ),
                    },
                }
            }
        },
    }
}

fn decode_root(raw: &[u8], cte: &Option<ContentTransferEncoding>) -> (r: Result<Vec<u8>, MessageParseError>)
    ensures
        decoded_as(r, transfer_decoded(raw@, opt_encoding_view(*cte))),
{
    decode_transfer_encoded_body(
        raw,
        match cte {
            Some(e) => Some(e.as_str()),
            None => None,
        },
    )
}

pub fn parse_body(raw_body: &[u8], root_content_type: Option<&str>, root_content_transfer_encoding: Option<
    ContentTransferEncoding,
>) -> (r: Result<Body, MessageParseError>)
    ensures
        match body_parsed(
            raw_body@,
            match root_content_type {
                Some(c) => Some(c@),
                None => None,
            },
            opt_encoding_view(root_content_transfer_encoding),
        ) {
            Ok(b) => r matches Ok(body) && crate::message::body_view(body) == b,
            Err(d) => r matches Err(e) && body_error_is(e, d),
        },
{
    let cte = root_content_transfer_encoding;
    let root = match root_content_type {
        None => {
            let decoded = match decode_root(raw_body, &cte) {
                Ok(d) => d,
                Err(e) => return Err(e),
            };
            return Ok(Body::Text(utf8_lossy_string(decoded.as_slice())));
        },
        Some(c) => c,
    };
    let content_type = ContentTypeHeader::parse(root);
    if str_eq(content_type.media_type.as_str(), "text/plain") {
        let decoded = match decode_root(raw_body, &cte) {
            Ok(d) => d,
            Err(e) => return Err(e),
        };
        let charset = match &content_type.charset {
            Some(c) => Some(c.as_str()),
            None => None,
        };
        return Ok(Body::Text(decode_text_body(decoded.as_slice(), charset)));
    }
    if str_eq(content_type.media_type.as_str(), "text/html") {
        let decoded = match decode_root(raw_body, &cte) {
            Ok(d) => d,
            Err(e) => return Err(e),
        };
        let charset = match &content_type.charset {
            Some(c) => Some(c.as_str()),
            None => None,
        };
        return Ok(Body::Html(decode_text_body(decoded.as_slice(), charset)));
    }
    if starts_with_multipart(content_type.media_type.as_str()) {
        match validate_multipart_transfer_encoding(cte.as_ref()) {
            Ok(()) => {},
            Err(e) => return Err(e),
        }
        let boundary = match content_type.boundary {
            Some(b) => b,
            None => return Err(mime_error("multipart body is missing boundary parameter")),
        };
        return match parse_multipart_body(raw_body, content_type.normalized.as_str(), Some(boundary), 0) {
            Ok(m) => Ok(Body::Mime(m)),
            Err(e) => Err(e),
        };
    }
    let decoded = match decode_root(raw_body, &cte) {
        Ok(d) => d,
        Err(e) => return Err(e),
    };
    let ct = match ContentType::from_str(content_type.normalized.as_str()) {
        Ok(ct) => ct,
        Err(_) => return Err(quoted_details("invalid content type `", content_type.normalized.as_str())),
    };
    Ok(
        Body::Mime(
            MimePart::Leaf {
                content_type: ct,
                content_transfer_encoding: cte,
                content_disposition: None,
                body: decoded,
            },
        ),
    )
}

} // verus!
