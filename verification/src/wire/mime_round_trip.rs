//! Rendering and parsing agree on MIME parts: a written attachment part
//! reads back as a leaf that holds the attachment's bytes.
use vstd::prelude::*;
use crate::wire::header::{
    FieldView, crlf_bytes, field_bytes, fold_widths, folded, header_fields, header_split,
    continuation_bytes, law_folded_field_lines, lemma_fold_from_line_chars, lemma_lf_at, lemma_lf_at_exact, lf_at,
    ok_line, ok_line_char, rendered_field,
};
use crate::wire::mime_render::{
    RenderPartView, auto_boundary, boundary_defect, child_chunk, children_rendered, chosen_boundary,
    dash_boundary, delimiter_line_from, field, fields_bytes, has_delimiter_line, is_bchar, rendered,
};
use crate::wire::mime_parse::{
    PartMeta, SplitState, default_meta, delimiter_line, delimiter_of, mime_part_parsed, multipart_split,
    part_meta_from, split_from, starts_with_chars, strip_separator,
};
use crate::wire::shared::{ascii_bytes, is_lwsp, lwsp_trim_end};
use crate::wire::attachment::{attachment_leaf, disposition_value};
use crate::wire::content_type::content_type_header;
use crate::wire::transfer_encoding::{
    base64_body, base64_standard_decoding, base64_standard_encoding, is_base64_char, lemma_base64_body_decoded,
    transfer_decoded, utf8_bytes,
};
use crate::wire::round_trip::{
    law_header_block_then_body, law_rendered_message_reads_back, reads_back, rendered_body, rendered_header_fields,
};
use crate::wire::{RenderOptions, custom_fields, rfc822_rendered};
use crate::wire::mime_render::{
    attachment_leaves, canonical_text, overlong_from, render_payload, root_render_view, text_leaf, wrapped_tree,
};
use crate::wire::attachment::{attachments_where, is_inline_attachment};
use crate::message::MessageView;
use crate::mime_types::{MimePartView, encoding_name_of, encoding_token_ok, normalize_value};
use crate::message::AttachmentView;
use crate::text::{ascii_lower, eq_ignore_case, trim};

verus! {

/// The header fields of a leaf (none for a multipart node).
pub open spec fn leaf_headers(p: RenderPartView) -> Seq<FieldView> {
    match p {
        RenderPartView::Leaf { headers, .. } => headers,
        RenderPartView::Multipart { .. } => seq![],
    }
}

/// The body of a leaf (empty for a multipart node).
pub open spec fn leaf_body(p: RenderPartView) -> Seq<u8> {
    match p {
        RenderPartView::Leaf { body, .. } => body,
        RenderPartView::Multipart { .. } => seq![],
    }
}

/// A part as it stands between two delimiter lines: its header block, a
/// blank line, its body.
pub open spec fn part_bytes(hs: Seq<FieldView>, body: Seq<u8>, soft: Option<usize>) -> Seq<u8> {
    fields_bytes(hs, 0, soft)->Ok_0 + seq![13u8, 10u8] + body
}

proof fn lemma_lower_literals()
    ensures
        eq_ignore_case("Content-Type"@, "content-type"@),
        eq_ignore_case("Content-Transfer-Encoding"@, "content-transfer-encoding"@),
        eq_ignore_case("Content-Disposition"@, "content-disposition"@),
        !eq_ignore_case("Content-Transfer-Encoding"@, "content-type"@),
        !eq_ignore_case("Content-Disposition"@, "content-type"@),
        !eq_ignore_case("Content-Disposition"@, "content-transfer-encoding"@),
        !eq_ignore_case("Content-ID"@, "content-type"@),
        !eq_ignore_case("Content-ID"@, "content-transfer-encoding"@),
        !eq_ignore_case("Content-ID"@, "content-disposition"@),
{
    reveal_strlit("Content-Type");
    reveal_strlit("content-type");
    reveal_strlit("Content-Transfer-Encoding");
    reveal_strlit("content-transfer-encoding");
    reveal_strlit("Content-Disposition");
    reveal_strlit("content-disposition");
    reveal_strlit("Content-ID");
    assert(ascii_lower("Content-Type"@) =~= ascii_lower("content-type"@));
    assert(ascii_lower("Content-Transfer-Encoding"@) =~= ascii_lower("content-transfer-encoding"@));
    assert(ascii_lower("Content-Disposition"@) =~= ascii_lower("content-disposition"@));
    assert(ascii_lower("Content-Transfer-Encoding"@).len() != ascii_lower("content-type"@).len());
    assert(ascii_lower("Content-Disposition"@).len() != ascii_lower("content-type"@).len());
    assert(ascii_lower("Content-Disposition"@).len() != ascii_lower("content-transfer-encoding"@).len());
    assert(ascii_lower("Content-ID"@).len() != ascii_lower("content-type"@).len());
    assert(ascii_lower("Content-ID"@).len() != ascii_lower("content-transfer-encoding"@).len());
    assert(ascii_lower("Content-ID"@).len() != ascii_lower("content-disposition"@).len());
}

proof fn lemma_base64_token()
    ensures
        encoding_token_ok("base64"@),
        encoding_name_of(trim("base64"@)) == "base64"@,
{
    reveal_strlit("base64");
    reveal_strlit("7bit");
    reveal_strlit("8bit");
    reveal_strlit("binary");
    reveal_strlit("quoted-printable");
    let s = "base64"@;
    assert(crate::text::trimmed(s, 0, 6) == (0int, 6int)) by {
        reveal_with_fuel(crate::text::trim_lo, 2);
        reveal_with_fuel(crate::text::trim_hi, 2);
    }
    assert(trim(s) =~= s);
    assert(ascii_lower(s).len() != ascii_lower("7bit"@).len());
    assert(ascii_lower(s).len() != ascii_lower("8bit"@).len());
    assert(ascii_lower(s)[1] != ascii_lower("binary"@)[1]);
    assert(ascii_lower(s).len() != ascii_lower("quoted-printable"@).len());
}

/// What the attachment law needs of an attachment: bytes that make a part;
/// header values without tabs or a leading space; a content type that is
/// not `multipart/*` and that, like the disposition, normalizes; and the
/// `base64` crate's text for the bytes in its alphabet and decoding back to
/// them (what `base64_encode` states of every call).
pub open spec fn attachment_reads_back(a: AttachmentView, soft: Option<usize>) -> bool {
    &&& a.body is Bytes
    &&& attachment_leaf(a) is Ok
    &&& fields_bytes(leaf_headers(attachment_leaf(a)->Ok_0), 0, soft) is Ok
    &&& forall|j: int|
        0 <= j < leaf_headers(attachment_leaf(a)->Ok_0).len() ==> reads_back(
            #[trigger] leaf_headers(attachment_leaf(a)->Ok_0)[j],
        )
    &&& !starts_with_chars(content_type_header(a.content_type).media_type, "multipart/"@)
    &&& normalize_value(content_type_header(a.content_type).normalized, true) is Some
    &&& normalize_value(disposition_value(a), false) is Some
    &&& forall|i: int|
        0 <= i < base64_standard_encoding(a.body->Bytes_0).len() ==> is_base64_char(
            #[trigger] base64_standard_encoding(a.body->Bytes_0)[i],
        )
    &&& base64_standard_decoding(utf8_bytes(base64_standard_encoding(a.body->Bytes_0))) == Some(a.body->Bytes_0)
}

/// The MIME leaf an attachment reads back as: its normalized content type,
/// the `base64` encoding, its normalized disposition and its bytes.
pub open spec fn attachment_read_back(a: AttachmentView) -> MimePartView {
    MimePartView::Leaf {
        content_type: normalize_value(content_type_header(a.content_type).normalized, true)->0,
        content_transfer_encoding: Some("base64"@),
        content_disposition: Some(normalize_value(disposition_value(a), false)->0),
        body: a.body->Bytes_0,
    }
}

/// A written attachment part reads back as a MIME leaf holding exactly the
/// attachment's bytes, under its normalized content type, the `base64`
/// encoding and its normalized disposition.
pub proof fn law_attachment_part_reads_back(a: AttachmentView, soft: Option<usize>, depth: int)
    requires
        0 <= depth <= 100,
        attachment_reads_back(a, soft),
    ensures
        mime_part_parsed(
            part_bytes(leaf_headers(attachment_leaf(a)->Ok_0), leaf_body(attachment_leaf(a)->Ok_0), soft),
            depth,
        ) == Ok::<MimePartView, crate::wire::mime_parse::BodyDefect>(attachment_read_back(a)),
{
    let raw = a.body->Bytes_0;
    let leaf = attachment_leaf(a)->Ok_0;
    let hs = leaf_headers(leaf);
    let body = leaf_body(leaf);
    assert(body == base64_body(raw));
    assert(hs.len() == 3 || hs.len() == 4);
    assert(hs.len() == 4 ==> hs[3].0 == "Content-ID"@);
    law_header_block_then_body(hs, soft, body);
    let b = part_bytes(hs, body, soft);
    assert(header_fields(b.subrange(0, header_split(b).0)) == Ok::<Seq<FieldView>, crate::wire::header::LineDefect>(
        hs,
    ));
    assert(b.subrange(header_split(b).1, b.len() as int) == body);
    lemma_lower_literals();
    lemma_base64_token();
    let ct = content_type_header(a.content_type);
    let d = normalize_value(disposition_value(a), false)->0;
    let m1 = PartMeta { ct: ct, ..default_meta() };
    let m2 = PartMeta { cte: Some("base64"@), ..m1 };
    let m3 = PartMeta { disposition: Some(d), ..m2 };
    assert(hs[0] == field("Content-Type"@, a.content_type));
    assert(hs[1] == field("Content-Transfer-Encoding"@, "base64"@));
    assert(hs[2] == field("Content-Disposition"@, disposition_value(a)));
    assert(part_meta_from(hs, 3, m3) == Ok::<PartMeta, Seq<char>>(m3)) by {
        if hs.len() == 4 {
            assert(hs[3].0 == "Content-ID"@);
            assert(part_meta_from(hs, 4, m3) == Ok::<PartMeta, Seq<char>>(m3));
        }
    }
    assert(part_meta_from(hs, 2, m2) == Ok::<PartMeta, Seq<char>>(m3));
    assert(part_meta_from(hs, 1, m1) == Ok::<PartMeta, Seq<char>>(m3));
    assert(part_meta_from(hs, 0, default_meta()) == Ok::<PartMeta, Seq<char>>(m3));
    lemma_base64_body_decoded(raw);
    assert(transfer_decoded(body, Some("base64"@)) == Ok::<Seq<u8>, Seq<char>>(raw));
}


// ---------------------------------------------------------------------------
// Splitting a written multipart body
// ---------------------------------------------------------------------------

/// The lines of `s` from `i` up to `j` each end in LF, and none of them is
/// read as the delimiter `d` or the close delimiter `c`.
pub open spec fn quiet_lines(s: Seq<u8>, i: int, j: int, d: Seq<u8>, c: Seq<u8>) -> bool
    decreases j - i,
{
    if i >= j {
        i == j
    } else {
        let e = lf_at(s, i);
        if i <= e && e < j && delimiter_line(s, i) != d && delimiter_line(s, i) != c {
            quiet_lines(s, e + 1, j, d, c)
        } else {
            false
        }
    }
}

/// A delimiter and its close form as the writer makes them: both start with
/// `-`, hold no CR or LF, and end in neither a space nor a tab.
pub open spec fn delimiter_shape(d: Seq<u8>, c: Seq<u8>) -> bool {
    &&& d.len() > 0 && d[0] == 0x2d && c.len() > 0 && c[0] == 0x2d
    &&& d.len() < c.len()
    &&& forall|j: int| 0 <= j < d.len() ==> #[trigger] d[j] != 10 && d[j] != 13
    &&& forall|j: int| 0 <= j < c.len() ==> #[trigger] c[j] != 10 && c[j] != 13
    &&& !is_lwsp(d[d.len() - 1]) && !is_lwsp(c[c.len() - 1])
}

/// The close delimiter of a boundary.
pub open spec fn close_of(b: Seq<char>) -> Seq<u8> {
    delimiter_of(b) + seq![0x2du8, 0x2du8]
}

proof fn lemma_delimiter_shape(b: Seq<char>)
    requires
        boundary_defect(b) is None,
    ensures
        delimiter_shape(delimiter_of(b), close_of(b)),
        dash_boundary(b) == delimiter_of(b),
{
    let d = delimiter_of(b);
    let c = close_of(b);
    assert(vstd::utf8::is_ascii_chars(b)) by {
        assert forall|i: int| 0 <= i < b.len() implies '\0' <= #[trigger] b[i] <= '\u{7f}' by {
            assert(is_bchar(b[i]));
        }
    }
    vstd::utf8::is_ascii_chars_encode_utf8(b);
    let u = vstd::utf8::encode_utf8(b);
    assert forall|j: int| 0 <= j < d.len() implies #[trigger] d[j] != 10 && d[j] != 13 && d[j] != 9 by {
        if j >= 2 {
            assert(d[j] == u[j - 2]);
            assert(b[j - 2] as u8 == u[j - 2]);
            assert(is_bchar(b[j - 2]));
        }
    }
    assert forall|j: int| 0 <= j < c.len() implies #[trigger] c[j] != 10 && c[j] != 13 by {
        if j < d.len() {
            assert(c[j] == d[j]);
        }
    }
    assert(d[d.len() - 1] != 0x20) by {
        assert(d[d.len() - 1] == u[b.len() - 1]);
        assert(b[b.len() - 1] as u8 == u[b.len() - 1]);
        assert(b[b.len() - 1] != ' ');
    }
}

proof fn lemma_trim_kept(s: Seq<u8>)
    requires
        s.len() == 0 || !is_lwsp(s[s.len() - 1]),
    ensures
        lwsp_trim_end(s, s.len() as int) == s.len(),
{
}

/// A line of `s` at `i` read in `body`, where `s` stands at `p`, is the same
/// line.
proof fn lemma_line_embed(s: Seq<u8>, i: int, body: Seq<u8>, p: int)
    requires
        0 <= i < s.len(),
        lf_at(s, i) < s.len(),
        0 <= p,
        p + s.len() <= body.len(),
        body.subrange(p, p + s.len()) == s,
    ensures
        lf_at(body, p + i) == p + lf_at(s, i),
        delimiter_line(body, p + i) == delimiter_line(s, i),
{
    let e = lf_at(s, i);
    lemma_lf_at(s, i);
    assert forall|j: int| p + i <= j < p + e implies #[trigger] body[j] != 10 by {
        assert(body[j] == body.subrange(p, p + s.len())[j - p]);
        assert(s[j - p] != 10);
    }
    assert(body[p + e] == s[e]) by {
        assert(body[p + e] == body.subrange(p, p + s.len())[e]);
    }
    lemma_lf_at_exact(body, p + i, p + e);
    let cc = if e > i && s[e - 1] == 13 {
        e - 1
    } else {
        e
    };
    if e > i {
        assert(body[p + e - 1] == s[e - 1]) by {
            assert(body[p + e - 1] == body.subrange(p, p + s.len())[e - 1]);
        }
    }
    assert(body.subrange(p + i, p + cc) =~= s.subrange(i, cc)) by {
        assert forall|j: int| 0 <= j < cc - i implies body.subrange(p + i, p + cc)[j] == s.subrange(i, cc)[j] by {
            assert(body[p + i + j] == body.subrange(p, p + s.len())[i + j]);
        }
    }
}

proof fn lemma_quiet_embed(s: Seq<u8>, i: int, body: Seq<u8>, p: int, d: Seq<u8>, c: Seq<u8>)
    requires
        0 <= i <= s.len(),
        0 <= p,
        p + s.len() <= body.len(),
        body.subrange(p, p + s.len()) == s,
        quiet_lines(s, i, s.len() as int, d, c),
    ensures
        quiet_lines(body, p + i, p + s.len(), d, c),
    decreases s.len() - i,
{
    if i < s.len() {
        let e = lf_at(s, i);
        lemma_line_embed(s, i, body, p);
        lemma_quiet_embed(s, e + 1, body, p, d, c);
    }
}

proof fn lemma_quiet_concat(s: Seq<u8>, i: int, j: int, k: int, d: Seq<u8>, c: Seq<u8>)
    requires
        i <= j <= k,
        quiet_lines(s, i, j, d, c),
        quiet_lines(s, j, k, d, c),
    ensures
        quiet_lines(s, i, k, d, c),
    decreases j - i,
{
    if i < j {
        let e = lf_at(s, i);
        lemma_quiet_concat(s, e + 1, j, k, d, c);
    }
}

proof fn lemma_quiet_cat(x: Seq<u8>, y: Seq<u8>, d: Seq<u8>, c: Seq<u8>)
    requires
        quiet_lines(x, 0, x.len() as int, d, c),
        quiet_lines(y, 0, y.len() as int, d, c),
    ensures
        quiet_lines(x + y, 0, (x + y).len() as int, d, c),
{
    let s = x + y;
    assert(s.subrange(0, x.len() as int) =~= x);
    assert(s.subrange(x.len() as int, (x.len() + y.len()) as int) =~= y);
    lemma_quiet_embed(x, 0, s, 0, d, c);
    lemma_quiet_embed(y, 0, s, x.len() as int, d, c);
    lemma_quiet_concat(s, 0, x.len() as int, s.len() as int, d, c);
}

/// A line of text, CRLF, that does not start with `-`.
proof fn lemma_quiet_text_line(t: Seq<char>, d: Seq<u8>, c: Seq<u8>)
    requires
        ok_line(t),
        t.len() == 0 || t[0] != '-',
        delimiter_shape(d, c),
    ensures
        quiet_lines(ascii_bytes(t) + crlf_bytes(), 0, (t.len() + 2) as int, d, c),
{
    let s = ascii_bytes(t) + crlf_bytes();
    let n = t.len() as int;
    assert forall|j: int| 0 <= j < n + 1 implies #[trigger] s[j] != 10 by {
        if j < n {
            assert(ok_line_char(t[j]));
            assert(s[j] == (t[j] as u32) as u8);
        }
    }
    assert(s[n + 1] == 10);
    lemma_lf_at_exact(s, 0, n + 1);
    assert(s[n] == 13);
    let raw = s.subrange(0, n);
    let line = delimiter_line(s, 0);
    assert(line == raw.subrange(0, lwsp_trim_end(raw, raw.len() as int)));
    crate::wire::shared::lemma_lwsp_trim_end_bounds(raw, raw.len() as int);
    if line.len() > 0 {
        assert(line[0] == s[0]);
        assert(ok_line_char(t[0]));
        assert(s[0] == (t[0] as u32) as u8);
        assert(s[0] != 0x2d);
    }
    assert(line != d && line != c) by {
        if line.len() > 0 {
            assert(line[0] != d[0]);
        }
    }
    assert(quiet_lines(s, n + 2, n + 2, d, c));
}

proof fn lemma_quiet_continuations(ls: Seq<Seq<char>>, k: int, d: Seq<u8>, c: Seq<u8>)
    requires
        1 <= k <= ls.len(),
        forall|j: int| 0 <= j < ls.len() ==> ok_line(#[trigger] ls[j]),
        delimiter_shape(d, c),
    ensures
        quiet_lines(continuation_bytes(ls, k), 0, continuation_bytes(ls, k).len() as int, d, c),
    decreases ls.len() - k,
{
    if k < ls.len() {
        let t = seq![' '] + ls[k];
        assert(ok_line(t)) by {
            assert forall|m: int| 0 <= m < t.len() implies ok_line_char(#[trigger] t[m]) by {
                if m > 0 {
                    assert(t[m] == ls[k][m - 1]);
                }
            }
        }
        assert(ascii_bytes(t) =~= seq![0x20u8] + ascii_bytes(ls[k]));
        lemma_quiet_text_line(t, d, c);
        lemma_quiet_continuations(ls, k + 1, d, c);
        assert(continuation_bytes(ls, k) =~= (ascii_bytes(t) + crlf_bytes()) + continuation_bytes(ls, k + 1));
        lemma_quiet_cat(ascii_bytes(t) + crlf_bytes(), continuation_bytes(ls, k + 1), d, c);
    } else {
        assert(continuation_bytes(ls, k).len() == 0);
    }
}

/// A written field whose name does not start with `-` holds no delimiter
/// line.
proof fn lemma_quiet_field(name: Seq<char>, value: Seq<char>, soft: Option<usize>, d: Seq<u8>, c: Seq<u8>)
    requires
        rendered_field(name, value, soft) is Ok,
        name.len() > 0 && name[0] != '-',
        delimiter_shape(d, c),
    ensures
        quiet_lines(
            rendered_field(name, value, soft)->Ok_0,
            0,
            rendered_field(name, value, soft)->Ok_0.len() as int,
            d,
            c,
        ),
{
    let w = fold_widths(name.len() as int, soft);
    let ls = folded(value, w)->0;
    let fb = field_bytes(name, ls);
    assert(ok_line(value)) by {
        assert forall|m: int| 0 <= m < value.len() implies ok_line_char(#[trigger] value[m]) by {
            if crate::wire::header::is_line_control(value[m]) {
                assert(crate::wire::header::is_forbidden_control(value[m]) || value[m] == '\r' || value[m]
                    == '\n');
            }
        }
    }
    if value.len() > 0 {
        law_folded_field_lines(name.len() as int, soft, value);
        lemma_fold_from_line_chars(value, 0, true, w);
    } else {
        assert(ls =~= seq![Seq::<char>::empty()]);
    }
    let t0 = name + seq![':', ' '] + ls[0];
    assert(ok_line(t0)) by {
        assert forall|m: int| 0 <= m < t0.len() implies ok_line_char(#[trigger] t0[m]) by {
            if m < name.len() {
                assert(crate::message::is_header_name_char(name[m]));
            } else if m >= name.len() + 2 {
                assert(t0[m] == ls[0][m - name.len() - 2]);
            }
        }
    }
    assert(t0[0] == name[0]);
    assert(ascii_bytes(t0) =~= ascii_bytes(name) + seq![0x3au8, 0x20u8] + ascii_bytes(ls[0]));
    assert(fb =~= (ascii_bytes(t0) + crlf_bytes()) + continuation_bytes(ls, 1));
    lemma_quiet_text_line(t0, d, c);
    lemma_quiet_continuations(ls, 1, d, c);
    lemma_quiet_cat(ascii_bytes(t0) + crlf_bytes(), continuation_bytes(ls, 1), d, c);
}

/// Names that do not start with `-`.
pub open spec fn undashed_names(hs: Seq<FieldView>) -> bool {
    forall|j: int| 0 <= j < hs.len() ==> (#[trigger] hs[j]).0.len() > 0 && hs[j].0[0] != '-'
}

proof fn lemma_quiet_fields(hs: Seq<FieldView>, k: int, soft: Option<usize>, d: Seq<u8>, c: Seq<u8>)
    requires
        0 <= k <= hs.len(),
        fields_bytes(hs, k, soft) is Ok,
        undashed_names(hs),
        delimiter_shape(d, c),
    ensures
        quiet_lines(fields_bytes(hs, k, soft)->Ok_0, 0, fields_bytes(hs, k, soft)->Ok_0.len() as int, d, c),
    decreases hs.len() - k,
{
    if k < hs.len() {
        assert(hs[k].0.len() > 0 && hs[k].0[0] != '-');
        lemma_quiet_field(hs[k].0, hs[k].1, soft, d, c);
        lemma_quiet_fields(hs, k + 1, soft, d, c);
        lemma_quiet_cat(rendered_field(hs[k].0, hs[k].1, soft)->Ok_0, fields_bytes(hs, k + 1, soft)->Ok_0, d, c);
    }
}

/// A body with no delimiter line, followed by CRLF.
proof fn lemma_quiet_body(pb: Seq<u8>, i: int, d: Seq<u8>, c: Seq<u8>)
    requires
        0 <= i <= pb.len(),
        !delimiter_line_from(pb, i, d, c),
        delimiter_shape(d, c),
    ensures
        quiet_lines(pb + crlf_bytes(), i, (pb.len() + 2) as int, d, c),
    decreases pb.len() - i,
{
    let s = pb + crlf_bytes();
    let n = pb.len() as int;
    lemma_lf_at(pb, i);
    let e = lf_at(pb, i);
    if e < n {
        assert(s.subrange(0, n) =~= pb);
        assert(s.subrange(0, n) == pb);
        assert forall|j: int| i <= j < e implies #[trigger] s[j] != 10 by {
            assert(s[j] == pb[j]);
        }
        lemma_lf_at_exact(s, i, e);
        let cc = if e > i && pb[e - 1] == 13 {
            e - 1
        } else {
            e
        };
        assert(s.subrange(i, cc) =~= pb.subrange(i, cc));
        assert(delimiter_line(s, i) == delimiter_line(pb, i));
        lemma_quiet_body(pb, e + 1, d, c);
    } else {
        assert forall|j: int| i <= j < n + 1 implies #[trigger] s[j] != 10 by {
            if j < n {
                assert(s[j] == pb[j]);
            }
        }
        lemma_lf_at_exact(s, i, n + 1);
        assert(s[n] == 13);
        let raw = s.subrange(i, n);
        assert(raw =~= pb.subrange(i, n));
        let line = delimiter_line(s, i);
        crate::wire::shared::lemma_lwsp_trim_end_bounds(raw, raw.len() as int);
        if i < n && pb[n - 1] == 13 {
            assert(!is_lwsp(raw[raw.len() - 1]));
            lemma_trim_kept(raw);
            assert(line =~= raw);
            assert(line[line.len() - 1] == 13);
            assert(line != d) by {
                if line.len() == d.len() {
                    assert(d[d.len() - 1] != 13);
                }
            }
            assert(line != c) by {
                if line.len() == c.len() {
                    assert(c[c.len() - 1] != 13);
                }
            }
        } else {
            assert(line == delimiter_line(pb, i));
        }
        assert(quiet_lines(s, n + 2, n + 2, d, c));
    }
}

/// The bytes that stand between two delimiter lines for the children `k..`
/// of a multipart node: each child's header block, a blank line, its body.
pub open spec fn children_parts(
    ps: Seq<RenderPartView>,
    k: int,
    counter: int,
    soft: Option<usize>,
    depth: int,
) -> Seq<Seq<u8>>
    decreases ps.len() - k,
{
    if k < 0 || k >= ps.len() {
        seq![]
    } else {
        match rendered(ps[k], counter, soft, depth) {
            Ok((hs, pb, c1)) => seq![fields_bytes(hs, 0, soft)->Ok_0 + seq![13u8, 10u8] + pb] + children_parts(
                ps,
                k + 1,
                c1,
                soft,
                depth,
            ),
            Err(_) => seq![],
        }
    }
}

/// The parts a split has finished, with the one it is collecting.
pub open spec fn pending(st: SplitState) -> Seq<Seq<u8>> {
    if st.in_part {
        st.parts.push(strip_separator(st.current))
    } else {
        st.parts
    }
}

proof fn lemma_walk(body: Seq<u8>, i: int, j: int, d: Seq<u8>, c: Seq<u8>, st: SplitState)
    requires
        0 <= i <= j <= body.len(),
        quiet_lines(body, i, j, d, c),
        st.in_part,
    ensures
        split_from(body, i, d, c, st) == split_from(
            body,
            j,
            d,
            c,
            SplitState { current: st.current + body.subrange(i, j), ..st },
        ),
    decreases j - i,
{
    if i == j {
        assert(st.current + body.subrange(i, j) =~= st.current);
    } else {
        let e = lf_at(body, i);
        lemma_lf_at(body, i);
        let next = SplitState { current: st.current + body.subrange(i, e) + seq![10u8], ..st };
        assert(split_from(body, i, d, c, st) == split_from(body, e + 1, d, c, next));
        lemma_walk(body, e + 1, j, d, c, next);
        assert(next.current + body.subrange(e + 1, j) =~= st.current + body.subrange(i, j));
    }
}


proof fn lemma_sub_of_sub(body: Seq<u8>, p: int, x: Seq<u8>, q: int, y: Seq<u8>)
    requires
        0 <= p,
        p + x.len() <= body.len(),
        body.subrange(p, p + x.len()) == x,
        0 <= q,
        q + y.len() <= x.len(),
        x.subrange(q, q + y.len()) == y,
    ensures
        body.subrange(p + q, p + q + y.len()) == y,
{
    assert forall|j: int| 0 <= j < y.len() implies body.subrange(p + q, p + q + y.len())[j] == y[j] by {
        assert(body[p + q + j] == body.subrange(p, p + x.len())[q + j]);
        assert(y[j] == x.subrange(q, q + y.len())[j]);
    }
    assert(body.subrange(p + q, p + q + y.len()) =~= y);
}

/// A delimiter line written with its CRLF reads as the delimiter.
proof fn lemma_delimiter_line_read(d: Seq<u8>)
    requires
        d.len() > 0,
        forall|j: int| 0 <= j < d.len() ==> #[trigger] d[j] != 10 && d[j] != 13,
        !is_lwsp(d[d.len() - 1]),
    ensures
        lf_at(d + crlf_bytes(), 0) == d.len() + 1,
        delimiter_line(d + crlf_bytes(), 0) == d,
{
    let s = d + crlf_bytes();
    let n = d.len() as int;
    assert forall|j: int| 0 <= j < n + 1 implies #[trigger] s[j] != 10 by {
        if j < n {
            assert(s[j] == d[j]);
        }
    }
    lemma_lf_at_exact(s, 0, n + 1);
    assert(s.subrange(0, n) =~= d);
    lemma_trim_kept(d);
    assert(d.subrange(0, n) =~= d);
}

/// The written children `k..` of a multipart node, as bytes.
pub open spec fn children_bytes(
    ps: Seq<RenderPartView>,
    k: int,
    b: Seq<char>,
    counter: int,
    soft: Option<usize>,
    depth: int,
) -> Seq<u8> {
    children_rendered(ps, k, b, counter, soft, depth)->Ok_0.0
}

proof fn lemma_rendered_names(p: RenderPartView, counter: int, soft: Option<usize>, depth: int)
    requires
        rendered(p, counter, soft, depth) is Ok,
        undashed_names(leaf_headers(p)),
    ensures
        undashed_names(rendered(p, counter, soft, depth)->Ok_0.0),
{
    reveal_strlit("Content-Type");
    let hs = rendered(p, counter, soft, depth)->Ok_0.0;
    if p is Multipart {
        assert(hs.len() == 1);
        assert(hs[0].0 == "Content-Type"@);
    }
}

/// At a delimiter line a split closes the part it was collecting and
/// opens a new one.
proof fn lemma_open_part(body: Seq<u8>, p0: int, d: Seq<u8>, c: Seq<u8>, st: SplitState)
    requires
        delimiter_shape(d, c),
        0 <= p0,
        p0 + d.len() + 2 < body.len(),
        body.subrange(p0, p0 + d.len() + 2) == d + crlf_bytes(),
        !(st.in_part && st.parts.len() >= 1024),
    ensures
        split_from(body, p0, d, c, st) == split_from(
            body,
            p0 + d.len() + 2,
            d,
            c,
            SplitState { parts: pending(st), current: seq![], in_part: true, opening: true },
        ),
{
    let dl = d + crlf_bytes();
    lemma_delimiter_line_read(d);
    lemma_line_embed(dl, 0, body, p0);
    assert(delimiter_line(body, p0) == d);
    assert(d != c);
}

/// At the close delimiter a split ends with the parts it has.
proof fn lemma_close_parts(body: Seq<u8>, p0: int, d: Seq<u8>, c: Seq<u8>, st: SplitState)
    requires
        delimiter_shape(d, c),
        0 <= p0,
        body.len() == p0 + c.len() + 2,
        body.subrange(p0, body.len() as int) == c + crlf_bytes(),
        st.in_part,
        st.opening,
        st.parts.len() < 1024,
    ensures
        split_from(body, p0, d, c, st) == Ok::<Seq<Seq<u8>>, Seq<char>>(pending(st)),
{
    let s = c + crlf_bytes();
    lemma_delimiter_line_read(c);
    lemma_line_embed(s, 0, body, p0);
    assert(delimiter_line(body, p0) == c);
    assert(d != c);
}

/// A written child between its delimiter line and the next one: header
/// block, blank line, body, CRLF; none of its lines is a delimiter.
proof fn lemma_quiet_part(hs: Seq<FieldView>, pb: Seq<u8>, soft: Option<usize>, b: Seq<char>)
    requires
        boundary_defect(b) is None,
        fields_bytes(hs, 0, soft) is Ok,
        undashed_names(hs),
        !has_delimiter_line(pb, b),
    ensures
        ({
            let q = fields_bytes(hs, 0, soft)->Ok_0 + crlf_bytes() + (pb + crlf_bytes());
            quiet_lines(q, 0, q.len() as int, delimiter_of(b), close_of(b))
        }),
{
    let d = delimiter_of(b);
    let c = close_of(b);
    lemma_delimiter_shape(b);
    let fb = fields_bytes(hs, 0, soft)->Ok_0;
    lemma_quiet_fields(hs, 0, soft, d, c);
    assert(ascii_bytes(Seq::<char>::empty()) + crlf_bytes() =~= crlf_bytes());
    lemma_quiet_text_line(Seq::<char>::empty(), d, c);
    lemma_quiet_cat(fb, crlf_bytes(), d, c);
    lemma_quiet_body(pb, 0, d, c);
    lemma_quiet_cat(fb + crlf_bytes(), pb + crlf_bytes(), d, c);
}

#[verifier::spinoff_prover]
#[verifier::rlimit(40)]
proof fn lemma_split_children(
    body: Seq<u8>,
    p0: int,
    ps: Seq<RenderPartView>,
    k: int,
    b: Seq<char>,
    counter: int,
    soft: Option<usize>,
    depth: int,
    st: SplitState,
)
    requires
        0 <= k <= ps.len(),
        children_rendered(ps, k, b, counter, soft, depth) is Ok,
        forall|j: int| k <= j < ps.len() ==> undashed_names(leaf_headers(#[trigger] ps[j])),
        boundary_defect(b) is None,
        0 <= p0,
        body.len() == p0 + children_bytes(ps, k, b, counter, soft, depth).len() + close_of(b).len() + 2,
        body.subrange(p0, p0 + children_bytes(ps, k, b, counter, soft, depth).len()) == children_bytes(
            ps,
            k,
            b,
            counter,
            soft,
            depth,
        ),
        body.subrange(p0 + children_bytes(ps, k, b, counter, soft, depth).len(), body.len() as int) == close_of(b)
            + crlf_bytes(),
        st.in_part == st.opening,
        k == ps.len() ==> st.in_part,
        pending(st).len() + ps.len() - k <= 1024,
    ensures
        split_from(body, p0, delimiter_of(b), close_of(b), st) == Ok::<Seq<Seq<u8>>, Seq<char>>(
            pending(st) + children_parts(ps, k, counter, soft, depth),
        ),
    decreases ps.len() - k,
{
    let d = delimiter_of(b);
    let c = close_of(b);
    lemma_delimiter_shape(b);
    let x = children_bytes(ps, k, b, counter, soft, depth);
    if k == ps.len() {
        assert(x.len() == 0);
        lemma_close_parts(body, p0, d, c, st);
        assert(pending(st) + children_parts(ps, k, counter, soft, depth) =~= pending(st));
    } else {
        let (chunk, c1) = child_chunk(ps[k], b, counter, soft, depth)->Ok_0;
        let rest = children_bytes(ps, k + 1, b, c1, soft, depth);
        assert(x == chunk + rest);
        let (hs, pb, c1r) = rendered(ps[k], counter, soft, depth)->Ok_0;
        assert(c1r == c1);
        let fb = fields_bytes(hs, 0, soft)->Ok_0;
        let q = fb + crlf_bytes() + (pb + crlf_bytes());
        let dl = d + crlf_bytes();
        assert(chunk =~= dl + q);
        assert(x.subrange(0, dl.len() as int) =~= dl);
        lemma_sub_of_sub(body, p0, x, 0, dl);
        lemma_open_part(body, p0, d, c, st);
        let next = SplitState { parts: pending(st), current: seq![], in_part: true, opening: true };
        lemma_rendered_names(ps[k], counter, soft, depth);
        lemma_quiet_part(hs, pb, soft, b);
        assert(x.subrange(dl.len() as int, (dl.len() + q.len()) as int) =~= q);
        lemma_sub_of_sub(body, p0, x, dl.len() as int, q);
        lemma_quiet_embed(q, 0, body, p0 + dl.len(), d, c);
        lemma_walk(body, p0 + dl.len(), p0 + dl.len() + q.len(), d, c, next);
        let st2 = SplitState { current: seq![] + q, ..next };
        let p1 = p0 + chunk.len();
        assert(split_from(body, p0, d, c, st) == split_from(body, p1, d, c, st2));
        assert(x.subrange(chunk.len() as int, (chunk.len() + rest.len()) as int) =~= rest);
        lemma_sub_of_sub(body, p0, x, chunk.len() as int, rest);
        lemma_split_children(body, p1, ps, k + 1, b, c1, soft, depth, st2);
        let part = fb + seq![13u8, 10u8] + pb;
        assert(strip_separator(st2.current) =~= part) by {
            assert(st2.current =~= part + seq![13u8, 10u8]);
        }
        assert(pending(st2) == pending(st).push(part));
        assert(children_parts(ps, k, counter, soft, depth) == seq![part] + children_parts(ps, k + 1, c1, soft, depth));
        assert(pending(st).push(part) + children_parts(ps, k + 1, c1, soft, depth) =~= pending(st) + children_parts(
            ps,
            k,
            counter,
            soft,
            depth,
        ));
    }
}

proof fn lemma_auto_boundary_ok(ps: Seq<RenderPartView>, counter: int, tries: int)
    requires
        auto_boundary(ps, counter, tries) is Ok,
    ensures
        boundary_defect(auto_boundary(ps, counter, tries)->Ok_0.0) is None,
    decreases tries,
{
    if tries > 0 && boundary_defect(crate::wire::mime_render::generated_boundary(counter)) is None
        && crate::wire::mime_render::parts_conflict(ps, crate::wire::mime_render::generated_boundary(counter)) {
        lemma_auto_boundary_ok(ps, crate::wire::mime_render::counter_after(counter), tries - 1);
    }
}

/// The boundary a multipart node is written with.
pub open spec fn written_boundary(p: RenderPartView, counter: int) -> Seq<char> {
    match p {
        RenderPartView::Multipart { content_type, boundary, parts } => chosen_boundary(
            content_type,
            boundary,
            parts,
            counter,
        )->Ok_0.0,
        RenderPartView::Leaf { .. } => seq![],
    }
}

/// The boundary counter a multipart node's children are written from.
pub open spec fn children_counter(p: RenderPartView, counter: int) -> int {
    match p {
        RenderPartView::Multipart { content_type, boundary, parts } => chosen_boundary(
            content_type,
            boundary,
            parts,
            counter,
        )->Ok_0.1,
        RenderPartView::Leaf { .. } => counter,
    }
}

/// The children of a multipart node.
pub open spec fn node_children(p: RenderPartView) -> Seq<RenderPartView> {
    match p {
        RenderPartView::Multipart { parts, .. } => parts,
        RenderPartView::Leaf { .. } => seq![],
    }
}

/// A written multipart body splits back, at the boundary it was written
/// with, into its written children, each as header block, blank line and
/// body; that boundary is a valid one. This holds when the node has at most
/// 1024 children (the most a split accepts) and no header name of a child
/// leaf starts with `-`.
pub proof fn law_multipart_splits_back(p: RenderPartView, counter: int, soft: Option<usize>, depth: int)
    requires
        p is Multipart,
        rendered(p, counter, soft, depth) is Ok,
        node_children(p).len() <= 1024,
        forall|j: int|
            0 <= j < node_children(p).len() ==> undashed_names(leaf_headers(#[trigger] node_children(p)[j])),
    ensures
        boundary_defect(written_boundary(p, counter)) is None,
        multipart_split(rendered(p, counter, soft, depth)->Ok_0.1, written_boundary(p, counter)) == Ok::<
            Seq<Seq<u8>>,
            Seq<char>,
        >(children_parts(node_children(p), 0, children_counter(p, counter), soft, depth + 1)),
{
    let ps = node_children(p);
    let bv = written_boundary(p, counter);
    let c1 = children_counter(p, counter);
    let ct = p->Multipart_content_type;
    let given = p->Multipart_boundary;
    match crate::wire::content_type::boundary_param(ct) {
        Some(h) => {},
        None => match given {
            Some(x) => {},
            None => {
                lemma_auto_boundary_ok(ps, counter, 128);
            },
        },
    }
    assert(boundary_defect(bv) is None);
    let x = children_bytes(ps, 0, bv, c1, soft, depth + 1);
    let body = rendered(p, counter, soft, depth)->Ok_0.1;
    lemma_delimiter_shape(bv);
    assert(body =~= x + (close_of(bv) + crlf_bytes()));
    assert(body.subrange(0, x.len() as int) =~= x);
    assert(body.subrange(x.len() as int, body.len() as int) =~= close_of(bv) + crlf_bytes());
    let st0 = SplitState { parts: seq![], current: seq![], in_part: false, opening: false };
    lemma_split_children(body, 0, ps, 0, bv, c1, soft, depth + 1, st0);
    assert(pending(st0) + children_parts(ps, 0, c1, soft, depth + 1) =~= children_parts(ps, 0, c1, soft, depth + 1));
}

/// The bodies of the children `k..` of a multipart node, as written.
pub open spec fn children_bodies(
    ps: Seq<RenderPartView>,
    k: int,
    counter: int,
    soft: Option<usize>,
    depth: int,
) -> Seq<Seq<u8>>
    decreases ps.len() - k,
{
    if k < 0 || k >= ps.len() {
        seq![]
    } else {
        match rendered(ps[k], counter, soft, depth) {
            Ok((_hs, pb, c1)) => seq![pb] + children_bodies(ps, k + 1, c1, soft, depth),
            Err(_) => seq![],
        }
    }
}

proof fn lemma_children_free(
    ps: Seq<RenderPartView>,
    k: int,
    b: Seq<char>,
    counter: int,
    soft: Option<usize>,
    depth: int,
)
    requires
        0 <= k <= ps.len(),
        children_rendered(ps, k, b, counter, soft, depth) is Ok,
    ensures
        children_bodies(ps, k, counter, soft, depth).len() == ps.len() - k,
        forall|j: int|
            0 <= j < ps.len() - k ==> !has_delimiter_line(
                #[trigger] children_bodies(ps, k, counter, soft, depth)[j],
                b,
            ),
        k < ps.len() ==> children_bytes(ps, k, b, counter, soft, depth).subrange(0, dash_boundary(b).len() + 2int)
            == dash_boundary(b) + crlf_bytes(),
    decreases ps.len() - k,
{
    if k < ps.len() {
        let c1 = child_chunk(ps[k], b, counter, soft, depth)->Ok_0.1;
        lemma_children_free(ps, k + 1, b, c1, soft, depth);
        let (hs, pb, c1r) = rendered(ps[k], counter, soft, depth)->Ok_0;
        assert(c1r == c1);
        let rest = children_bodies(ps, k + 1, c1, soft, depth);
        assert(children_bodies(ps, k, counter, soft, depth) == seq![pb] + rest);
        assert forall|j: int| 0 <= j < ps.len() - k implies !has_delimiter_line(
            #[trigger] children_bodies(ps, k, counter, soft, depth)[j],
            b,
        ) by {
            if j > 0 {
                assert((seq![pb] + rest)[j] == rest[j - 1]);
            }
        }
        let chunk = child_chunk(ps[k], b, counter, soft, depth)->Ok_0.0;
        let x = children_bytes(ps, k, b, counter, soft, depth);
        assert(x == chunk + children_bytes(ps, k + 1, b, c1, soft, depth));
        assert(x.subrange(0, dash_boundary(b).len() + 2int) =~= dash_boundary(b) + crlf_bytes());
    }
}

/// A written multipart body opens with its first delimiter line, ends with
/// its close delimiter line, and no child's written body holds a line that
/// reads as a delimiter of the boundary, which is a valid one.
pub proof fn law_multipart_delimiters(p: RenderPartView, counter: int, soft: Option<usize>, depth: int)
    requires
        p is Multipart,
        rendered(p, counter, soft, depth) is Ok,
    ensures
        ({
            let bv = written_boundary(p, counter);
            let body = rendered(p, counter, soft, depth)->Ok_0.1;
            let bodies = children_bodies(node_children(p), 0, children_counter(p, counter), soft, depth + 1);
            &&& boundary_defect(bv) is None
            &&& body.subrange(0, dash_boundary(bv).len() + 2int) == dash_boundary(bv) + crlf_bytes()
            &&& body.subrange(body.len() - (dash_boundary(bv).len() + 4), body.len() as int) == dash_boundary(bv)
                + seq![0x2du8, 0x2du8] + crlf_bytes()
            &&& bodies.len() == node_children(p).len()
            &&& forall|k: int| 0 <= k < bodies.len() ==> !has_delimiter_line(#[trigger] bodies[k], bv)
            &&& rendered(p, counter, soft, depth)->Ok_0.0 == seq![
                field(
                    "Content-Type"@,
                    if crate::wire::content_type::boundary_param(p->Multipart_content_type) is Some {
                        p->Multipart_content_type
                    } else {
                        p->Multipart_content_type + "; boundary=\""@ + bv + "\""@
                    },
                ),
            ]
            &&& crate::wire::content_type::boundary_param(p->Multipart_content_type) is Some ==> crate::wire::content_type::boundary_param(p->Multipart_content_type) == Some(bv)
        }),
{
    let ps = node_children(p);
    let bv = written_boundary(p, counter);
    let c1 = children_counter(p, counter);
    match crate::wire::content_type::boundary_param(p->Multipart_content_type) {
        Some(h) => {},
        None => match p->Multipart_boundary {
            Some(x) => {},
            None => {
                lemma_auto_boundary_ok(ps, counter, 128);
            },
        },
    }
    lemma_children_free(ps, 0, bv, c1, soft, depth + 1);
    let x = children_bytes(ps, 0, bv, c1, soft, depth + 1);
    let body = rendered(p, counter, soft, depth)->Ok_0.1;
    let tail = dash_boundary(bv) + seq![0x2du8, 0x2du8] + crlf_bytes();
    assert(body =~= x + tail);
    assert(x.len() >= dash_boundary(bv).len() + 2int);
    assert(body.subrange(0, dash_boundary(bv).len() + 2int) =~= x.subrange(0, dash_boundary(bv).len() + 2int));
    assert(body.subrange(body.len() - (dash_boundary(bv).len() + 4), body.len() as int) =~= tail);
}

// ---------------------------------------------------------------------------
// The boundary parameter of a written `multipart/mixed` content type
// ---------------------------------------------------------------------------

proof fn lemma_plain_segs(s: Seq<char>, i: int, j: int, hi: int, start: int, q: bool)
    requires
        0 <= i <= j <= hi <= s.len(),
        forall|m: int| i <= m < j ==> #[trigger] s[m] != ';' && s[m] != '"' && s[m] != '\\',
    ensures
        crate::mime_types::segs_from(s, i, hi, start, q, false) == crate::mime_types::segs_from(
            s,
            j,
            hi,
            start,
            q,
            false,
        ),
    decreases j - i,
{
    if i < j {
        lemma_plain_segs(s, i + 1, j, hi, start, q);
    }
}

proof fn lemma_unescape_plain(s: Seq<char>, i: int, end: int)
    requires
        0 <= i <= end <= s.len(),
        forall|m: int| i <= m < end ==> #[trigger] s[m] != '\\',
    ensures
        crate::mime_types::unescape(s, i, end, false) == s.subrange(i, end),
    decreases end - i,
{
    if i < end {
        lemma_unescape_plain(s, i + 1, end);
        assert(seq![s[i]] + s.subrange(i + 1, end) =~= s.subrange(i, end));
    } else {
        assert(s.subrange(i, end) =~= Seq::<char>::empty());
    }
}

proof fn lemma_find_eq(s: Seq<char>, lo: int, p: int, hi: int)
    requires
        0 <= lo <= p < hi <= s.len(),
        s[p] == '=',
        forall|m: int| lo <= m < p ==> #[trigger] s[m] != '=',
    ensures
        crate::text::find_in(s, '=', lo, hi) == Some(p),
    decreases p - lo,
{
    if lo < p {
        lemma_find_eq(s, lo + 1, p, hi);
    }
}

/// The `Content-Type` value a `multipart/mixed` node is written with.
pub open spec fn mixed_content_type(bv: Seq<char>) -> Seq<char> {
    "multipart/mixed"@ + "; boundary=\""@ + bv + "\""@
}

/// `multipart/mixed` names no boundary, and the value written for it with a
/// valid boundary reads as a `multipart/mixed` type with that boundary.
proof fn lemma_mixed_content_type(bv: Seq<char>)
    requires
        boundary_defect(bv) is None,
    ensures
        crate::wire::content_type::boundary_param("multipart/mixed"@) is None,
        content_type_header(mixed_content_type(bv)).media_type == "multipart/mixed"@,
        content_type_header(mixed_content_type(bv)).boundary == Some(bv),
        content_type_header(mixed_content_type(bv)).normalized == "multipart/mixed"@,
{
    reveal_strlit("multipart/mixed");
    reveal_strlit("; boundary=\"");
    reveal_strlit("\"");
    reveal_strlit("boundary");
    let mm = "multipart/mixed"@;
    let n = bv.len() as int;
    let s = mixed_content_type(bv);
    let len = s.len() as int;
    assert(len == 28 + n);
    assert forall|m: int| 0 <= m < 15 implies #[trigger] s[m] == mm[m] by {}
    assert forall|m: int| 0 <= m < n implies #[trigger] s[27 + m] == bv[m] by {}
    assert(s[15] == ';' && s[16] == ' ' && s[25] == '=' && s[26] == '"' && s[27 + n] == '"');
    assert forall|m: int| 17 <= m < 25 implies #[trigger] s[m] == "boundary"@[m - 17] by {}
    // the segments
    assert forall|m: int| 0 <= m < 15 implies #[trigger] mm[m] != ';' && mm[m] != '"' && mm[m] != '\\' by {}
    lemma_plain_segs(mm, 0, 15, 15, 0, false);
    assert(crate::mime_types::seg_spans(mm, 0, 15) == seq![(0int, 15int)]);
    assert(crate::wire::content_type::boundary_param(mm) is None);
    lemma_plain_segs(s, 0, 15, len, 0, false);
    lemma_plain_segs(s, 16, 26, len, 16, false);
    assert forall|m: int| 27 <= m < 27 + n implies #[trigger] s[m] != ';' && s[m] != '"' && s[m] != '\\' by {
        assert(s[m] == bv[m - 27]);
        assert(is_bchar(bv[m - 27]));
    }
    lemma_plain_segs(s, 27, 27 + n, len, 16, true);
    let spans = crate::mime_types::seg_spans(s, 0, len);
    assert(crate::mime_types::segs_from(s, 28 + n, len, 16, false, false) == seq![(16int, len)]);
    assert(crate::mime_types::segs_from(s, 27 + n, len, 16, true, false) == seq![(16int, len)]);
    assert(crate::mime_types::segs_from(s, 16, len, 16, false, false) == seq![(16int, len)]);
    assert(spans == seq![(0int, 15int)] + seq![(16int, len)]);
    // trimming
    assert(crate::text::trimmed(s, 0, len) == (0int, len));
    assert(crate::text::trimmed(s, 0, 15) == (0int, 15int));
    assert(s.subrange(0, 15) =~= mm);
    assert(crate::text::ascii_lower(mm) =~= mm);
    // the boundary parameter
    assert(crate::text::trim_lo(s, 16, len) == 17) by {
        reveal_with_fuel(crate::text::trim_lo, 2);
    }
    assert(crate::text::trimmed(s, 16, len) == (17int, len));
    lemma_find_eq(s, 17, 25, len);
    assert(crate::text::trimmed(s, 17, 25) == (17int, 25int));
    assert(crate::text::trimmed(s, 26, len) == (26int, len));
    assert(crate::text::window(s, (17int, 25int)) =~= "boundary"@);
    let raw = crate::text::window(s, (26int, len));
    assert(crate::text::trimmed(raw, 0, raw.len() as int) == (0int, raw.len() as int));
    assert(crate::text::trim(raw) =~= raw);
    assert forall|m: int| 1 <= m < raw.len() - 1 implies #[trigger] raw[m] != '\\' by {
        assert(raw[m] == bv[m - 1]);
        assert(is_bchar(bv[m - 1]));
    }
    lemma_unescape_plain(raw, 1, raw.len() - 1);
    assert(raw.subrange(1, raw.len() - 1) =~= bv);
    assert(crate::wire::content_type::param_value(raw) == bv);
    assert(spans.len() == 2 && spans[1] == (16int, len));
    assert(crate::wire::content_type::param_parts(s, spans[1]) == Some(((17int, 25int), (26int, len))));
    assert(eq_ignore_case(crate::text::window(s, (17int, 25int)), "boundary"@));
    let mt = crate::text::window(s, crate::text::trimmed(s, spans[0].0, spans[0].1));
    let st1: crate::wire::content_type::CtState = (seq![mt], None, None);
    let st2: crate::wire::content_type::CtState = (seq![mt], Some(bv), None);
    assert(crate::wire::content_type::ct_params_from(s, spans, 2, st2) == st2);
    assert(crate::wire::content_type::ct_params_from(s, spans, 1, st1) == st2);
    assert(mt =~= mm);
    assert(crate::wire::content_type::join_semicolons(st2.0) == mt);
}

proof fn lemma_find_char_at(s: Seq<char>, c: char, lo: int, p: int, hi: int)
    requires
        0 <= lo <= p <= hi <= s.len(),
        p < hi ==> s[p] == c,
        forall|m: int| lo <= m < p ==> #[trigger] s[m] != c,
    ensures
        crate::text::find_in(s, c, lo, hi) == (if p < hi {
            Some(p)
        } else {
            None
        }),
    decreases p - lo,
{
    if lo < p {
        lemma_find_char_at(s, c, lo + 1, p, hi);
    }
}

proof fn lemma_token_not_space(c: char)
    requires
        crate::mime_types::is_token_char(c),
    ensures
        !crate::text::unicode_white_space(c),
        c != ';' && c != '"' && c != '\\',
{
}

/// A lowercase `type/subtype` made of token characters normalizes to
/// itself.
proof fn lemma_normalize_media(s: Seq<char>, k: int)
    requires
        0 < k < s.len() - 1,
        s[k] == '/',
        forall|m: int|
            0 <= m < s.len() && m != k ==> crate::mime_types::is_token_char(#[trigger] s[m]) && s[m] != '/'
                && crate::text::lower_char(s[m]) == s[m],
    ensures
        normalize_value(s, true) == Some(s),
        content_type_header(s).media_type == s,
        content_type_header(s).normalized == s,
{
    let len = s.len() as int;
    assert forall|m: int| 0 <= m < len implies #[trigger] s[m] != ';' && s[m] != '"' && s[m] != '\\' by {
        if m != k {
            lemma_token_not_space(s[m]);
        }
    }
    lemma_token_not_space(s[0]);
    lemma_token_not_space(s[len - 1]);
    lemma_token_not_space(s[k - 1]);
    lemma_token_not_space(s[k + 1]);
    assert(crate::text::trimmed(s, 0, len) == (0int, len));
    lemma_plain_segs(s, 0, len, len, 0, false);
    let spans = crate::mime_types::seg_spans(s, 0, len);
    assert(spans == seq![(0int, len)]);
    lemma_find_char_at(s, '/', 0, k, len);
    lemma_find_char_at(s, '/', k + 1, len, len);
    assert(crate::mime_types::token_window(s, 0, k));
    assert(crate::mime_types::token_window(s, k + 1, len));
    assert(crate::text::ascii_lower(s.subrange(0, k)) =~= s.subrange(0, k));
    assert(crate::text::ascii_lower(s.subrange(k + 1, len)) =~= s.subrange(k + 1, len));
    assert(s.subrange(0, k) + seq!['/'] + s.subrange(k + 1, len) =~= s);
    assert(crate::mime_types::norm_head(s, 0, len, true) == Some(s));
    assert(spans.drop_first() =~= Seq::<(int, int)>::empty());
    assert(crate::mime_types::norm_params(s, spans.drop_first()) == Some(Seq::<char>::empty()));
    assert(s + Seq::<char>::empty() =~= s);
    assert(s.subrange(0, len) =~= s);
    assert(crate::text::ascii_lower(s) =~= s);
    let mt = crate::text::window(s, crate::text::trimmed(s, spans[0].0, spans[0].1));
    assert(mt == s);
    assert(crate::wire::content_type::ct_params_from(s, spans, 1, (seq![mt], None, None)) == (
        seq![mt],
        None::<Seq<char>>,
        None::<Seq<char>>,
    ));
    assert(crate::wire::content_type::join_semicolons(seq![mt]) == mt);
}

proof fn lemma_normalized_literals()
    ensures
        normalize_value("multipart/mixed"@, true) == Some("multipart/mixed"@),
        normalize_value("text/plain"@, true) == Some("text/plain"@),
        content_type_header("text/plain"@).media_type == "text/plain"@,
        content_type_header("text/plain"@).normalized == "text/plain"@,
{
    reveal_strlit("multipart/mixed");
    reveal_strlit("text/plain");
    lemma_normalize_media("multipart/mixed"@, 9);
    lemma_normalize_media("text/plain"@, 4);
}

// ---------------------------------------------------------------------------
// A rendered message's attachments
// ---------------------------------------------------------------------------

proof fn lemma_where_regular(a: Seq<AttachmentView>, n: int)
    requires
        0 <= n <= a.len(),
        forall|k: int| 0 <= k < a.len() ==> !is_inline_attachment(#[trigger] a[k]),
    ensures
        attachments_where(a, n, true) == Seq::<AttachmentView>::empty(),
        attachments_where(a, n, false) == a.subrange(0, n),
    decreases n,
{
    if n > 0 {
        lemma_where_regular(a, n - 1);
        assert(!is_inline_attachment(a[n - 1]));
        assert(a.subrange(0, n - 1).push(a[n - 1]) =~= a.subrange(0, n));
    } else {
        assert(a.subrange(0, 0) =~= Seq::<AttachmentView>::empty());
    }
}

proof fn lemma_leaves(a: Seq<AttachmentView>, k: int)
    requires
        0 <= k <= a.len(),
        attachment_leaves(a, k) is Ok,
    ensures
        forall|j: int| k <= j < a.len() ==> #[trigger] attachment_leaf(a[j]) is Ok,
        attachment_leaves(a, k)->Ok_0 == Seq::new((a.len() - k) as nat, |i: int| attachment_leaf(a[k + i])->Ok_0),
    decreases a.len() - k,
{
    if k < a.len() {
        lemma_leaves(a, k + 1);
        let rest = attachment_leaves(a, k + 1)->Ok_0;
        assert(attachment_leaf(a[k]) is Ok);
        let l = attachment_leaf(a[k])->Ok_0;
        assert(attachment_leaves(a, k)->Ok_0 == seq![l] + rest);
        assert(seq![l] + rest =~= Seq::new((a.len() - k) as nat, |i: int| attachment_leaf(a[k + i])->Ok_0)) by {
            assert forall|i: int| 1 <= i < a.len() - k implies (seq![l] + rest)[i] == attachment_leaf(a[k + i])->Ok_0 by {
                assert(rest[i - 1] == attachment_leaf(a[k + 1 + (i - 1)])->Ok_0);
            }
        }
    } else {
        assert(attachment_leaves(a, k)->Ok_0 =~= Seq::new((a.len() - k) as nat, |i: int| attachment_leaf(a[k + i])->Ok_0));
    }
}

proof fn lemma_names_literals()
    ensures
        "Content-Type"@.len() > 0 && "Content-Type"@[0] != '-',
        "Content-Transfer-Encoding"@.len() > 0 && "Content-Transfer-Encoding"@[0] != '-',
        "Content-Disposition"@.len() > 0 && "Content-Disposition"@[0] != '-',
        "Content-ID"@.len() > 0 && "Content-ID"@[0] != '-',
{
    reveal_strlit("Content-Type");
    reveal_strlit("Content-Transfer-Encoding");
    reveal_strlit("Content-Disposition");
    reveal_strlit("Content-ID");
}

proof fn lemma_root_undashed(b: crate::message::BodyView)
    requires
        root_render_view(b) is Some,
    ensures
        undashed_names(leaf_headers(root_render_view(b)->0)),
{
    lemma_names_literals();
    match b {
        crate::message::BodyView::Mime(mp) => {
            if mp is Leaf {
                let hs = leaf_headers(root_render_view(b)->0);
                assert forall|j: int| 0 <= j < hs.len() implies (#[trigger] hs[j]).0.len() > 0 && hs[j].0[0]
                    != '-' by {
                    assert(hs[j].0 == "Content-Type"@ || hs[j].0 == "Content-Transfer-Encoding"@ || hs[j].0
                        == "Content-Disposition"@);
                }
            }
        },
        _ => {},
    }
}

proof fn lemma_leaf_undashed(a: AttachmentView)
    requires
        attachment_leaf(a) is Ok,
    ensures
        undashed_names(leaf_headers(attachment_leaf(a)->Ok_0)),
{
    lemma_names_literals();
}

proof fn lemma_children_parts(
    ps: Seq<RenderPartView>,
    k: int,
    b: Seq<char>,
    counter: int,
    soft: Option<usize>,
    depth: int,
)
    requires
        0 <= k <= ps.len(),
        0 <= depth <= 100,
        children_rendered(ps, k, b, counter, soft, depth) is Ok,
    ensures
        children_parts(ps, k, counter, soft, depth).len() == ps.len() - k,
        forall|j: int|
            k <= j < ps.len() && ps[j] is Leaf ==> #[trigger] children_parts(ps, k, counter, soft, depth)[j - k]
                == part_bytes(leaf_headers(ps[j]), leaf_body(ps[j]), soft),
    decreases ps.len() - k,
{
    if k < ps.len() {
        let c1 = child_chunk(ps[k], b, counter, soft, depth)->Ok_0.1;
        lemma_children_parts(ps, k + 1, b, c1, soft, depth);
        let rest = children_parts(ps, k + 1, c1, soft, depth);
        assert(rendered(ps[k], counter, soft, depth) is Ok);
        let (hs, pb, c1r) = rendered(ps[k], counter, soft, depth)->Ok_0;
        assert(c1r == c1);
        assert(children_parts(ps, k, counter, soft, depth) == seq![fields_bytes(hs, 0, soft)->Ok_0 + seq![13u8, 10u8]
            + pb] + rest);
        if ps[k] is Leaf {
            assert(hs == leaf_headers(ps[k]) && pb == leaf_body(ps[k]));
        }
        assert forall|j: int|
            k <= j < ps.len() && ps[j] is Leaf implies #[trigger] children_parts(ps, k, counter, soft, depth)[j - k]
            == part_bytes(leaf_headers(ps[j]), leaf_body(ps[j]), soft) by {
            let first = fields_bytes(hs, 0, soft)->Ok_0 + seq![13u8, 10u8] + pb;
            if j > k {
                assert(rest[j - (k + 1)] == part_bytes(leaf_headers(ps[j]), leaf_body(ps[j]), soft));
                assert((seq![first] + rest)[j - k] == rest[j - (k + 1)]);
            } else {
                assert((seq![first] + rest)[0] == first);
            }
        }
    }
}

/// The tree a message with attachments and a body is written as.
pub open spec fn payload_tree(m: MessageView) -> RenderPartView {
    wrapped_tree(root_render_view(m.body)->0, m.attachments)->Ok_0
}

/// The boundary the top of a message with attachments is written with.
pub open spec fn payload_boundary(m: MessageView) -> Seq<char> {
    written_boundary(payload_tree(m), 0)
}

/// A message with regular attachments is written as a `multipart/mixed`
/// node of its body and one leaf per attachment.
proof fn lemma_payload_tree(m: MessageView, opts: RenderOptions)
    requires
        rfc822_rendered(m, opts) is Ok,
        0 < m.attachments.len(),
        forall|k: int| 0 <= k < m.attachments.len() ==> !is_inline_attachment(#[trigger] m.attachments[k]),
    ensures
        root_render_view(m.body) is Some,
        attachment_leaves(m.attachments, 0) is Ok,
        payload_tree(m) == (RenderPartView::Multipart {
            content_type: "multipart/mixed"@,
            boundary: None,
            parts: seq![root_render_view(m.body)->0] + attachment_leaves(m.attachments, 0)->Ok_0,
        }),
        rendered(payload_tree(m), 0, opts.soft_fold_at, 0) is Ok,
        rendered_body(m, opts) == rendered(payload_tree(m), 0, opts.soft_fold_at, 0)->Ok_0.1,
        render_payload(m.body, m.attachments, opts.soft_fold_at) == Ok::<
            (Seq<FieldView>, Seq<u8>, bool),
            crate::wire::mime_render::PayloadDefect,
        >(
            (
                rendered(payload_tree(m), 0, opts.soft_fold_at, 0)->Ok_0.0,
                rendered(payload_tree(m), 0, opts.soft_fold_at, 0)->Ok_0.1,
                true,
            ),
        ),
{
    let a = m.attachments;
    let soft = opts.soft_fold_at;
    assert(crate::message::validation_defect(m) is None);
    assert(render_payload(m.body, a, soft) is Ok);
    lemma_where_regular(a, a.len() as int);
    assert(a.subrange(0, a.len() as int) =~= a);
}

/// The attachments of a rendered message read back. Below its header block
/// the message splits, at the boundary its top `multipart/mixed` part was
/// written with, into the body part followed by one part per attachment, in
/// order; and each attachment part parses as a MIME leaf holding exactly
/// that attachment's bytes. This holds for attachments that are not inline,
/// fewer than 1024 of them, when no written header value of the message
/// holds a tab or starts with a space, and each attachment meets
/// `attachment_reads_back`.
proof fn lemma_children_undashed(r: RenderPartView, a: Seq<AttachmentView>)
    requires
        attachment_leaves(a, 0) is Ok,
        undashed_names(leaf_headers(r)),
    ensures
        forall|j: int|
            0 <= j < (seq![r] + attachment_leaves(a, 0)->Ok_0).len() ==> undashed_names(
                leaf_headers(#[trigger] (seq![r] + attachment_leaves(a, 0)->Ok_0)[j]),
            ),
{
    let ls = attachment_leaves(a, 0)->Ok_0;
    let ps = seq![r] + ls;
    lemma_leaves(a, 0);
    assert forall|j: int| 0 <= j < ps.len() implies undashed_names(leaf_headers(#[trigger] ps[j])) by {
        if j > 0 {
            assert(ps[j] == ls[j - 1]);
            assert(ls[j - 1] == attachment_leaf(a[0 + (j - 1)])->Ok_0);
            assert(attachment_leaf(a[j - 1]) is Ok);
            lemma_leaf_undashed(a[j - 1]);
        }
    }
}

/// The children of a `multipart/mixed` node of a body part and attachment
/// leaves split back and the attachment parts parse as their leaves.
#[verifier::spinoff_prover]
#[verifier::rlimit(100)]
proof fn lemma_mixed_attachments(r: RenderPartView, a: Seq<AttachmentView>, soft: Option<usize>)
    requires
        attachment_leaves(a, 0) is Ok,
        rendered(
            RenderPartView::Multipart {
                content_type: "multipart/mixed"@,
                boundary: None,
                parts: seq![r] + attachment_leaves(a, 0)->Ok_0,
            },
            0,
            soft,
            0,
        ) is Ok,
        undashed_names(leaf_headers(r)),
        a.len() < 1024,
        forall|k: int| 0 <= k < a.len() ==> attachment_reads_back(#[trigger] a[k], soft),
    ensures
        ({
            let tree = RenderPartView::Multipart {
                content_type: "multipart/mixed"@,
                boundary: None,
                parts: seq![r] + attachment_leaves(a, 0)->Ok_0,
            };
            let body = rendered(tree, 0, soft, 0)->Ok_0.1;
            let bv = written_boundary(tree, 0);
            &&& multipart_split(body, bv) is Ok
            &&& multipart_split(body, bv)->Ok_0.len() == a.len() + 1
            &&& forall|k: int|
                0 <= k < a.len() ==> mime_part_parsed(#[trigger] multipart_split(body, bv)->Ok_0[k + 1], 1) == Ok::<
                    MimePartView,
                    crate::wire::mime_parse::BodyDefect,
                >(attachment_read_back(a[k]))
            &&& r is Leaf ==> multipart_split(body, bv)->Ok_0[0] == part_bytes(leaf_headers(r), leaf_body(r), soft)
        }),
{
    let ls = attachment_leaves(a, 0)->Ok_0;
    let ps = seq![r] + ls;
    let tree = RenderPartView::Multipart { content_type: "multipart/mixed"@, boundary: None, parts: ps };
    lemma_leaves(a, 0);
    assert(node_children(tree) == ps);
    lemma_children_undashed(r, a);
    law_multipart_splits_back(tree, 0, soft, 0);
    let bv = written_boundary(tree, 0);
    let c1 = children_counter(tree, 0);
    assert(children_rendered(ps, 0, bv, c1, soft, 1) is Ok);
    lemma_children_parts(ps, 0, bv, c1, soft, 1);
    let parts = children_parts(ps, 0, c1, soft, 1);
    if r is Leaf {
        assert(ps[0] == r);
        assert(children_parts(ps, 0, c1, soft, 1)[0 - 0] == part_bytes(leaf_headers(ps[0]), leaf_body(ps[0]), soft));
    }
    assert forall|k: int| 0 <= k < a.len() implies mime_part_parsed(#[trigger] parts[k + 1], 1) == Ok::<
        MimePartView,
        crate::wire::mime_parse::BodyDefect,
    >(attachment_read_back(a[k])) by {
        assert(ps[k + 1] == ls[k]);
        assert(ls[k] == attachment_leaf(a[0 + k])->Ok_0);
        assert(attachment_reads_back(a[k], soft));
        assert(attachment_leaf(a[k]) is Ok);
        assert(ps[k + 1] is Leaf);
        assert(children_parts(ps, 0, c1, soft, 1)[(k + 1) - 0] == part_bytes(
            leaf_headers(ps[k + 1]),
            leaf_body(ps[k + 1]),
            soft,
        ));
        assert(parts[k + 1] == part_bytes(leaf_headers(ps[k + 1]), leaf_body(ps[k + 1]), soft));
        law_attachment_part_reads_back(a[k], soft, 1);
    }
}

pub proof fn law_rendered_attachments_read_back(m: MessageView, opts: RenderOptions)
    requires
        rfc822_rendered(m, opts) is Ok,
        forall|j: int|
            0 <= j < rendered_header_fields(m, opts).len() ==> reads_back(#[trigger] rendered_header_fields(m, opts)[j]),
        0 < m.attachments.len() < 1024,
        forall|k: int|
            0 <= k < m.attachments.len() ==> !is_inline_attachment(#[trigger] m.attachments[k])
                && attachment_reads_back(m.attachments[k], opts.soft_fold_at),
    ensures
        ({
            let b = rfc822_rendered(m, opts)->Ok_0;
            let body = b.subrange(header_split(b).1, b.len() as int);
            &&& multipart_split(body, payload_boundary(m)) is Ok
            &&& multipart_split(body, payload_boundary(m))->Ok_0.len() == m.attachments.len() + 1
            &&& forall|k: int|
                0 <= k < m.attachments.len() ==> mime_part_parsed(
                    #[trigger] multipart_split(body, payload_boundary(m))->Ok_0[k + 1],
                    1,
                ) == Ok::<MimePartView, crate::wire::mime_parse::BodyDefect>(attachment_read_back(m.attachments[k]))
        }),
        ({
            let fs = rendered_header_fields(m, opts);
            &&& fs.len() > 0
            &&& fs.last() == field("Content-Type"@, mixed_content_type(payload_boundary(m)))
            &&& content_type_header(fs.last().1).media_type == "multipart/mixed"@
            &&& content_type_header(fs.last().1).boundary == Some(payload_boundary(m))
        }),
{
    let a = m.attachments;
    let soft = opts.soft_fold_at;
    law_rendered_message_reads_back(m, opts);
    lemma_payload_tree(m, opts);
    lemma_root_undashed(m.body);
    assert forall|k: int| 0 <= k < a.len() implies attachment_reads_back(#[trigger] a[k], soft) by {
        assert(!is_inline_attachment(a[k]) && attachment_reads_back(a[k], soft));
    }
    lemma_mixed_attachments(root_render_view(m.body)->0, a, soft);
    let tree = payload_tree(m);
    lemma_leaves(a, 0);
    lemma_children_undashed(root_render_view(m.body)->0, a);
    assert(node_children(tree) == seq![root_render_view(m.body)->0] + attachment_leaves(a, 0)->Ok_0);
    law_multipart_splits_back(tree, 0, soft, 0);
    let bv = payload_boundary(m);
    lemma_mixed_content_type(bv);
    let mime = rendered(tree, 0, soft, 0)->Ok_0.0;
    assert(mime == seq![field("Content-Type"@, mixed_content_type(bv))]);
    let fs = rendered_header_fields(m, opts);
    assert(crate::message::validation_defect(m) is None);
    assert(crate::wire::date_fields(m) is Some);
    let t = crate::wire::trailing_fields(m, true, mime);
    assert(t.last() == field("Content-Type"@, mixed_content_type(bv)));
    assert(fs.last() == t.last());
}

/// The MIME leaf a plain ASCII text part reads back as.
pub open spec fn text_read_back(t: Seq<char>) -> MimePartView {
    MimePartView::Leaf {
        content_type: "text/plain"@,
        content_transfer_encoding: None,
        content_disposition: None,
        body: canonical_text(t),
    }
}

/// A written plain-text part whose text is ASCII without an over-long line
/// reads back as a `text/plain` leaf holding the text's bytes.
proof fn lemma_text_part_reads_back(t: Seq<char>, soft: Option<usize>, depth: int)
    requires
        0 <= depth <= 100,
        vstd::utf8::is_ascii_chars(t),
        !overlong_from(canonical_text(t), 0),
        fields_bytes(leaf_headers(text_leaf("text/plain"@, t)), 0, soft) is Ok,
    ensures
        mime_part_parsed(
            part_bytes(leaf_headers(text_leaf("text/plain"@, t)), leaf_body(text_leaf("text/plain"@, t)), soft),
            depth,
        ) == Ok::<MimePartView, crate::wire::mime_parse::BodyDefect>(text_read_back(t)),
{
    reveal_strlit("text/plain");
    reveal_strlit("multipart/");
    let leaf = text_leaf("text/plain"@, t);
    let hs = leaf_headers(leaf);
    let body = leaf_body(leaf);
    assert(hs == seq![field("Content-Type"@, "text/plain"@)]);
    assert(body == canonical_text(t));
    assert(reads_back(hs[0]));
    law_header_block_then_body(hs, soft, body);
    lemma_lower_literals();
    lemma_normalized_literals();
    let ct = content_type_header("text/plain"@);
    let m1 = PartMeta { ct: ct, ..default_meta() };
    assert(part_meta_from(hs, 1, m1) == Ok::<PartMeta, Seq<char>>(m1));
    assert(part_meta_from(hs, 0, default_meta()) == Ok::<PartMeta, Seq<char>>(m1));
    assert(!starts_with_chars(ct.media_type, "multipart/"@)) by {
        assert(ct.media_type[0] != "multipart/"@[0]);
        assert(ct.media_type.subrange(0, 10)[0] == ct.media_type[0]);
    }
    assert(transfer_decoded(body, None) == Ok::<Seq<u8>, Seq<char>>(body));
}

proof fn lemma_parts_parsed_all(ps: Seq<Seq<u8>>, k: int, depth: int, views: Seq<MimePartView>)
    requires
        0 <= k <= ps.len(),
        0 <= depth <= 100,
        views.len() == ps.len(),
        forall|j: int|
            k <= j < ps.len() ==> mime_part_parsed(#[trigger] ps[j], depth) == Ok::<
                MimePartView,
                crate::wire::mime_parse::BodyDefect,
            >(views[j]),
    ensures
        crate::wire::mime_parse::parts_parsed(ps, k, depth) == Ok::<
            Seq<MimePartView>,
            crate::wire::mime_parse::BodyDefect,
        >(views.subrange(k, ps.len() as int)),
    decreases ps.len() - k,
{
    if k < ps.len() {
        lemma_parts_parsed_all(ps, k + 1, depth, views);
        assert(mime_part_parsed(ps[k], depth) == Ok::<MimePartView, crate::wire::mime_parse::BodyDefect>(views[k]));
        assert(seq![views[k]] + views.subrange(k + 1, ps.len() as int) =~= views.subrange(k, ps.len() as int));
    } else {
        assert(views.subrange(k, ps.len() as int) =~= Seq::<MimePartView>::empty());
    }
}

/// The views a rendered message's parts read back as: its text body, then
/// its attachments.
pub open spec fn parts_read_back(t: Seq<char>, a: Seq<AttachmentView>) -> Seq<MimePartView> {
    seq![text_read_back(t)] + Seq::new(a.len(), |k: int| attachment_read_back(a[k]))
}

/// The `multipart/mixed` node of a text and attachment leaves.
pub open spec fn mixed_tree(t: Seq<char>, a: Seq<AttachmentView>) -> RenderPartView {
    RenderPartView::Multipart {
        content_type: "multipart/mixed"@,
        boundary: None,
        parts: seq![text_leaf("text/plain"@, t)] + attachment_leaves(a, 0)->Ok_0,
    }
}

#[verifier::spinoff_prover]
#[verifier::rlimit(60)]
proof fn lemma_mixed_parts_parse(t: Seq<char>, a: Seq<AttachmentView>, soft: Option<usize>)
    requires
        attachment_leaves(a, 0) is Ok,
        rendered(mixed_tree(t, a), 0, soft, 0) is Ok,
        a.len() < 1024,
        forall|k: int| 0 <= k < a.len() ==> attachment_reads_back(#[trigger] a[k], soft),
        vstd::utf8::is_ascii_chars(t),
        !overlong_from(canonical_text(t), 0),
    ensures
        ({
            let body = rendered(mixed_tree(t, a), 0, soft, 0)->Ok_0.1;
            let bv = written_boundary(mixed_tree(t, a), 0);
            &&& boundary_defect(bv) is None
            &&& multipart_split(body, bv) is Ok
            &&& crate::wire::mime_parse::parts_parsed(multipart_split(body, bv)->Ok_0, 0, 1) == Ok::<
                Seq<MimePartView>,
                crate::wire::mime_parse::BodyDefect,
            >(parts_read_back(t, a))
        }),
{
    let r = text_leaf("text/plain"@, t);
    let tree = mixed_tree(t, a);
    reveal_strlit("Content-Type");
    assert(undashed_names(leaf_headers(r)));
    lemma_mixed_attachments(r, a, soft);
    lemma_leaves(a, 0);
    lemma_children_undashed(r, a);
    law_multipart_splits_back(tree, 0, soft, 0);
    let bv = written_boundary(tree, 0);
    let raw = rendered(tree, 0, soft, 0)->Ok_0.1;
    let ps = multipart_split(raw, bv)->Ok_0;
    let c1 = children_counter(tree, 0);
    assert(child_chunk(r, bv, c1, soft, 1) is Ok);
    lemma_text_part_reads_back(t, soft, 1);
    let views = parts_read_back(t, a);
    assert forall|j: int| 0 <= j < ps.len() implies mime_part_parsed(#[trigger] ps[j], 1) == Ok::<
        MimePartView,
        crate::wire::mime_parse::BodyDefect,
    >(views[j]) by {
        if j > 0 {
            assert(mime_part_parsed(ps[(j - 1) + 1], 1) == Ok::<
                MimePartView,
                crate::wire::mime_parse::BodyDefect,
            >(attachment_read_back(a[j - 1])));
        }
    }
    lemma_parts_parsed_all(ps, 0, 1, views);
    assert(views.subrange(0, ps.len() as int) =~= views);
}

/// A `multipart/mixed` body whose parts parse, read with the content type
/// written for it, parses as that tree.
proof fn lemma_mixed_body_parse(raw: Seq<u8>, bv: Seq<char>, views: Seq<MimePartView>)
    requires
        boundary_defect(bv) is None,
        multipart_split(raw, bv) is Ok,
        crate::wire::mime_parse::parts_parsed(multipart_split(raw, bv)->Ok_0, 0, 1) == Ok::<
            Seq<MimePartView>,
            crate::wire::mime_parse::BodyDefect,
        >(views),
    ensures
        crate::wire::mime_parse::body_parsed(raw, Some(mixed_content_type(bv)), None) == Ok::<
            crate::message::BodyView,
            crate::wire::mime_parse::BodyDefect,
        >(
            crate::message::BodyView::Mime(
                MimePartView::Multipart { content_type: "multipart/mixed"@, boundary: Some(bv), parts: views },
            ),
        ),
{
    lemma_mixed_content_type(bv);
    lemma_normalized_literals();
    reveal_strlit("multipart/mixed");
    reveal_strlit("multipart/");
    reveal_strlit("text/plain");
    reveal_strlit("text/html");
    let h = content_type_header(mixed_content_type(bv));
    assert(h.media_type != "text/plain"@ && h.media_type != "text/html"@);
    assert(starts_with_chars(h.media_type, "multipart/"@)) by {
        assert(h.media_type.subrange(0, 10) =~= "multipart/"@);
    }
}

/// The body of a rendered message with a plain-text body and attachments,
/// read with the `Content-Type` written for it (`multipart/mixed` with its
/// boundary) and no transfer encoding, parses back as a `multipart/mixed`
/// tree: the text as a `text/plain` leaf, then each attachment as a leaf
/// holding its bytes. This holds for the messages of
/// `law_rendered_attachments_read_back` whose text is ASCII without a line
/// over 998 bytes.
pub proof fn law_rendered_body_parses_back(m: MessageView, opts: RenderOptions)
    requires
        rfc822_rendered(m, opts) is Ok,
        0 < m.attachments.len() < 1024,
        forall|k: int|
            0 <= k < m.attachments.len() ==> !is_inline_attachment(#[trigger] m.attachments[k])
                && attachment_reads_back(m.attachments[k], opts.soft_fold_at),
        m.body is Text,
        vstd::utf8::is_ascii_chars(m.body->Text_0),
        !overlong_from(canonical_text(m.body->Text_0), 0),
    ensures
        crate::wire::mime_parse::body_parsed(
            rendered_body(m, opts),
            Some(mixed_content_type(payload_boundary(m))),
            None,
        ) == Ok::<crate::message::BodyView, crate::wire::mime_parse::BodyDefect>(
            crate::message::BodyView::Mime(
                MimePartView::Multipart {
                    content_type: "multipart/mixed"@,
                    boundary: Some(payload_boundary(m)),
                    parts: parts_read_back(m.body->Text_0, m.attachments),
                },
            ),
        ),
{
    let a = m.attachments;
    let soft = opts.soft_fold_at;
    let t = m.body->Text_0;
    lemma_payload_tree(m, opts);
    assert(payload_tree(m) == mixed_tree(t, a));
    assert forall|k: int| 0 <= k < a.len() implies attachment_reads_back(#[trigger] a[k], soft) by {
        assert(!is_inline_attachment(a[k]) && attachment_reads_back(a[k], soft));
    }
    lemma_mixed_parts_parse(t, a, soft);
    lemma_mixed_body_parse(rendered_body(m, opts), payload_boundary(m), parts_read_back(t, a));
}

proof fn lemma_custom_not_mime(hs: Seq<FieldView>, k: int)
    requires
        0 <= k,
    ensures
        forall|i: int|
            0 <= i < custom_fields(hs, k, true).len() ==> !crate::wire::replaced_by_mime(
                #[trigger] custom_fields(hs, k, true)[i].0,
            ),
    decreases hs.len() - k,
{
    if k < hs.len() {
        lemma_custom_not_mime(hs, k + 1);
        let c = custom_fields(hs, k, true);
        let r = custom_fields(hs, k + 1, true);
        assert forall|i: int| 0 <= i < c.len() implies !crate::wire::replaced_by_mime(#[trigger] c[i].0) by {
            if !crate::wire::replaced_by_mime(hs[k].0) {
                if i > 0 {
                    assert(c[i] == r[i - 1]);
                }
            } else {
                assert(c[i] == r[i]);
            }
        }
    }
}

proof fn lemma_other_len(n: Seq<char>, x: Seq<char>)
    requires
        n.len() != x.len(),
    ensures
        !eq_ignore_case(n, x),
{
    if eq_ignore_case(n, x) {
        assert(ascii_lower(n).len() == n.len());
        assert(ascii_lower(x).len() == x.len());
    }
}

/// No header field of a rendered message with attachments is a
/// `Content-Transfer-Encoding` field.
proof fn lemma_no_top_encoding(m: MessageView, opts: RenderOptions)
    requires
        rfc822_rendered(m, opts) is Ok,
        0 < m.attachments.len(),
        forall|k: int| 0 <= k < m.attachments.len() ==> !is_inline_attachment(#[trigger] m.attachments[k]),
    ensures
        forall|i: int|
            0 <= i < rendered_header_fields(m, opts).len() ==> !eq_ignore_case(
                #[trigger] rendered_header_fields(m, opts)[i].0,
                "content-transfer-encoding"@,
            ),
{
    reveal_strlit("content-transfer-encoding");
    reveal_strlit("From");
    reveal_strlit("Sender");
    reveal_strlit("To");
    reveal_strlit("Cc");
    reveal_strlit("Bcc");
    reveal_strlit("Reply-To");
    reveal_strlit("Subject");
    reveal_strlit("Date");
    reveal_strlit("Message-ID");
    reveal_strlit("MIME-Version");
    reveal_strlit("Content-Type");
    let soft = opts.soft_fold_at;
    lemma_payload_tree(m, opts);
    let fs = rendered_header_fields(m, opts);
    let l = crate::wire::leading_fields(m, opts.include_bcc);
    let df = crate::wire::date_fields(m)->0;
    let d = df + crate::wire::field_if(m.message_id is Some, "Message-ID"@, m.message_id->0);
    let mime = rendered(payload_tree(m), 0, soft, 0)->Ok_0.0;
    let c = custom_fields(m.headers, 0, true);
    let t = crate::wire::trailing_fields(m, true, mime);
    assert(crate::message::validation_defect(m) is None);
    assert(crate::wire::date_fields(m) is Some);
    assert(fs == l + d + t);
    assert(mime.len() == 1 && mime[0].0 == "Content-Type"@);
    crate::wire::round_trip::lemma_leading_names(m, opts.include_bcc);
    lemma_custom_not_mime(m.headers, 0);
    assert forall|i: int| 0 <= i < fs.len() implies !eq_ignore_case(
        #[trigger] fs[i].0,
        "content-transfer-encoding"@,
    ) by {
        if i < l.len() {
            assert(fs[i] == l[i]);
            lemma_other_len(l[i].0, "content-transfer-encoding"@);
        } else if i < l.len() + d.len() {
            assert(fs[i] == d[i - l.len()]);
            lemma_other_len(d[i - l.len()].0, "content-transfer-encoding"@);
        } else {
            let q = i - l.len() - d.len();
            assert(fs[i] == t[q]);
            if q < c.len() {
                assert(t[q] == c[q]);
                assert(!crate::wire::replaced_by_mime(c[q].0));
            } else {
                lemma_other_len(t[q].0, "content-transfer-encoding"@);
            }
        }
    }
}

/// Every field, read on its own, is accepted: its address, date or message
/// id parses.
pub open spec fn fields_read_alone(fs: Seq<FieldView>) -> bool {
    forall|j: int| 0 <= j < fs.len() ==> (#[trigger] crate::wire::field_step(crate::wire::empty_state(), fs[j].0, fs[j].1)) is Ok
}

proof fn lemma_step_ok(st: crate::wire::ParseState, n: Seq<char>, v: Seq<char>)
    requires
        crate::wire::field_step(crate::wire::empty_state(), n, v) is Ok,
    ensures
        crate::wire::field_step(st, n, v) is Ok,
{
}

/// Fields that each read on their own fold without error.
proof fn lemma_fold_ok(fs: Seq<FieldView>, k: int, st: crate::wire::ParseState)
    requires
        0 <= k <= fs.len(),
        fields_read_alone(fs),
    ensures
        crate::wire::fields_fold(fs, k, st) is Ok,
    decreases fs.len() - k,
{
    if k < fs.len() {
        assert(crate::wire::field_step(crate::wire::empty_state(), fs[k].0, fs[k].1) is Ok);
        lemma_step_ok(st, fs[k].0, fs[k].1);
        lemma_fold_ok(fs, k + 1, crate::wire::field_step(st, fs[k].0, fs[k].1)->Ok_0);
    }
}

/// Reading the header fields of a rendered message with attachments: a
/// fold that succeeds ends with the written content type and no transfer
/// encoding.
proof fn lemma_fold_mime_state(fs: Seq<FieldView>, k: int, st: crate::wire::ParseState)
    requires
        0 <= k < fs.len(),
        crate::wire::fields_fold(fs, k, st) is Ok,
        st.cte is None,
        forall|j: int| k <= j < fs.len() ==> !eq_ignore_case(#[trigger] fs[j].0, "content-transfer-encoding"@),
        fs.last().0 == "Content-Type"@,
    ensures
        crate::wire::fields_fold(fs, k, st)->Ok_0.cte is None,
        crate::wire::fields_fold(fs, k, st)->Ok_0.content_type == Some(fs.last().1),
    decreases fs.len() - k,
{
    let next = crate::wire::field_step(st, fs[k].0, fs[k].1)->Ok_0;
    assert(!eq_ignore_case(fs[k].0, "content-transfer-encoding"@));
    assert(next.cte is None);
    if k + 1 < fs.len() {
        lemma_fold_mime_state(fs, k + 1, next);
    } else {
        reveal_strlit("Content-Type");
        reveal_strlit("content-type");
        reveal_strlit("from");
        reveal_strlit("sender");
        reveal_strlit("to");
        reveal_strlit("cc");
        reveal_strlit("bcc");
        reveal_strlit("reply-to");
        reveal_strlit("subject");
        reveal_strlit("date");
        reveal_strlit("message-id");
        let n = fs[k].0;
        assert(n == "Content-Type"@);
        lemma_lower_literals();
        lemma_other_len(n, "from"@);
        lemma_other_len(n, "sender"@);
        lemma_other_len(n, "to"@);
        lemma_other_len(n, "cc"@);
        lemma_other_len(n, "bcc"@);
        lemma_other_len(n, "reply-to"@);
        lemma_other_len(n, "subject"@);
        lemma_other_len(n, "date"@);
        lemma_other_len(n, "message-id"@);
        assert(next.content_type == Some(fs[k].1));
    }
}

/// A rendered message with a plain-text body and attachments parses back
/// with its body as the `multipart/mixed` tree it was written as: the text
/// as a `text/plain` leaf, then each attachment as a leaf holding exactly its
/// bytes. This holds for the messages of `law_rendered_attachments_read_back`
/// whose text is ASCII without a line over 998 bytes, whose rendering is at
/// most 16 MiB (the most a parse accepts), and whose written header fields
/// each read on their own (what depends on how the outside address and date
/// parsers read the written `From`, `To` and `Date` values, and on the
/// message id parser).
pub proof fn law_rendered_message_parses_back(m: MessageView, opts: RenderOptions)
    requires
        rfc822_rendered(m, opts) is Ok,
        rfc822_rendered(m, opts)->Ok_0.len() <= 16777216,
        forall|j: int|
            0 <= j < rendered_header_fields(m, opts).len() ==> reads_back(#[trigger] rendered_header_fields(m, opts)[j]),
        fields_read_alone(rendered_header_fields(m, opts)),
        0 < m.attachments.len() < 1024,
        forall|k: int|
            0 <= k < m.attachments.len() ==> !is_inline_attachment(#[trigger] m.attachments[k])
                && attachment_reads_back(m.attachments[k], opts.soft_fold_at),
        m.body is Text,
        vstd::utf8::is_ascii_chars(m.body->Text_0),
        !overlong_from(canonical_text(m.body->Text_0), 0),
    ensures
        crate::wire::rfc822_parsed(rfc822_rendered(m, opts)->Ok_0) is Ok,
        crate::wire::rfc822_parsed(rfc822_rendered(m, opts)->Ok_0)->Ok_0.body == crate::message::BodyView::Mime(
            MimePartView::Multipart {
                content_type: "multipart/mixed"@,
                boundary: Some(payload_boundary(m)),
                parts: parts_read_back(m.body->Text_0, m.attachments),
            },
        ),
{
    let b = rfc822_rendered(m, opts)->Ok_0;
    let fs = rendered_header_fields(m, opts);
    law_rendered_message_reads_back(m, opts);
    law_rendered_attachments_read_back(m, opts);
    law_rendered_body_parses_back(m, opts);
    lemma_no_top_encoding(m, opts);
    lemma_fold_ok(fs, 0, crate::wire::empty_state());
    lemma_fold_mime_state(fs, 0, crate::wire::empty_state());
    let st = crate::wire::fields_fold(fs, 0, crate::wire::empty_state())->Ok_0;
    assert(st.content_type == Some(mixed_content_type(payload_boundary(m))));
    assert(st.cte is None);
    let sp = header_split(b);
    assert(b.subrange(sp.1, b.len() as int) == rendered_body(m, opts));
}

/// A fold over fields none of which is a `Content-Type` or a
/// `Content-Transfer-Encoding` field leaves both unset.
proof fn lemma_fold_plain_state(fs: Seq<FieldView>, k: int, st: crate::wire::ParseState)
    requires
        0 <= k <= fs.len(),
        crate::wire::fields_fold(fs, k, st) is Ok,
        st.cte is None,
        st.content_type is None,
        forall|j: int|
            k <= j < fs.len() ==> !eq_ignore_case(#[trigger] fs[j].0, "content-transfer-encoding"@) && !eq_ignore_case(
                fs[j].0,
                "content-type"@,
            ),
    ensures
        crate::wire::fields_fold(fs, k, st)->Ok_0.cte is None,
        crate::wire::fields_fold(fs, k, st)->Ok_0.content_type is None,
    decreases fs.len() - k,
{
    if k < fs.len() {
        let next = crate::wire::field_step(st, fs[k].0, fs[k].1)->Ok_0;
        assert(!eq_ignore_case(fs[k].0, "content-transfer-encoding"@) && !eq_ignore_case(fs[k].0, "content-type"@));
        assert(next.cte is None && next.content_type is None);
        lemma_fold_plain_state(fs, k + 1, next);
    }
}

/// No header field of a rendered plain-text message is a MIME field, when
/// no custom header is named `Content-Type` or `Content-Transfer-Encoding`.
proof fn lemma_no_top_mime_fields(m: MessageView, opts: RenderOptions)
    requires
        rfc822_rendered(m, opts) is Ok,
        m.attachments.len() == 0,
        crate::wire::mime_render::plain_text_body(m.body) is Some,
        forall|j: int|
            0 <= j < m.headers.len() ==> !eq_ignore_case(#[trigger] m.headers[j].0, "content-type"@) && !eq_ignore_case(
                m.headers[j].0,
                "content-transfer-encoding"@,
            ),
    ensures
        forall|i: int|
            0 <= i < rendered_header_fields(m, opts).len() ==> !eq_ignore_case(
                #[trigger] rendered_header_fields(m, opts)[i].0,
                "content-transfer-encoding"@,
            ) && !eq_ignore_case(rendered_header_fields(m, opts)[i].0, "content-type"@),
{
    reveal_strlit("content-transfer-encoding");
    reveal_strlit("content-type");
    reveal_strlit("From");
    reveal_strlit("Sender");
    reveal_strlit("To");
    reveal_strlit("Cc");
    reveal_strlit("Bcc");
    reveal_strlit("Reply-To");
    reveal_strlit("Subject");
    reveal_strlit("Date");
    reveal_strlit("Message-ID");
    let soft = opts.soft_fold_at;
    let fs = rendered_header_fields(m, opts);
    let l = crate::wire::leading_fields(m, opts.include_bcc);
    let df = crate::wire::date_fields(m)->0;
    let d = df + crate::wire::field_if(m.message_id is Some, "Message-ID"@, m.message_id->0);
    let c = custom_fields(m.headers, 0, false);
    assert(crate::message::validation_defect(m) is None);
    assert(crate::wire::date_fields(m) is Some);
    assert(render_payload(m.body, m.attachments, soft) is Ok);
    assert(render_payload(m.body, m.attachments, soft)->Ok_0.2 == false);
    assert(render_payload(m.body, m.attachments, soft)->Ok_0.0 == Seq::<FieldView>::empty());
    let t = crate::wire::trailing_fields(m, false, seq![]);
    assert(t =~= c);
    assert(fs == l + d + t);
    crate::wire::round_trip::lemma_leading_names(m, opts.include_bcc);
    crate::wire::round_trip::lemma_custom_names(m.headers, 0, false);
    assert forall|i: int| 0 <= i < fs.len() implies !eq_ignore_case(
        #[trigger] fs[i].0,
        "content-transfer-encoding"@,
    ) && !eq_ignore_case(fs[i].0, "content-type"@) by {
        if i < l.len() {
            assert(fs[i] == l[i]);
            lemma_other_len(l[i].0, "content-transfer-encoding"@);
            lemma_other_len(l[i].0, "content-type"@);
        } else if i < l.len() + d.len() {
            assert(fs[i] == d[i - l.len()]);
            lemma_other_len(d[i - l.len()].0, "content-transfer-encoding"@);
            lemma_other_len(d[i - l.len()].0, "content-type"@);
        } else {
            let q = i - l.len() - d.len();
            assert(fs[i] == c[q]);
            let j = choose|j: int| 0 <= j < m.headers.len() && #[trigger] c[q].0 == m.headers[j].0;
            assert(!eq_ignore_case(m.headers[j].0, "content-type"@));
        }
    }
}

/// A rendered message whose body is ASCII text without a line over 998
/// bytes and that has no attachments parses back with that text as its
/// body. This holds when its rendering is at most 16 MiB (the most a parse
/// accepts), no written header value holds a tab or starts with a space, no
/// custom header is named `Content-Type` or `Content-Transfer-Encoding`, and
/// its written header fields each read on their own (what depends on how
/// the outside address and date parsers read the written `From`, `To` and
/// `Date` values, and on the message id parser). The parsed message is then
/// what `law_rendered_subject_reads_back` speaks of.
pub proof fn law_plain_message_parses_back(m: MessageView, opts: RenderOptions)
    requires
        rfc822_rendered(m, opts) is Ok,
        rfc822_rendered(m, opts)->Ok_0.len() <= 16777216,
        forall|j: int|
            0 <= j < rendered_header_fields(m, opts).len() ==> reads_back(#[trigger] rendered_header_fields(m, opts)[j]),
        fields_read_alone(rendered_header_fields(m, opts)),
        m.attachments.len() == 0,
        crate::wire::mime_render::plain_text_body(m.body) is Some,
        forall|j: int|
            0 <= j < m.headers.len() ==> !eq_ignore_case(#[trigger] m.headers[j].0, "content-type"@) && !eq_ignore_case(
                m.headers[j].0,
                "content-transfer-encoding"@,
            ),
    ensures
        crate::wire::rfc822_parsed(rfc822_rendered(m, opts)->Ok_0) is Ok,
        crate::wire::rfc822_parsed(rfc822_rendered(m, opts)->Ok_0)->Ok_0.body == crate::message::BodyView::Text(
            crate::text::utf8_lossy(canonical_text(m.body->Text_0)),
        ),
{
    let soft = opts.soft_fold_at;
    let b = rfc822_rendered(m, opts)->Ok_0;
    let fs = rendered_header_fields(m, opts);
    law_rendered_message_reads_back(m, opts);
    lemma_no_top_mime_fields(m, opts);
    lemma_fold_ok(fs, 0, crate::wire::empty_state());
    lemma_fold_plain_state(fs, 0, crate::wire::empty_state());
    assert(render_payload(m.body, m.attachments, soft) is Ok) by {
        assert(crate::message::validation_defect(m) is None);
    }
    assert(rendered_body(m, opts) == canonical_text(m.body->Text_0));
    assert(transfer_decoded(rendered_body(m, opts), None) == Ok::<Seq<u8>, Seq<char>>(rendered_body(m, opts)));
}

/// A message sent without MIME: ASCII text without a line over 998 bytes,
/// no attachments, and no custom `Content-Type` or
/// `Content-Transfer-Encoding` header.
pub open spec fn plain_message(m: MessageView) -> bool {
    &&& m.attachments.len() == 0
    &&& crate::wire::mime_render::plain_text_body(m.body) is Some
    &&& forall|j: int|
        0 <= j < m.headers.len() ==> !eq_ignore_case(#[trigger] m.headers[j].0, "content-type"@) && !eq_ignore_case(
            m.headers[j].0,
            "content-transfer-encoding"@,
        )
}

/// A message of ASCII text without a line over 998 bytes and fewer than
/// 1024 attachments, none inline, each meeting `attachment_reads_back`.
pub open spec fn text_with_attachments(m: MessageView, soft: Option<usize>) -> bool {
    &&& 0 < m.attachments.len() < 1024
    &&& forall|k: int|
        0 <= k < m.attachments.len() ==> !is_inline_attachment(#[trigger] m.attachments[k])
            && attachment_reads_back(m.attachments[k], soft)
    &&& m.body is Text
    &&& vstd::utf8::is_ascii_chars(m.body->Text_0)
    &&& !overlong_from(canonical_text(m.body->Text_0), 0)
}

/// A rendered message parses back with its subject, for the messages of
/// `law_plain_message_parses_back` and `law_rendered_message_parses_back`:
/// an ASCII subject that does not spell `=?` comes back as written, and so
/// does a subject with other characters, written as encoded words, when the
/// base64 encoding of each word decodes back (what `base64_encode` states of
/// each call).
pub proof fn law_rendered_message_keeps_subject(m: MessageView, opts: RenderOptions)
    requires
        rfc822_rendered(m, opts) is Ok,
        rfc822_rendered(m, opts)->Ok_0.len() <= 16777216,
        forall|j: int|
            0 <= j < rendered_header_fields(m, opts).len() ==> reads_back(#[trigger] rendered_header_fields(m, opts)[j]),
        fields_read_alone(rendered_header_fields(m, opts)),
        plain_message(m) || text_with_attachments(m, opts.soft_fold_at),
        m.subject matches Some(s) ==> (vstd::utf8::is_ascii_chars(s) && crate::wire::encoded_word::find_pair(
            s,
            0,
            '=',
            '?',
        ) is None) || (!vstd::utf8::is_ascii_chars(s) && crate::wire::encoded_word::words_code_back(s, 0)),
    ensures
        crate::wire::rfc822_parsed(rfc822_rendered(m, opts)->Ok_0) is Ok,
        crate::wire::rfc822_parsed(rfc822_rendered(m, opts)->Ok_0)->Ok_0.subject == m.subject,
{
    if plain_message(m) {
        law_plain_message_parses_back(m, opts);
    } else {
        law_rendered_message_parses_back(m, opts);
    }
    crate::wire::round_trip::law_rendered_subject_reads_back(m, opts);
}

} // verus!
