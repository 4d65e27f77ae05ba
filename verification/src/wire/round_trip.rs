//! Rendering and parsing agree: a rendered header block reads back as the
//! fields that were written, and a parsed rendered message keeps its subject.
use vstd::prelude::*;
use crate::wire::header::{
    FieldView, find_bytes, flushed, header_fields, header_fields_from, header_split, lemma_fields_end,
    lemma_fields_without_final_crlf, lemma_line_block_concat, lemma_rendered_field_block, lemma_rendered_field_within,
    line_block, rendered_field,
};
use crate::wire::mime_render::{
    RenderPartView, field, fields_bytes, leaf_fields, mime_render_view, render_payload, rendered, root_render_view,
    text_leaf, wrapped_tree,
};
use crate::mime_types::MimePartView;
use crate::text::{ascii_lower, eq_ignore_case};
use crate::wire::{
    ParseState, RenderOptions, custom_fields, date_fields, empty_state, field_if, field_step, fields_fold, head_rendered,
    law_bcc_only_on_request, leading_fields, rfc822_parsed, rfc822_rendered, trailing_fields,
};
use crate::wire::encoded_word::{find_pair, lemma_b64_words_round_trip, rfc2047_decoded, unstructured_encoded, words_code_back};
use crate::message::{MessageView, first_reserved, is_reserved_name, validation_defect};
use vstd::utf8::is_ascii_chars;

verus! {

/// A field value that the folding keeps intact on the way back: no tabs,
/// and no space at its start.
pub open spec fn reads_back(f: FieldView) -> bool {
    &&& forall|m: int| 0 <= m < f.1.len() ==> f.1[m] != '\t'
    &&& f.1.len() > 0 ==> f.1[0] != ' '
}

proof fn lemma_fields_bytes_within(
    raw: Seq<u8>,
    pos: int,
    fs: Seq<FieldView>,
    k: int,
    soft: Option<usize>,
    done: Seq<FieldView>,
    cur: Option<FieldView>,
)
    requires
        0 <= k <= fs.len(),
        fields_bytes(fs, k, soft) is Ok,
        forall|j: int| k <= j < fs.len() ==> reads_back(#[trigger] fs[j]),
        0 <= pos,
        pos + fields_bytes(fs, k, soft)->Ok_0.len() <= raw.len(),
        raw.subrange(pos, pos + fields_bytes(fs, k, soft)->Ok_0.len()) == fields_bytes(fs, k, soft)->Ok_0,
    ensures
        k == fs.len() ==> fields_bytes(fs, k, soft)->Ok_0.len() == 0,
        k < fs.len() ==> header_fields_from(raw, pos, done, cur) == header_fields_from(
            raw,
            pos + fields_bytes(fs, k, soft)->Ok_0.len(),
            flushed(done, cur) + fs.subrange(k, fs.len() - 1),
            Some(fs[fs.len() - 1]),
        ),
    decreases fs.len() - k,
{
    if k < fs.len() {
        let b = rendered_field(fs[k].0, fs[k].1, soft)->Ok_0;
        let rest = fields_bytes(fs, k + 1, soft)->Ok_0;
        let all = fields_bytes(fs, k, soft)->Ok_0;
        assert(all == b + rest);
        assert(raw.subrange(pos, pos + b.len()) =~= b) by {
            assert forall|j: int| 0 <= j < b.len() implies raw.subrange(pos, pos + b.len())[j] == b[j] by {
                assert(raw[pos + j] == raw.subrange(pos, pos + all.len())[j]);
            }
        }
        assert(reads_back(fs[k]));
        lemma_rendered_field_within(raw, pos, fs[k].0, fs[k].1, soft, done, cur);
        let d1 = flushed(done, cur);
        assert(raw.subrange(pos + b.len(), pos + b.len() + rest.len()) =~= rest) by {
            assert forall|j: int| 0 <= j < rest.len() implies raw.subrange(pos + b.len(), pos + b.len() + rest.len())[j]
                == rest[j] by {
                assert(raw[pos + b.len() + j] == raw.subrange(pos, pos + all.len())[b.len() + j]);
            }
        }
        lemma_fields_bytes_within(raw, pos + b.len(), fs, k + 1, soft, d1, Some(fs[k]));
        if k + 1 == fs.len() {
            assert(d1 + fs.subrange(k, fs.len() - 1) =~= d1);
        } else {
            assert(flushed(d1, Some(fs[k])) + fs.subrange(k + 1, fs.len() - 1) =~= d1 + fs.subrange(k, fs.len() - 1));
        }
    }
}

/// A rendered header block reads back as the fields that were written, each
/// unfolded, when no value holds a tab or starts with a space.
pub proof fn law_header_block_reads_back(fs: Seq<FieldView>, soft: Option<usize>)
    requires
        fields_bytes(fs, 0, soft) is Ok,
        forall|j: int| 0 <= j < fs.len() ==> reads_back(#[trigger] fs[j]),
    ensures
        header_fields(fields_bytes(fs, 0, soft)->Ok_0) == Ok::<Seq<FieldView>, crate::wire::header::LineDefect>(fs),
{
    let raw = fields_bytes(fs, 0, soft)->Ok_0;
    assert(raw.subrange(0, raw.len() as int) =~= raw);
    lemma_fields_bytes_within(raw, 0, fs, 0, soft, seq![], None);
    if fs.len() > 0 {
        lemma_fields_end(raw, fs.subrange(0, fs.len() - 1), Some(fs[fs.len() - 1]));
        assert(flushed(Seq::<FieldView>::empty(), None) + fs.subrange(0, fs.len() - 1) =~= fs.subrange(0, fs.len() - 1));
        assert(fs.subrange(0, fs.len() - 1).push(fs[fs.len() - 1]) =~= fs);
        assert(flushed(fs.subrange(0, fs.len() - 1), Some(fs[fs.len() - 1])) == fs);
        assert(header_fields(raw) == header_fields_from(raw, 0, seq![], None));
    } else {
        lemma_fields_end(raw, seq![], None);
        assert(fs =~= Seq::<FieldView>::empty());
        assert(raw.len() == 0);
    }
}

proof fn lemma_fields_bytes_shift(a: Seq<FieldView>, c: Seq<FieldView>, j: int, soft: Option<usize>)
    requires
        0 <= j <= c.len(),
    ensures
        fields_bytes(a + c, a.len() + j, soft) == fields_bytes(c, j, soft),
    decreases c.len() - j,
{
    if j < c.len() {
        assert((a + c)[a.len() + j] == c[j]);
        lemma_fields_bytes_shift(a, c, j + 1, soft);
    }
}

proof fn lemma_fields_bytes_prefix(a: Seq<FieldView>, c: Seq<FieldView>, k: int, soft: Option<usize>)
    requires
        0 <= k <= a.len(),
        fields_bytes(a, k, soft) is Ok,
        fields_bytes(c, 0, soft) is Ok,
    ensures
        fields_bytes(a + c, k, soft) == Ok::<Seq<u8>, crate::wire::mime_render::RenderDefect>(
            fields_bytes(a, k, soft)->Ok_0 + fields_bytes(c, 0, soft)->Ok_0,
        ),
    decreases a.len() - k,
{
    if k == a.len() {
        lemma_fields_bytes_shift(a, c, 0, soft);
        assert(fields_bytes(a, k, soft)->Ok_0 =~= Seq::<u8>::empty());
        assert(Seq::<u8>::empty() + fields_bytes(c, 0, soft)->Ok_0 =~= fields_bytes(c, 0, soft)->Ok_0);
    } else {
        assert((a + c)[k] == a[k]);
        lemma_fields_bytes_prefix(a, c, k + 1, soft);
        let b = rendered_field(a[k].0, a[k].1, soft)->Ok_0;
        assert(b + (fields_bytes(a, k + 1, soft)->Ok_0 + fields_bytes(c, 0, soft)->Ok_0) =~= (b + fields_bytes(
            a,
            k + 1,
            soft,
        )->Ok_0) + fields_bytes(c, 0, soft)->Ok_0);
    }
}

/// Writing two lists of fields one after the other writes their
/// concatenation.
pub proof fn lemma_fields_bytes_concat(a: Seq<FieldView>, c: Seq<FieldView>, soft: Option<usize>)
    requires
        fields_bytes(a, 0, soft) is Ok,
        fields_bytes(c, 0, soft) is Ok,
    ensures
        fields_bytes(a + c, 0, soft) == Ok::<Seq<u8>, crate::wire::mime_render::RenderDefect>(
            fields_bytes(a, 0, soft)->Ok_0 + fields_bytes(c, 0, soft)->Ok_0,
        ),
{
    lemma_fields_bytes_prefix(a, c, 0, soft);
}

/// Written fields are a block of CRLF-terminated lines without an empty one.
pub proof fn lemma_fields_bytes_block(fs: Seq<FieldView>, k: int, soft: Option<usize>)
    requires
        0 <= k <= fs.len(),
        fields_bytes(fs, k, soft) is Ok,
    ensures
        k < fs.len() ==> line_block(fields_bytes(fs, k, soft)->Ok_0),
        k == fs.len() ==> fields_bytes(fs, k, soft)->Ok_0.len() == 0,
    decreases fs.len() - k,
{
    if k < fs.len() {
        lemma_rendered_field_block(fs[k].0, fs[k].1, soft);
        lemma_fields_bytes_block(fs, k + 1, soft);
        let b = rendered_field(fs[k].0, fs[k].1, soft)->Ok_0;
        let rest = fields_bytes(fs, k + 1, soft)->Ok_0;
        if rest.len() > 0 {
            lemma_line_block_concat(b, rest);
        } else {
            assert(b + rest =~= b);
        }
    }
}

/// `pat` stands at `j` of `s`.
pub open spec fn pattern_at(s: Seq<u8>, j: int, pat: Seq<u8>) -> bool {
    s.subrange(j, j + pat.len()) == pat
}

proof fn lemma_find_bytes_at(s: Seq<u8>, i: int, p: int, pat: Seq<u8>)
    requires
        0 <= i <= p,
        p + pat.len() <= s.len(),
        s.subrange(p, p + pat.len()) == pat,
        forall|j: int| i <= j < p ==> !#[trigger] pattern_at(s, j, pat),
        pat.len() > 0,
    ensures
        find_bytes(s, i, pat) == Some(p),
    decreases p - i,
{
    if i < p {
        assert(!pattern_at(s, i, pat));
        lemma_find_bytes_at(s, i + 1, p, pat);
    }
}

/// A message made of a header block, a blank line and a body splits where
/// the blank line stands.
pub proof fn lemma_message_split(h: Seq<u8>, body: Seq<u8>)
    requires
        line_block(h),
    ensures
        header_split(h + seq![13u8, 10u8] + body) == (h.len() - 2, h.len() + 2int),
        (h + seq![13u8, 10u8] + body).subrange(0, h.len() - 2) == h.subrange(0, h.len() - 2),
        (h + seq![13u8, 10u8] + body).subrange(h.len() + 2int, (h + seq![13u8, 10u8] + body).len() as int) == body,
{
    let b = h + seq![13u8, 10u8] + body;
    let pat = seq![13u8, 10u8, 13u8, 10u8];
    let n = h.len() as int;
    assert(b[0] == h[0]);
    assert(b.subrange(n - 2, n + 2) =~= pat) by {
        assert(b[n - 2] == h[n - 2] && b[n - 1] == h[n - 1]);
        assert(b[n] == 13 && b[n + 1] == 10);
    }
    assert forall|j: int| 0 <= j < n - 2 implies !#[trigger] pattern_at(b, j, pat) by {
        if b.subrange(j, j + 4) == pat {
            assert(b[j] == b.subrange(j, j + 4)[0]);
            assert(b[j + 1] == b.subrange(j, j + 4)[1]);
            assert(b[j + 2] == b.subrange(j, j + 4)[2]);
            assert(b[j] == h[j] && b[j + 1] == h[j + 1] && b[j + 2] == h[j + 2]);
            assert(h[j + 1] == 10);
        }
    }
    lemma_find_bytes_at(b, 0, n - 2, pat);
    assert(b.subrange(0, n - 2) =~= h.subrange(0, n - 2));
    assert(b.subrange(n + 2, b.len() as int) =~= body);
}

/// A header block followed by a blank line and a body reads back as the
/// fields that were written, unfolded; the body is what follows.
pub proof fn law_header_block_then_body(fs: Seq<FieldView>, soft: Option<usize>, body: Seq<u8>)
    requires
        fs.len() > 0,
        fields_bytes(fs, 0, soft) is Ok,
        forall|j: int| 0 <= j < fs.len() ==> reads_back(#[trigger] fs[j]),
    ensures
        ({
            let b = fields_bytes(fs, 0, soft)->Ok_0 + seq![13u8, 10u8] + body;
            &&& header_fields(b.subrange(0, header_split(b).0)) == Ok::<
                Seq<FieldView>,
                crate::wire::header::LineDefect,
            >(fs)
            &&& b.subrange(header_split(b).1, b.len() as int) == body
        }),
{
    let h = fields_bytes(fs, 0, soft)->Ok_0;
    lemma_fields_bytes_block(fs, 0, soft);
    lemma_message_split(h, body);
    law_header_block_reads_back(fs, soft);
    lemma_fields_without_final_crlf(h, 0, seq![], None);
}

/// The header fields a rendered message is written with: the typed fields,
/// the date and message id, the custom headers and, for a MIME body,
/// `MIME-Version` and the body's MIME fields.
pub open spec fn rendered_header_fields(m: MessageView, opts: RenderOptions) -> Seq<FieldView> {
    match (date_fields(m), render_payload(m.body, m.attachments, opts.soft_fold_at)) {
        (Some(df), Ok((mime, _body, is_mime))) => leading_fields(m, opts.include_bcc) + (df + field_if(
            m.message_id is Some,
            "Message-ID"@,
            m.message_id->0,
        )) + trailing_fields(m, is_mime, mime),
        _ => seq![],
    }
}

/// The bytes below the blank line of a rendered message.
pub open spec fn rendered_body(m: MessageView, opts: RenderOptions) -> Seq<u8> {
    match render_payload(m.body, m.attachments, opts.soft_fold_at) {
        Ok((_mime, body, _is_mime)) => body,
        Err(_) => seq![],
    }
}

/// A rendered message is its header fields written out, a blank line, and
/// its body.
pub proof fn lemma_rendered_message_shape(m: MessageView, opts: RenderOptions)
    requires
        rfc822_rendered(m, opts) is Ok,
    ensures
        rendered_header_fields(m, opts).len() > 0,
        fields_bytes(rendered_header_fields(m, opts), 0, opts.soft_fold_at) is Ok,
        rfc822_rendered(m, opts)->Ok_0 == fields_bytes(rendered_header_fields(m, opts), 0, opts.soft_fold_at)->Ok_0
            + seq![13u8, 10u8] + rendered_body(m, opts),
{
    let soft = opts.soft_fold_at;
    let l = leading_fields(m, opts.include_bcc);
    let df = date_fields(m)->0;
    let d = df + field_if(m.message_id is Some, "Message-ID"@, m.message_id->0);
    let pay = render_payload(m.body, m.attachments, soft)->Ok_0;
    let t = trailing_fields(m, pay.2, pay.0);
    assert(validation_defect(m) is None);
    assert(head_rendered(m, opts) is Ok);
    assert(fields_bytes(l, 0, soft) is Ok);
    assert(date_fields(m) is Some);
    assert(fields_bytes(d, 0, soft) is Ok);
    assert(render_payload(m.body, m.attachments, soft) is Ok);
    assert(fields_bytes(t, 0, soft) is Ok);
    lemma_fields_bytes_concat(l, d, soft);
    lemma_fields_bytes_concat(l + d, t, soft);
    let fs = l + d + t;
    assert(fs == rendered_header_fields(m, opts));
    let h = fields_bytes(fs, 0, soft)->Ok_0;
    assert(rfc822_rendered(m, opts)->Ok_0 == h + seq![13u8, 10u8] + pay.1);
    assert(m.from is Some);
    assert(l.len() > 0) by {
        assert(l[0] == field("From"@, crate::wire::header::mailbox_header(m.from->0)));
    }
}

/// Reading a rendered message back: its header block reads as exactly the
/// fields it was written with, each unfolded, and what follows the blank
/// line is the rendered body. This holds when no written header value holds
/// a tab or starts with a space.
pub proof fn law_rendered_message_reads_back(m: MessageView, opts: RenderOptions)
    requires
        rfc822_rendered(m, opts) is Ok,
        forall|j: int|
            0 <= j < rendered_header_fields(m, opts).len() ==> reads_back(#[trigger] rendered_header_fields(m, opts)[j]),
    ensures
        ({
            let b = rfc822_rendered(m, opts)->Ok_0;
            &&& header_fields(b.subrange(0, header_split(b).0)) == Ok::<
                Seq<FieldView>,
                crate::wire::header::LineDefect,
            >(rendered_header_fields(m, opts))
            &&& b.subrange(header_split(b).1, b.len() as int) == rendered_body(m, opts)
        }),
{
    lemma_rendered_message_shape(m, opts);
    law_header_block_then_body(rendered_header_fields(m, opts), opts.soft_fold_at, rendered_body(m, opts));
}

/// A name the MIME fields of a body are written under.
pub open spec fn mime_field_name(n: Seq<char>) -> bool {
    n == "Content-Type"@ || n == "Content-Transfer-Encoding"@ || n == "Content-Disposition"@
}

/// The fields at the top of a render tree are MIME fields: a multipart
/// node writes only its `Content-Type`, a leaf its own fields.
pub open spec fn top_fields_mime(t: RenderPartView) -> bool {
    match t {
        RenderPartView::Multipart { .. } => true,
        RenderPartView::Leaf { headers, .. } => forall|i: int| 0 <= i < headers.len() ==> mime_field_name(#[trigger] headers[i].0),
    }
}

proof fn lemma_text_leaf_top(ct: Seq<char>, v: Seq<char>)
    ensures
        top_fields_mime(text_leaf(ct, v)),
{
}

proof fn lemma_mime_view_top(m: MimePartView, depth: int)
    ensures
        mime_render_view(m, depth) matches Some(r) ==> top_fields_mime(r),
{
    match m {
        MimePartView::Leaf { content_type, content_transfer_encoding, content_disposition, body } => {
            let hs = leaf_fields(content_type, content_transfer_encoding, content_disposition);
            assert forall|i: int| 0 <= i < hs.len() implies mime_field_name(#[trigger] hs[i].0) by {
                if i > 0 {
                    if content_transfer_encoding is Some {
                        if i == 1 {
                            assert(hs[1].0 == "Content-Transfer-Encoding"@);
                        } else {
                            assert(hs[2].0 == "Content-Disposition"@);
                        }
                    } else {
                        assert(hs[1].0 == "Content-Disposition"@);
                    }
                }
            }
        },
        MimePartView::Multipart { .. } => {},
    }
}

proof fn lemma_root_top(b: crate::message::BodyView)
    ensures
        root_render_view(b) matches Some(r) ==> top_fields_mime(r),
{
    match b {
        crate::message::BodyView::Mime(m) => lemma_mime_view_top(m, 0),
        _ => {},
    }
}

/// The MIME fields a rendered body adds to the message's header are
/// `Content-Type`, `Content-Transfer-Encoding` and `Content-Disposition`.
pub proof fn lemma_payload_mime_names(body: crate::message::BodyView, a: Seq<crate::message::AttachmentView>, soft: Option<usize>)
    ensures
        render_payload(body, a, soft) matches Ok((mime, _b, _is_mime)) ==> forall|i: int|
            0 <= i < mime.len() ==> mime_field_name(#[trigger] mime[i].0),
{
    lemma_root_top(body);
    if let Some(r) = root_render_view(body) {
        if let Ok(t) = wrapped_tree(r, a) {
            assert(top_fields_mime(t));
        }
    }
    match body {
        crate::message::BodyView::Text(t) => lemma_text_leaf_top("text/plain"@, t),
        _ => {},
    }
}

pub proof fn lemma_eq_ignore_case_len(a: Seq<char>, b: Seq<char>)
    requires
        eq_ignore_case(a, b),
    ensures
        a.len() == b.len(),
{
    assert(ascii_lower(a).len() == a.len());
    assert(ascii_lower(b).len() == b.len());
}

/// Whether a field is read as the subject.
pub open spec fn subject_named(n: Seq<char>) -> bool {
    eq_ignore_case(n, "subject"@)
}

/// The subject after reading fields `k..`: the decoded value of the last
/// field named `Subject` (ignoring case), else `prev`.
pub open spec fn subject_of_fields(fs: Seq<FieldView>, k: int, prev: Option<Seq<char>>) -> Option<Seq<char>>
    decreases fs.len() - k,
{
    if k < 0 || k >= fs.len() {
        prev
    } else if subject_named(fs[k].0) {
        subject_of_fields(fs, k + 1, Some(rfc2047_decoded(fs[k].1)))
    } else {
        subject_of_fields(fs, k + 1, prev)
    }
}

proof fn lemma_not_subject_len(n: Seq<char>)
    requires
        n.len() != 7,
    ensures
        !subject_named(n),
{
    reveal_strlit("subject");
    if subject_named(n) {
        lemma_eq_ignore_case_len(n, "subject"@);
    }
}

proof fn lemma_step_subject(st: ParseState, n: Seq<char>, v: Seq<char>)
    ensures
        field_step(st, n, v) matches Ok(next) ==> next.subject == (if subject_named(n) {
            Some(rfc2047_decoded(v))
        } else {
            st.subject
        }),
{
    reveal_strlit("subject");
    reveal_strlit("from");
    reveal_strlit("sender");
    reveal_strlit("to");
    reveal_strlit("cc");
    reveal_strlit("bcc");
    reveal_strlit("reply-to");
    if subject_named(n) {
        lemma_eq_ignore_case_len(n, "subject"@);
        if eq_ignore_case(n, "from"@) {
            lemma_eq_ignore_case_len(n, "from"@);
        }
        if eq_ignore_case(n, "sender"@) {
            lemma_eq_ignore_case_len(n, "sender"@);
        }
        if eq_ignore_case(n, "to"@) {
            lemma_eq_ignore_case_len(n, "to"@);
        }
        if eq_ignore_case(n, "cc"@) {
            lemma_eq_ignore_case_len(n, "cc"@);
        }
        if eq_ignore_case(n, "bcc"@) {
            lemma_eq_ignore_case_len(n, "bcc"@);
        }
        if eq_ignore_case(n, "reply-to"@) {
            lemma_eq_ignore_case_len(n, "reply-to"@);
        }
    }
}

proof fn lemma_fold_subject(fs: Seq<FieldView>, k: int, st: ParseState)
    requires
        0 <= k,
    ensures
        fields_fold(fs, k, st) matches Ok(fin) ==> fin.subject == subject_of_fields(fs, k, st.subject),
    decreases fs.len() - k,
{
    if k < fs.len() {
        lemma_step_subject(st, fs[k].0, fs[k].1);
        if let Ok(next) = field_step(st, fs[k].0, fs[k].1) {
            lemma_fold_subject(fs, k + 1, next);
        }
    }
}

proof fn lemma_subject_of_fields_none(fs: Seq<FieldView>, k: int, prev: Option<Seq<char>>)
    requires
        0 <= k,
        forall|i: int| k <= i < fs.len() ==> !#[trigger] subject_named(fs[i].0),
    ensures
        subject_of_fields(fs, k, prev) == prev,
    decreases fs.len() - k,
{
    if k < fs.len() {
        lemma_subject_of_fields_none(fs, k + 1, prev);
    }
}

proof fn lemma_subject_of_fields_last(fs: Seq<FieldView>, k: int, prev: Option<Seq<char>>, j: int)
    requires
        0 <= k <= j < fs.len(),
        subject_named(fs[j].0),
        forall|i: int| j < i < fs.len() ==> !#[trigger] subject_named(fs[i].0),
    ensures
        subject_of_fields(fs, k, prev) == Some(rfc2047_decoded(fs[j].1)),
    decreases fs.len() - k,
{
    if k < j {
        if subject_named(fs[k].0) {
            lemma_subject_of_fields_last(fs, k + 1, Some(rfc2047_decoded(fs[k].1)), j);
        } else {
            lemma_subject_of_fields_last(fs, k + 1, prev, j);
        }
    } else {
        lemma_subject_of_fields_none(fs, k + 1, Some(rfc2047_decoded(fs[k].1)));
    }
}

proof fn lemma_first_reserved_none(hs: Seq<FieldView>, k: int)
    requires
        0 <= k,
        first_reserved(hs, k) is None,
    ensures
        forall|i: int| k <= i < hs.len() ==> !is_reserved_name(#[trigger] hs[i].0),
    decreases hs.len() - k,
{
    if k < hs.len() {
        lemma_first_reserved_none(hs, k + 1);
    }
}

pub proof fn lemma_custom_names(hs: Seq<FieldView>, k: int, is_mime: bool)
    requires
        0 <= k,
    ensures
        forall|i: int| 0 <= i < custom_fields(hs, k, is_mime).len() ==> exists|j: int|
            k <= j < hs.len() && #[trigger] custom_fields(hs, k, is_mime)[i].0 == hs[j].0,
    decreases hs.len() - k,
{
    if k < hs.len() {
        lemma_custom_names(hs, k + 1, is_mime);
        let c = custom_fields(hs, k, is_mime);
        let r = custom_fields(hs, k + 1, is_mime);
        assert forall|i: int| 0 <= i < c.len() implies exists|j: int| k <= j < hs.len() && #[trigger] c[i].0 == hs[j].0 by {
            if !(is_mime && crate::wire::replaced_by_mime(hs[k].0)) {
                if i == 0 {
                    assert(c[0].0 == hs[k].0);
                } else {
                    assert(c[i] == r[i - 1]);
                    let j = choose|j: int| k + 1 <= j < hs.len() && #[trigger] r[i - 1].0 == hs[j].0;
                    assert(c[i].0 == hs[j].0);
                }
            } else {
                assert(c[i] == r[i]);
                let j = choose|j: int| k + 1 <= j < hs.len() && #[trigger] r[i].0 == hs[j].0;
                assert(c[i].0 == hs[j].0);
            }
        }
    }
}

proof fn lemma_parsed_subject(m: MessageView, opts: RenderOptions)
    requires
        rfc822_rendered(m, opts) is Ok,
        forall|j: int|
            0 <= j < rendered_header_fields(m, opts).len() ==> reads_back(#[trigger] rendered_header_fields(m, opts)[j]),
        rfc822_parsed(rfc822_rendered(m, opts)->Ok_0) is Ok,
    ensures
        rfc822_parsed(rfc822_rendered(m, opts)->Ok_0)->Ok_0.subject == subject_of_fields(
            rendered_header_fields(m, opts),
            0,
            None,
        ),
{
    let b = rfc822_rendered(m, opts)->Ok_0;
    law_rendered_message_reads_back(m, opts);
    let fs = rendered_header_fields(m, opts);
    let sp = header_split(b);
    assert(header_fields(b.subrange(0, sp.0)) == Ok::<Seq<FieldView>, crate::wire::header::LineDefect>(fs));
    assert(fields_fold(fs, 0, empty_state()) is Ok);
    lemma_fold_subject(fs, 0, empty_state());
}

proof fn lemma_not_named_len(n: Seq<char>, x: Seq<char>)
    requires
        n.len() != x.len(),
    ensures
        !eq_ignore_case(n, x),
{
    if eq_ignore_case(n, x) {
        lemma_eq_ignore_case_len(n, x);
    }
}

/// No field after the typed ones is named like a reserved header whose
/// length differs from those of `Date`, `Message-ID`, `MIME-Version` and
/// the MIME fields.
#[verifier::rlimit(40)]
#[verifier::spinoff_prover]
pub proof fn lemma_trailing_not_named(m: MessageView, opts: RenderOptions, x: Seq<char>)
    requires
        rfc822_rendered(m, opts) is Ok,
        is_reserved_name(x),
        x.len() != 10 && x.len() != 12 && x.len() != 19 && x.len() != 25,
        !eq_ignore_case(x, "date"@),
    ensures
        forall|i: int|
            leading_fields(m, opts.include_bcc).len() <= i < rendered_header_fields(m, opts).len() ==> !eq_ignore_case(
                #[trigger] rendered_header_fields(m, opts)[i].0,
                x,
            ),
{
    reveal_strlit("Date");
    reveal_strlit("Message-ID");
    reveal_strlit("MIME-Version");
    reveal_strlit("Content-Type");
    reveal_strlit("Content-Transfer-Encoding");
    reveal_strlit("Content-Disposition");
    let fs = rendered_header_fields(m, opts);
    let l = leading_fields(m, opts.include_bcc);
    let df = date_fields(m)->0;
    let d = df + field_if(m.message_id is Some, "Message-ID"@, m.message_id->0);
    let pay = render_payload(m.body, m.attachments, opts.soft_fold_at)->Ok_0;
    let c = custom_fields(m.headers, 0, pay.2);
    let t = trailing_fields(m, pay.2, pay.0);
    assert(validation_defect(m) is None);
    assert(date_fields(m) is Some);
    assert(render_payload(m.body, m.attachments, opts.soft_fold_at) is Ok);
    assert(fs == l + d + t);
    assert(first_reserved(m.headers, 0) is None);
    lemma_first_reserved_none(m.headers, 0);
    lemma_custom_names(m.headers, 0, pay.2);
    lemma_payload_mime_names(m.body, m.attachments, opts.soft_fold_at);
    assert forall|i: int| 0 <= i < d.len() implies !eq_ignore_case(#[trigger] d[i].0, x) by {
        if d[i].0.len() != x.len() {
            lemma_not_named_len(d[i].0, x);
        } else {
            reveal_strlit("date");
            assert(d[i].0 == "Date"@);
            assert(ascii_lower("Date"@) =~= ascii_lower("date"@));
        }
    }
    assert forall|q: int| 0 <= q < t.len() implies !eq_ignore_case(#[trigger] t[q].0, x) by {
        if q < c.len() {
            assert(t[q] == c[q]);
            let j = choose|j: int| 0 <= j < m.headers.len() && #[trigger] c[q].0 == m.headers[j].0;
            assert(!is_reserved_name(m.headers[j].0));
        } else {
            let r = q - c.len();
            if r == 0 {
                lemma_not_named_len(t[q].0, x);
            } else {
                assert(t[q] == pay.0[r - 1]);
                assert(mime_field_name(pay.0[r - 1].0));
                lemma_not_named_len(t[q].0, x);
            }
        }
    }
    assert forall|i: int| l.len() <= i < fs.len() implies !eq_ignore_case(#[trigger] fs[i].0, x) by {
        if i < l.len() + d.len() {
            assert(fs[i] == d[i - l.len()]);
        } else {
            assert(fs[i] == t[i - l.len() - d.len()]);
        }
    }
}

/// A parsed rendered message keeps its subject: an ASCII subject that does
/// not spell `=?` comes back as written, and so does a subject with other
/// characters, written as encoded words, when the base64 encoding of each
/// word decodes back (what `base64_encode` states of each call). The
/// rendered header values must hold no tab and not start with a space.
pub proof fn law_rendered_subject_reads_back(m: MessageView, opts: RenderOptions)
    requires
        rfc822_rendered(m, opts) is Ok,
        forall|j: int|
            0 <= j < rendered_header_fields(m, opts).len() ==> reads_back(#[trigger] rendered_header_fields(m, opts)[j]),
        m.subject matches Some(s) ==> (is_ascii_chars(s) && find_pair(s, 0, '=', '?') is None) || (!is_ascii_chars(s)
            && words_code_back(s, 0)),
        rfc822_parsed(rfc822_rendered(m, opts)->Ok_0) is Ok,
    ensures
        rfc822_parsed(rfc822_rendered(m, opts)->Ok_0)->Ok_0.subject == m.subject,
{
    reveal_strlit("Subject");
    reveal_strlit("From");
    reveal_strlit("Sender");
    reveal_strlit("To");
    reveal_strlit("Cc");
    reveal_strlit("Bcc");
    reveal_strlit("Reply-To");
    let fs = rendered_header_fields(m, opts);
    let l = leading_fields(m, opts.include_bcc);
    lemma_parsed_subject(m, opts);
    reveal_strlit("subject");
    reveal_strlit("subject");
    reveal_strlit("date");
    lemma_not_named_len("subject"@, "date"@);
    lemma_trailing_not_named(m, opts, "subject"@);
    assert forall|i: int| l.len() <= i < fs.len() implies !#[trigger] subject_named(fs[i].0) by {
        assert(!eq_ignore_case(fs[i].0, "subject"@));
    }
    assert(validation_defect(m) is None);
    assert(date_fields(m) is Some);
    assert(render_payload(m.body, m.attachments, opts.soft_fold_at) is Ok);
    assert forall|i: int| 0 <= i < l.len() implies fs[i] == l[i] by {}
    match m.subject {
        None => {
            assert forall|i: int| 0 <= i < fs.len() implies !#[trigger] subject_named(fs[i].0) by {
                if i < l.len() {
                    lemma_not_subject_len(l[i].0);
                }
            }
            lemma_subject_of_fields_none(fs, 0, None);
        },
        Some(s) => {
            let j = l.len() - 1;
            assert(l[j] == field("Subject"@, unstructured_encoded(s)));
            assert(subject_named("Subject"@)) by {
                assert(ascii_lower("Subject"@) =~= ascii_lower("subject"@)) by {
                    reveal_strlit("subject");
                }
            }
            lemma_subject_of_fields_last(fs, 0, None, j);
            if is_ascii_chars(s) {
                assert(unstructured_encoded(s) == s);
            } else {
                lemma_b64_words_round_trip(s);
            }
        },
    }
}

pub proof fn lemma_leading_names(m: MessageView, include_bcc: bool)
    ensures
        forall|i: int|
            0 <= i < leading_fields(m, include_bcc).len() ==> {
                let n = #[trigger] leading_fields(m, include_bcc)[i].0;
                n == "From"@ || n == "Sender"@ || n == "To"@ || n == "Cc"@ || n == "Bcc"@ || n == "Reply-To"@ || n
                    == "Subject"@
            },
{
}

#[verifier::rlimit(40)]
#[verifier::spinoff_prover]
pub proof fn lemma_bcc_in_fields(m: MessageView, opts: RenderOptions)
    requires
        rfc822_rendered(m, opts) is Ok,
    ensures
        (exists|i: int|
            0 <= i < rendered_header_fields(m, opts).len() && eq_ignore_case(
                #[trigger] rendered_header_fields(m, opts)[i].0,
                "bcc"@,
            )) <==> (opts.include_bcc && m.bcc.len() > 0),
{
    reveal_strlit("bcc");
    reveal_strlit("Bcc");
    reveal_strlit("From");
    reveal_strlit("Sender");
    reveal_strlit("To");
    reveal_strlit("Cc");
    reveal_strlit("Reply-To");
    reveal_strlit("Subject");
    let fs = rendered_header_fields(m, opts);
    let l = leading_fields(m, opts.include_bcc);
    assert(validation_defect(m) is None);
    assert(date_fields(m) is Some);
    assert(render_payload(m.body, m.attachments, opts.soft_fold_at) is Ok);
    reveal_strlit("bcc");
    reveal_strlit("date");
    lemma_not_named_len("bcc"@, "date"@);
    lemma_trailing_not_named(m, opts, "bcc"@);
    law_bcc_only_on_request(m, opts.include_bcc, false);
    lemma_leading_names(m, opts.include_bcc);
    assert forall|i: int| 0 <= i < l.len() implies fs[i] == l[i] by {}
    assert(eq_ignore_case("Bcc"@, "bcc"@)) by {
        assert(ascii_lower("Bcc"@) =~= ascii_lower("bcc"@));
    }
    if opts.include_bcc && m.bcc.len() > 0 {
        let i = choose|i: int| 0 <= i < l.len() && (#[trigger] l[i]).0 == "Bcc"@;
        assert(fs[i].0 == "Bcc"@);
        assert(eq_ignore_case(fs[i].0, "bcc"@));
    }
    if exists|i: int| 0 <= i < fs.len() && eq_ignore_case(#[trigger] fs[i].0, "bcc"@) {
        let i = choose|i: int| 0 <= i < fs.len() && eq_ignore_case(#[trigger] fs[i].0, "bcc"@);
        assert(i < l.len());
        let n = l[i].0;
        if n != "Bcc"@ {
            lemma_not_named_len(n, "bcc"@);
        }
        assert(l[i].0 == "Bcc"@);
    }
}

/// Blind copies stay blind in the bytes: the header block of a rendered
/// message, read back, holds a field named `Bcc` (ignoring case) exactly
/// when the caller asked for it and the message has `Bcc` recipients. This
/// holds when no written header value holds a tab or starts with a space.
#[verifier::spinoff_prover]
pub proof fn law_rendered_bcc_only_on_request(m: MessageView, opts: RenderOptions)
    requires
        rfc822_rendered(m, opts) is Ok,
        forall|j: int|
            0 <= j < rendered_header_fields(m, opts).len() ==> reads_back(#[trigger] rendered_header_fields(m, opts)[j]),
    ensures
        ({
            let b = rfc822_rendered(m, opts)->Ok_0;
            let hf = header_fields(b.subrange(0, header_split(b).0));
            &&& hf is Ok
            &&& (exists|i: int| 0 <= i < hf->Ok_0.len() && eq_ignore_case(#[trigger] hf->Ok_0[i].0, "bcc"@)) <==> (
            opts.include_bcc && m.bcc.len() > 0)
        }),
{
    let b = rfc822_rendered(m, opts)->Ok_0;
    let fs = rendered_header_fields(m, opts);
    law_rendered_message_reads_back(m, opts);
    let hf = header_fields(b.subrange(0, header_split(b).0));
    assert(hf == Ok::<Seq<FieldView>, crate::wire::header::LineDefect>(fs));
    lemma_bcc_in_fields(m, opts);
    assert(hf->Ok_0 == fs);
}

} // verus!
