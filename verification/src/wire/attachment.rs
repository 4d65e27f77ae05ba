//! Attachments as MIME leaves.
use vstd::prelude::*;
use vstd::utf8::encode_utf8;
use crate::address::{escape_quoted, write_quoted};
use crate::email::addr_spec_serialized;
use crate::message::{Attachment, AttachmentBody, AttachmentBodyView, AttachmentView, attachment_views};
use crate::message_id::{MessageId, id_inner, message_id_defect};
use crate::text::{is_ascii_control_char, push_char, push_str, str_chars, trim, trim_window};
use crate::wire::MessageRenderError;
use crate::wire::header::FieldView;
use crate::wire::mime_render::{RenderPart, RenderPartView, field, pair, render_view};
use crate::wire::transfer_encoding::{base64_body, encode_base64};

verus! {

// ---------------------------------------------------------------------------
// Inline and regular attachments
// ---------------------------------------------------------------------------

/// Attachments shown inline: marked inline, or carrying a content id.
pub open spec fn is_inline_attachment(a: AttachmentView) -> bool {
    a.disposition is Inline || a.content_id is Some
}

/// The attachments among the first `n` with `is_inline_attachment == inline`.
pub open spec fn attachments_where(a: Seq<AttachmentView>, n: int, inline: bool) -> Seq<AttachmentView>
    decreases n,
{
    if n <= 0 {
        seq![]
    } else if is_inline_attachment(a[n - 1]) == inline {
        attachments_where(a, n - 1, inline).push(a[n - 1])
    } else {
        attachments_where(a, n - 1, inline)
    }
}

pub open spec fn attachment_ref_views(v: Seq<&Attachment>) -> Seq<AttachmentView> {
    Seq::new(v.len(), |i: int| v[i]@)
}

/// Splits attachments into inline and regular ones, keeping their order.
pub fn partition_attachments(attachments: &[Attachment]) -> (r: (Vec<&Attachment>, Vec<&Attachment>))
    ensures
        attachment_ref_views(r.0@) == attachments_where(
            attachment_views(attachments@),
            attachments@.len() as int,
            true,
        ),
        attachment_ref_views(r.1@) == attachments_where(
            attachment_views(attachments@),
            attachments@.len() as int,
            false,
        ),
{
    let ghost a = attachment_views(attachments@);
    let mut inline: Vec<&Attachment> = Vec::new();
    let mut regular: Vec<&Attachment> = Vec::new();
    let mut i: usize = 0;
    while i < attachments.len()
        invariant
            i <= attachments@.len(),
            a == attachment_views(attachments@),
            attachment_ref_views(inline@) == attachments_where(a, i as int, true),
            attachment_ref_views(regular@) == attachments_where(a, i as int, false),
        decreases attachments@.len() - i,
    {
        let att = &attachments[i];
        assert(a[i as int] == att@);
        if att.is_inline() || att.content_id().is_some() {
            let ghost before = attachment_ref_views(inline@);
            inline.push(att);
            assert(attachment_ref_views(inline@) =~= before.push(att@));
        } else {
            let ghost before = attachment_ref_views(regular@);
            regular.push(att);
            assert(attachment_ref_views(regular@) =~= before.push(att@));
        }
        i = i + 1;
    }
    (inline, regular)
}

// ---------------------------------------------------------------------------
// Filenames
// ---------------------------------------------------------------------------

/// Bytes that may stand in a quoted `filename=` value: ASCII, no controls.
pub open spec fn plain_filename(b: Seq<u8>) -> bool {
    forall|i: int| 0 <= i < b.len() ==> 0x20 <= #[trigger] b[i] < 0x7f
}

/// Bytes written as themselves in an RFC 2231 extended value.
pub open spec fn is_attr_char(b: u8) -> bool {
    (0x30 <= b && b <= 0x39) || (0x41 <= b && b <= 0x5a) || (0x61 <= b && b <= 0x7a) || b == 0x21 || b == 0x23
        || b == 0x24 || b == 0x26 || b == 0x2b || b == 0x2d || b == 0x2e || b == 0x5e || b == 0x5f || b == 0x60
        || b == 0x7c || b == 0x7e
}

pub open spec fn hex_upper_char(n: u8) -> char {
    if n < 10 {
        ((0x30 + n) as u32) as char
    } else {
        ((0x41 + n - 10) as u32) as char
    }
}

/// The first `n` bytes percent-encoded: attribute characters as themselves,
/// every other byte as `%XX`.
pub open spec fn percent_encoded(b: Seq<u8>, n: int) -> Seq<char>
    decreases n,
{
    if n <= 0 {
        seq![]
    } else if is_attr_char(b[n - 1]) {
        percent_encoded(b, n - 1).push((b[n - 1] as u32) as char)
    } else {
        percent_encoded(b, n - 1) + seq!['%', hex_upper_char(b[n - 1] / 16), hex_upper_char(b[n - 1] % 16)]
    }
}

/// The `filename` parameter of a disposition: quoted for plain ASCII names,
/// else RFC 2231 `filename*=utf-8''` with percent-encoded UTF-8.
pub open spec fn filename_parameter(name: Seq<char>) -> Seq<char> {
    let b = encode_utf8(name);
    if plain_filename(b) {
        "filename="@ + crate::address::quoted(name)
    } else {
        "filename*=utf-8''"@ + percent_encoded(b, b.len() as int)
    }
}

fn hex_char(n: u8) -> (r: char)
    requires
        n < 16,
    ensures
        r == hex_upper_char(n),
{
    if n < 10 {
        (0x30 + n) as char
    } else {
        (0x41 + n - 10) as char
    }
}

fn encode_filename_parameter(filename: &str) -> (r: String)
    ensures
        r@ == filename_parameter(filename@),
{
    let bytes = filename.as_bytes();
    let mut plain = true;
    let mut i: usize = 0;
    while i < bytes.len()
        invariant
            i <= bytes@.len(),
            plain == forall|j: int| 0 <= j < i ==> 0x20 <= #[trigger] bytes@[j] < 0x7f,
        decreases bytes@.len() - i,
    {
        if !(0x20 <= bytes[i] && bytes[i] < 0x7f) {
            plain = false;
        }
        i = i + 1;
    }
    let mut out = String::new();
    if plain {
        push_str(&mut out, "filename=");
        let ghost start = out@;
        write_quoted(filename, &mut out);
        return out;
    }
    push_str(&mut out, "filename*=utf-8''");
    let ghost head = out@;
    let mut k: usize = 0;
    while k < bytes.len()
        invariant
            k <= bytes@.len(),
            out@ == head + percent_encoded(bytes@, k as int),
        decreases bytes@.len() - k,
    {
        let b = bytes[k];
        if (0x30 <= b && b <= 0x39) || (0x41 <= b && b <= 0x5a) || (0x61 <= b && b <= 0x7a) || b == 0x21 || b == 0x23
            || b == 0x24 || b == 0x26 || b == 0x2b || b == 0x2d || b == 0x2e || b == 0x5e || b == 0x5f || b == 0x60
            || b == 0x7c || b == 0x7e {
            crate::wire::shared::push_latin1(&mut out, b);
        } else {
            push_char(&mut out, '%');
            push_char(&mut out, hex_char(b / 16));
            push_char(&mut out, hex_char(b % 16));
        }
        k = k + 1;
        assert(out@ =~= head + percent_encoded(bytes@, k as int));
    }
    out
}

} // verus!

verus! {

// ---------------------------------------------------------------------------
// Content ids
// ---------------------------------------------------------------------------

/// A control character or ASCII white space.
pub open spec fn ctl_or_space(c: char) -> bool {
    is_ascii_control_char(c) || c == ' '
}

/// Occurrences of `c` among the first `n` characters of `s`.
pub open spec fn count_char(s: Seq<char>, c: char, n: int) -> int
    decreases n,
{
    if n <= 0 {
        0
    } else {
        count_char(s, c, n - 1) + if s[n - 1] == c {
            1int
        } else {
            0int
        }
    }
}

/// Some character is a control, a space, or an angle bracket.
pub open spec fn bad_id_chars(s: Seq<char>) -> bool {
    exists|i: int| 0 <= i < s.len() && (ctl_or_space(#[trigger] s[i]) || s[i] == '<' || s[i] == '>')
}

/// A message id the `MessageId` parser accepts.
pub open spec fn message_id_ok(s: Seq<char>) -> bool {
    message_id_defect(s) is None && addr_spec_serialized(id_inner(s)) is Some
}

/// A `Content-ID` as written: trimmed, without controls or spaces, with at
/// most one pair of angle brackets around it (added when absent), a valid
/// message id. `None` when invalid.
pub open spec fn normalized_content_id(cid: Seq<char>) -> Option<Seq<char>> {
    let v = trim(cid);
    let bracketed = v.len() >= 1 && v[0] == '<' && v[v.len() - 1] == '>';
    let lt = count_char(v, '<', v.len() as int);
    let gt = count_char(v, '>', v.len() as int);
    if v.len() == 0 || exists|i: int| 0 <= i < v.len() && ctl_or_space(#[trigger] v[i]) {
        None
    } else if lt > 1 || gt > 1 {
        None
    } else if (lt == 1 || gt == 1) && !bracketed {
        None
    } else {
        let inner = if bracketed {
            v.subrange(1, v.len() - 1)
        } else {
            v
        };
        if inner.len() == 0 || bad_id_chars(inner) {
            None
        } else {
            let rendered = if bracketed {
                v
            } else {
                seq!['<'] + v + seq!['>']
            };
            if message_id_ok(rendered) {
                Some(rendered)
            } else {
                None
            }
        }
    }
}

fn count_in(v: &Vec<char>, c: char) -> (r: usize)
    ensures
        r == count_char(v@, c, v@.len() as int),
{
    let mut n: usize = 0;
    let mut i: usize = 0;
    while i < v.len()
        invariant
            i <= v@.len(),
            n == count_char(v@, c, i as int),
            n <= i,
        decreases v@.len() - i,
    {
        if v[i] == c {
            n = n + 1;
        }
        i = i + 1;
    }
    n
}

fn has_bad_id_char(v: &Vec<char>, lo: usize, hi: usize, brackets: bool) -> (r: bool)
    requires
        lo <= hi <= v@.len(),
    ensures
        r == exists|i: int|
            lo <= i < hi && (ctl_or_space(#[trigger] v@[i]) || (brackets && (v@[i] == '<' || v@[i] == '>'))),
{
    let mut i = lo;
    while i < hi
        invariant
            lo <= i <= hi <= v@.len(),
            forall|j: int|
                lo <= j < i ==> !(ctl_or_space(#[trigger] v@[j]) || (brackets && (v@[j] == '<' || v@[j] == '>'))),
        decreases hi - i,
    {
        let c = v[i];
        if ((c as u32) < 0x20 || (c as u32) == 0x7f || c == ' ') || (brackets && (c == '<' || c == '>')) {
            return true;
        }
        i = i + 1;
    }
    false
}

pub fn normalize_content_id(content_id: &str) -> (r: Result<String, MessageRenderError>)
    ensures
        match normalized_content_id(content_id@) {
            Some(v) => r matches Ok(s) && s@ == v,
            None => r matches Err(e) && e is InvalidContentId,
        },
{
    let all = str_chars(content_id);
    let (a, b) = trim_window(&all, 0, all.len());
    let v = crate::text::sub_chars(&all, a, b);
    assert(v@ == trim(content_id@));
    let n = v.len();
    if n == 0 || has_bad_id_char(&v, 0, n, false) {
        return Err(MessageRenderError::InvalidContentId);
    }
    let lt = count_in(&v, '<');
    let gt = count_in(&v, '>');
    if lt > 1 || gt > 1 {
        return Err(MessageRenderError::InvalidContentId);
    }
    let bracketed = v[0] == '<' && v[n - 1] == '>';
    if (lt == 1 || gt == 1) && !bracketed {
        return Err(MessageRenderError::InvalidContentId);
    }
    let (lo, hi) = if bracketed {
        (1, n - 1)
    } else {
        (0, n)
    };
    if lo >= hi {
        assert(bracketed);
        assert(v@.subrange(1, v@.len() - 1).len() == 0);
        return Err(MessageRenderError::InvalidContentId);
    }
    if has_bad_id_char(&v, lo, hi, true) {
        proof {
            if lo < hi {
                let inner = v@.subrange(lo as int, hi as int);
                let j = choose|j: int|
                    lo <= j < hi && (ctl_or_space(#[trigger] v@[j]) || (true && (v@[j] == '<' || v@[j] == '>')));
                assert(inner[j - lo] == v@[j]);
                assert(ctl_or_space(inner[j - lo]) || inner[j - lo] == '<' || inner[j - lo] == '>');
                assert(bad_id_chars(inner));
                if bracketed {
                    assert(inner =~= v@.subrange(1, v@.len() - 1));
                } else {
                    assert(inner =~= v@);
                }
            }
        }
        return Err(MessageRenderError::InvalidContentId);
    }
    proof {
        let inner = v@.subrange(lo as int, hi as int);
        assert forall|i: int| 0 <= i < inner.len() implies !(ctl_or_space(#[trigger] inner[i]) || inner[i] == '<'
            || inner[i] == '>') by {
            assert(inner[i] == v@[lo + i]);
        }
        assert(!bad_id_chars(inner));
        if bracketed {
            assert(inner =~= v@.subrange(1, v@.len() - 1));
        } else {
            assert(inner =~= v@);
        }
    }
    let rendered = if bracketed {
        crate::text::string_from_chars(v.as_slice(), 0, n)
    } else {
        let mut s = String::new();
        push_char(&mut s, '<');
        let body = crate::text::string_from_chars(v.as_slice(), 0, n);
        push_str(&mut s, body.as_str());
        push_char(&mut s, '>');
        s
    };
    assert(v@.subrange(0, n as int) =~= v@);
    proof {
        if !bracketed {
            assert(rendered@ =~= seq!['<'] + v@ + seq!['>']);
        }
    }
    match MessageId::from_str(rendered.as_str()) {
        Ok(_) => Ok(rendered),
        Err(_) => Err(MessageRenderError::InvalidContentId),
    }
}

// ---------------------------------------------------------------------------
// Attachment parts
// ---------------------------------------------------------------------------

/// The `Content-Disposition` value of an attachment.
pub open spec fn disposition_value(a: AttachmentView) -> Seq<char> {
    let kind = if is_inline_attachment(a) {
        "inline"@
    } else {
        "attachment"@
    };
    match a.filename {
        Some(f) => kind + "; "@ + filename_parameter(f),
        None => kind,
    }
}

/// An attachment as a base64 MIME leaf; `Err(true)` for a bad content id,
/// `Err(false)` for a body that is not bytes.
pub open spec fn attachment_leaf(a: AttachmentView) -> Result<RenderPartView, bool> {
    match a.body {
        AttachmentBodyView::Reference(_) => Err(false),
        AttachmentBodyView::Bytes(raw) => {
            let base = seq![
                field("Content-Type"@, a.content_type),
                field("Content-Transfer-Encoding"@, "base64"@),
                field("Content-Disposition"@, disposition_value(a)),
            ];
            match a.content_id {
                None => Ok(RenderPartView::Leaf { headers: base, body: base64_body(raw) }),
                Some(cid) => match normalized_content_id(cid) {
                    None => Err(true),
                    Some(n) => Ok(
                        RenderPartView::Leaf { headers: base.push(field("Content-ID"@, n)), body: base64_body(raw) },
                    ),
                },
            }
        },
    }
}

pub fn attachment_to_mime_part(attachment: &Attachment) -> (r: Result<RenderPart, MessageRenderError>)
    ensures
        match attachment_leaf(attachment@) {
            Ok(v) => r matches Ok(p) && render_view(p) == v,
            Err(true) => r matches Err(e) && e is InvalidContentId,
            Err(false) => r matches Err(e) && e is UnsupportedAttachmentBody,
        },
{
    let raw = match attachment.body() {
        AttachmentBody::Bytes(raw) => raw,
        AttachmentBody::Reference(_) => return Err(MessageRenderError::UnsupportedAttachmentBody),
    };
    let mut disposition = if attachment.is_inline() || attachment.content_id().is_some() {
        "inline".to_owned()
    } else {
        "attachment".to_owned()
    };
    match attachment.filename() {
        Some(filename) => {
            push_str(&mut disposition, "; ");
            let p = encode_filename_parameter(filename);
            push_str(&mut disposition, p.as_str());
        },
        None => {},
    }
    let mut headers: Vec<(String, String)> = Vec::new();
    headers.push(("Content-Type".to_owned(), attachment.content_type().to_string()));
    headers.push(pair("Content-Transfer-Encoding", "base64"));
    headers.push(("Content-Disposition".to_owned(), disposition));
    let ghost base = crate::wire::header::field_views(headers@);
    match attachment.content_id() {
        Some(cid) => {
            let n = match normalize_content_id(cid) {
                Ok(n) => n,
                Err(e) => return Err(e),
            };
            headers.push(("Content-ID".to_owned(), n));
            assert(crate::wire::header::field_views(headers@) =~= base.push(field("Content-ID"@, n@)));
        },
        None => {},
    }
    let body = encode_base64(raw.as_slice());
    proof {
        assert(base =~= seq![
            field("Content-Type"@, attachment@.content_type),
            field("Content-Transfer-Encoding"@, "base64"@),
            field("Content-Disposition"@, disposition_value(attachment@)),
        ]);
    }
    Ok(RenderPart::Leaf { headers, body })
}

} // verus!
