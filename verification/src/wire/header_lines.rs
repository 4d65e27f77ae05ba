//! The lines of a written header block are what the wire allows: each
//! ends in CRLF, holds only printable ASCII and tabs, and is at most 998
//! bytes long.
use vstd::prelude::*;
use crate::wire::header::{
    FieldView, continuation_bytes, crlf_bytes, field_bytes, fold_widths, folded, law_folded_field_lines,
    lemma_fold_from_line_chars, lemma_line_block_concat, lemma_text_line_block, line_block, ok_line, ok_line_char,
    rendered_field,
};
use crate::wire::mime_render::fields_bytes;
use crate::wire::shared::ascii_bytes;
use crate::wire::{RenderOptions, rfc822_rendered};
use crate::wire::header::header_split;
use crate::wire::round_trip::{lemma_fields_bytes_block, lemma_message_split, lemma_rendered_message_shape, rendered_header_fields, rendered_body};
use crate::message::MessageView;
use crate::text::{ascii_lower, eq_ignore_case};

verus! {

/// A byte that may stand inside a header line: printable ASCII or a tab.
pub open spec fn line_byte(b: u8) -> bool {
    b == 9 || (0x20 <= b && b < 0x7f)
}

/// No CR or LF from `i` through `j`.
pub open spec fn no_break(s: Seq<u8>, i: int, j: int) -> bool {
    forall|m: int| i <= m <= j ==> #[trigger] s[m] != 13 && s[m] != 10
}

/// Every stretch of `s` without CR or LF is at most 998 bytes long.
pub open spec fn short_lines(s: Seq<u8>) -> bool {
    forall|i: int, j: int| 0 <= i <= j < s.len() && #[trigger] no_break(s, i, j) ==> j - i < 998
}

/// Lines as the wire wants them: none empty, each ending in CRLF, holding
/// only printable ASCII and tabs, and at most 998 bytes long.
pub open spec fn wire_lines(s: Seq<u8>) -> bool {
    &&& s.len() == 0 || line_block(s)
    &&& forall|i: int| 0 <= i < s.len() ==> line_byte(#[trigger] s[i]) || s[i] == 13 || s[i] == 10
    &&& short_lines(s)
}

proof fn lemma_wire_text_line(t: Seq<char>)
    requires
        ok_line(t),
        0 < t.len() <= 998,
    ensures
        wire_lines(ascii_bytes(t) + crlf_bytes()),
{
    let s = ascii_bytes(t) + crlf_bytes();
    let n = t.len() as int;
    assert forall|i: int| 0 <= i < n implies line_byte(#[trigger] s[i]) && s[i] != 13 && s[i] != 10 by {
        assert(ok_line_char(t[i]));
        assert(s[i] == (t[i] as u32) as u8);
    }
    assert(s[n] == 13 && s[n + 1] == 10);
    assert forall|i: int| 0 <= i < s.len() implies line_byte(#[trigger] s[i]) || s[i] == 13 || s[i] == 10 by {
        if i < n {
            assert(line_byte(s[i]));
        }
    }
    assert forall|i: int, j: int| 0 <= i <= j < s.len() && #[trigger] no_break(s, i, j) implies j - i < 998 by {
        if j >= n {
            assert(s[n] == 13);
        }
    }
    lemma_text_line_block(t);
}

proof fn lemma_wire_cat(x: Seq<u8>, y: Seq<u8>)
    requires
        wire_lines(x),
        wire_lines(y),
    ensures
        wire_lines(x + y),
{
    let s = x + y;
    let n = x.len() as int;
    if x.len() == 0 {
        assert(s =~= y);
    } else if y.len() == 0 {
        assert(s =~= x);
    } else {
        lemma_line_block_concat(x, y);
        assert forall|i: int| 0 <= i < s.len() implies line_byte(#[trigger] s[i]) || s[i] == 13 || s[i] == 10 by {
            if i < n {
                assert(s[i] == x[i]);
            } else {
                assert(s[i] == y[i - n]);
            }
        }
        assert forall|i: int, j: int| 0 <= i <= j < s.len() && #[trigger] no_break(s, i, j) implies j - i < 998 by {
            if j < n {
                assert forall|m: int| i <= m <= j implies #[trigger] x[m] != 13 && x[m] != 10 by {
                    assert(s[m] == x[m]);
                }
                assert(no_break(x, i, j));
            } else if i >= n {
                assert forall|m: int| i - n <= m <= j - n implies #[trigger] y[m] != 13 && y[m] != 10 by {
                    assert(s[m + n] == y[m]);
                }
                assert(no_break(y, i - n, j - n));
            } else {
                assert(s[n - 1] == x[n - 1]);
                assert(s[n - 1] != 10);
            }
        }
    }
}

proof fn lemma_wire_continuations(ls: Seq<Seq<char>>, k: int)
    requires
        1 <= k <= ls.len(),
        forall|j: int| 0 <= j < ls.len() ==> ok_line(#[trigger] ls[j]),
        forall|j: int| 1 <= j < ls.len() ==> 1 + #[trigger] ls[j].len() <= 998,
    ensures
        wire_lines(continuation_bytes(ls, k)),
    decreases ls.len() - k,
{
    if k < ls.len() {
        let t = seq![' '] + ls[k];
        assert(ok_line(t)) by {
            assert forall|m: int| 0 <= m < t.len() implies ok_line_char(#[trigger] t[m]) by {
                if m > 0 {
                    assert(t[m] == ls[k][m - 1]);
                }
            }
        }
        assert(ascii_bytes(t) =~= seq![0x20u8] + ascii_bytes(ls[k]));
        lemma_wire_text_line(t);
        lemma_wire_continuations(ls, k + 1);
        assert(continuation_bytes(ls, k) =~= (ascii_bytes(t) + crlf_bytes()) + continuation_bytes(ls, k + 1));
        lemma_wire_cat(ascii_bytes(t) + crlf_bytes(), continuation_bytes(ls, k + 1));
    } else {
        assert(continuation_bytes(ls, k) =~= Seq::<u8>::empty());
    }
}

proof fn lemma_wire_field(name: Seq<char>, value: Seq<char>, soft: Option<usize>)
    requires
        rendered_field(name, value, soft) is Ok,
        name.len() <= 996,
    ensures
        wire_lines(rendered_field(name, value, soft)->Ok_0),
{
    let w = fold_widths(name.len() as int, soft);
    let ls = folded(value, w)->0;
    assert(ok_line(value)) by {
        assert forall|m: int| 0 <= m < value.len() implies ok_line_char(#[trigger] value[m]) by {
            if crate::wire::header::is_line_control(value[m]) {
                assert(crate::wire::header::is_forbidden_control(value[m]) || value[m] == '\r' || value[m]
                    == '\n');
            }
        }
    }
    if value.len() > 0 {
        law_folded_field_lines(name.len() as int, soft, value);
        lemma_fold_from_line_chars(value, 0, true, w);
    } else {
        assert(ls =~= seq![Seq::<char>::empty()]);
    }
    let t0 = name + seq![':', ' '] + ls[0];
    assert(ok_line(t0)) by {
        assert forall|m: int| 0 <= m < t0.len() implies ok_line_char(#[trigger] t0[m]) by {
            if m < name.len() {
                assert(crate::message::is_header_name_char(name[m]));
            } else if m >= name.len() + 2 {
                assert(t0[m] == ls[0][m - name.len() - 2]);
            }
        }
    }
    assert(name.len() > 0);
    assert(ascii_bytes(t0) =~= ascii_bytes(name) + seq![0x3au8, 0x20u8] + ascii_bytes(ls[0]));
    assert(field_bytes(name, ls) =~= (ascii_bytes(t0) + crlf_bytes()) + continuation_bytes(ls, 1));
    lemma_wire_text_line(t0);
    lemma_wire_continuations(ls, 1);
    lemma_wire_cat(ascii_bytes(t0) + crlf_bytes(), continuation_bytes(ls, 1));
}

/// Every line of a written header block ends in CRLF, holds only printable
/// ASCII and tabs, and is at most 998 bytes long, when no field name is
/// longer than 996 bytes.
pub proof fn law_header_block_lines(fs: Seq<FieldView>, k: int, soft: Option<usize>)
    requires
        0 <= k <= fs.len(),
        fields_bytes(fs, k, soft) is Ok,
        forall|j: int| 0 <= j < fs.len() ==> (#[trigger] fs[j]).0.len() <= 996,
    ensures
        wire_lines(fields_bytes(fs, k, soft)->Ok_0),
    decreases fs.len() - k,
{
    if k < fs.len() {
        assert(fs[k].0.len() <= 996);
        lemma_wire_field(fs[k].0, fs[k].1, soft);
        law_header_block_lines(fs, k + 1, soft);
        lemma_wire_cat(rendered_field(fs[k].0, fs[k].1, soft)->Ok_0, fields_bytes(fs, k + 1, soft)->Ok_0);
    } else {
        assert(fields_bytes(fs, k, soft)->Ok_0 =~= Seq::<u8>::empty());
    }
}

/// No field of a rendered message has a name longer than 996 bytes when
/// none of its custom headers has.
proof fn lemma_rendered_names_short(m: MessageView, opts: RenderOptions)
    requires
        rfc822_rendered(m, opts) is Ok,
        forall|j: int| 0 <= j < m.headers.len() ==> (#[trigger] m.headers[j]).0.len() <= 996,
    ensures
        forall|j: int|
            0 <= j < rendered_header_fields(m, opts).len() ==> (#[trigger] rendered_header_fields(m, opts)[j]).0.len()
                <= 996,
{
    reveal_strlit("From");
    reveal_strlit("Sender");
    reveal_strlit("To");
    reveal_strlit("Cc");
    reveal_strlit("Bcc");
    reveal_strlit("Reply-To");
    reveal_strlit("Subject");
    reveal_strlit("Date");
    reveal_strlit("Message-ID");
    reveal_strlit("MIME-Version");
    reveal_strlit("Content-Type");
    reveal_strlit("Content-Transfer-Encoding");
    reveal_strlit("Content-Disposition");
    let soft = opts.soft_fold_at;
    let fs = rendered_header_fields(m, opts);
    let l = crate::wire::leading_fields(m, opts.include_bcc);
    let df = crate::wire::date_fields(m)->0;
    let d = df + crate::wire::field_if(m.message_id is Some, "Message-ID"@, m.message_id->0);
    let pay = crate::wire::mime_render::render_payload(m.body, m.attachments, soft)->Ok_0;
    let c = crate::wire::custom_fields(m.headers, 0, pay.2);
    let t = crate::wire::trailing_fields(m, pay.2, pay.0);
    assert(crate::message::validation_defect(m) is None);
    assert(crate::wire::date_fields(m) is Some);
    assert(crate::wire::mime_render::render_payload(m.body, m.attachments, soft) is Ok);
    assert(fs == l + d + t);
    crate::wire::round_trip::lemma_leading_names(m, opts.include_bcc);
    crate::wire::round_trip::lemma_custom_names(m.headers, 0, pay.2);
    crate::wire::round_trip::lemma_payload_mime_names(m.body, m.attachments, soft);
    assert forall|i: int| 0 <= i < fs.len() implies (#[trigger] fs[i]).0.len() <= 996 by {
        if i < l.len() {
            assert(fs[i] == l[i]);
        } else if i < l.len() + d.len() {
            assert(fs[i] == d[i - l.len()]);
        } else {
            let q = i - l.len() - d.len();
            assert(fs[i] == t[q]);
            if q < c.len() {
                assert(t[q] == c[q]);
                let j = choose|j: int| 0 <= j < m.headers.len() && #[trigger] c[q].0 == m.headers[j].0;
                assert(m.headers[j].0.len() <= 996);
            } else if q > c.len() {
                assert(t[q] == pay.0[q - c.len() - 1]);
                assert(crate::wire::round_trip::mime_field_name(pay.0[q - c.len() - 1].0));
            }
        }
    }
}

/// Every line of a rendered message's header block, up to the blank line
/// that ends it, ends in CRLF, holds only printable ASCII and tabs, and is
/// at most 998 bytes long, when no custom header name is longer than 996
/// bytes.
pub proof fn law_rendered_header_lines(m: MessageView, opts: RenderOptions)
    requires
        rfc822_rendered(m, opts) is Ok,
        forall|j: int| 0 <= j < m.headers.len() ==> (#[trigger] m.headers[j]).0.len() <= 996,
    ensures
        ({
            let b = rfc822_rendered(m, opts)->Ok_0;
            &&& header_split(b).1 == header_split(b).0 + 4
            &&& wire_lines(b.subrange(0, header_split(b).0 + 2))
        }),
{
    let soft = opts.soft_fold_at;
    lemma_rendered_message_shape(m, opts);
    lemma_rendered_names_short(m, opts);
    let fs = rendered_header_fields(m, opts);
    let h = fields_bytes(fs, 0, soft)->Ok_0;
    lemma_fields_bytes_block(fs, 0, soft);
    lemma_message_split(h, rendered_body(m, opts));
    law_header_block_lines(fs, 0, soft);
    let b = rfc822_rendered(m, opts)->Ok_0;
    assert(b.subrange(0, h.len() as int) =~= h);
}

// ---------------------------------------------------------------------------
// `Bcc:` lines
// ---------------------------------------------------------------------------

/// The bytes `Bcc: `.
pub open spec fn bcc_prefix() -> Seq<u8> {
    seq![0x42u8, 0x63u8, 0x63u8, 0x3au8, 0x20u8]
}

/// A line of `s` starts at `i` with `Bcc: `.
pub open spec fn bcc_line_at(s: Seq<u8>, i: int) -> bool {
    &&& 0 <= i
    &&& i + 5 <= s.len()
    &&& (i == 0 || s[i - 1] == 10)
    &&& s.subrange(i, i + 5) == bcc_prefix()
}

/// Some line of `s` starts with `Bcc: `.
pub open spec fn has_bcc_line(s: Seq<u8>) -> bool {
    exists|i: int| #[trigger] bcc_line_at(s, i)
}

proof fn lemma_bcc_text_line(t: Seq<char>)
    requires
        ok_line(t),
    ensures
        has_bcc_line(ascii_bytes(t) + crlf_bytes()) <==> (t.len() >= 5 && ascii_bytes(t).subrange(0, 5) == bcc_prefix()),
{
    let s = ascii_bytes(t) + crlf_bytes();
    let n = t.len() as int;
    assert forall|j: int| 0 <= j < n implies #[trigger] s[j] != 10 && s[j] != 13 by {
        assert(ok_line_char(t[j]));
        assert(s[j] == (t[j] as u32) as u8);
    }
    if has_bcc_line(s) {
        let i = choose|i: int| #[trigger] bcc_line_at(s, i);
        if i > 0 {
            assert(s[i - 1] == 10);
            assert(i - 1 == n + 1);
        }
        assert(i == 0);
        assert(s[n] == 13);
        if n < 5 {
            assert(s.subrange(0, 5)[n] == s[n]);
        }
        assert(ascii_bytes(t).subrange(0, 5) =~= s.subrange(0, 5));
    }
    if t.len() >= 5 && ascii_bytes(t).subrange(0, 5) == bcc_prefix() {
        assert(s.subrange(0, 5) =~= ascii_bytes(t).subrange(0, 5));
        assert(bcc_line_at(s, 0));
    }
}

proof fn lemma_bcc_cat(x: Seq<u8>, y: Seq<u8>)
    requires
        x.len() == 0 || line_block(x),
    ensures
        has_bcc_line(x + y) <==> (has_bcc_line(x) || has_bcc_line(y)),
{
    let s = x + y;
    let n = x.len() as int;
    if has_bcc_line(s) {
        let i = choose|i: int| #[trigger] bcc_line_at(s, i);
        if i < n {
            if i + 5 > n {
                assert(s[n - 1] == x[n - 1]);
                assert(x[n - 1] == 10);
                assert(s.subrange(i, i + 5)[n - 1 - i] == s[n - 1]);
            }
            assert(s.subrange(i, i + 5) =~= x.subrange(i, i + 5));
            if i > 0 {
                assert(s[i - 1] == x[i - 1]);
            }
            assert(bcc_line_at(x, i));
        } else {
            assert(s.subrange(i, i + 5) =~= y.subrange(i - n, i - n + 5));
            if i > n {
                assert(s[i - 1] == y[i - n - 1]);
            }
            assert(bcc_line_at(y, i - n));
        }
    }
    if has_bcc_line(x) {
        let i = choose|i: int| #[trigger] bcc_line_at(x, i);
        assert(s.subrange(i, i + 5) =~= x.subrange(i, i + 5));
        if i > 0 {
            assert(s[i - 1] == x[i - 1]);
        }
        assert(bcc_line_at(s, i));
    }
    if has_bcc_line(y) {
        let i = choose|i: int| #[trigger] bcc_line_at(y, i);
        assert(s.subrange(n + i, n + i + 5) =~= y.subrange(i, i + 5));
        if i > 0 {
            assert(s[n + i - 1] == y[i - 1]);
        } else if n > 0 {
            assert(s[n - 1] == x[n - 1]);
        }
        assert(bcc_line_at(s, n + i));
    }
}

proof fn lemma_bcc_continuations(ls: Seq<Seq<char>>, k: int)
    requires
        1 <= k <= ls.len(),
        forall|j: int| 0 <= j < ls.len() ==> ok_line(#[trigger] ls[j]),
    ensures
        !has_bcc_line(continuation_bytes(ls, k)),
    decreases ls.len() - k,
{
    if k < ls.len() {
        let t = seq![' '] + ls[k];
        assert(ok_line(t)) by {
            assert forall|m: int| 0 <= m < t.len() implies ok_line_char(#[trigger] t[m]) by {
                if m > 0 {
                    assert(t[m] == ls[k][m - 1]);
                }
            }
        }
        assert(ascii_bytes(t) =~= seq![0x20u8] + ascii_bytes(ls[k]));
        lemma_bcc_text_line(t);
        if t.len() >= 5 {
            assert(ascii_bytes(t).subrange(0, 5)[0] == 0x20u8);
        }
        lemma_text_line_block(t);
        lemma_bcc_continuations(ls, k + 1);
        assert(continuation_bytes(ls, k) =~= (ascii_bytes(t) + crlf_bytes()) + continuation_bytes(ls, k + 1));
        lemma_bcc_cat(ascii_bytes(t) + crlf_bytes(), continuation_bytes(ls, k + 1));
    } else {
        assert(continuation_bytes(ls, k) =~= Seq::<u8>::empty());
    }
}

/// A written field has a line starting with `Bcc: ` exactly when it is
/// named `Bcc`.
proof fn lemma_bcc_field(name: Seq<char>, value: Seq<char>, soft: Option<usize>)
    requires
        rendered_field(name, value, soft) is Ok,
    ensures
        has_bcc_line(rendered_field(name, value, soft)->Ok_0) <==> name == "Bcc"@,
        line_block(rendered_field(name, value, soft)->Ok_0),
{
    reveal_strlit("Bcc");
    crate::wire::header::lemma_rendered_field_block(name, value, soft);
    let w = fold_widths(name.len() as int, soft);
    let ls = folded(value, w)->0;
    assert(ok_line(value)) by {
        assert forall|m: int| 0 <= m < value.len() implies ok_line_char(#[trigger] value[m]) by {
            if crate::wire::header::is_line_control(value[m]) {
                assert(crate::wire::header::is_forbidden_control(value[m]) || value[m] == '\r' || value[m]
                    == '\n');
            }
        }
    }
    if value.len() > 0 {
        law_folded_field_lines(name.len() as int, soft, value);
        lemma_fold_from_line_chars(value, 0, true, w);
    } else {
        assert(ls =~= seq![Seq::<char>::empty()]);
    }
    let t0 = name + seq![':', ' '] + ls[0];
    assert(ok_line(t0)) by {
        assert forall|m: int| 0 <= m < t0.len() implies ok_line_char(#[trigger] t0[m]) by {
            if m < name.len() {
                assert(crate::message::is_header_name_char(name[m]));
            } else if m >= name.len() + 2 {
                assert(t0[m] == ls[0][m - name.len() - 2]);
            }
        }
    }
    assert(ascii_bytes(t0) =~= ascii_bytes(name) + seq![0x3au8, 0x20u8] + ascii_bytes(ls[0]));
    assert(field_bytes(name, ls) =~= (ascii_bytes(t0) + crlf_bytes()) + continuation_bytes(ls, 1));
    lemma_bcc_text_line(t0);
    assert(name.len() > 0);
    lemma_text_line_block(t0);
    lemma_bcc_continuations(ls, 1);
    lemma_bcc_cat(ascii_bytes(t0) + crlf_bytes(), continuation_bytes(ls, 1));
    let a = ascii_bytes(t0);
    if name == "Bcc"@ {
        assert(a.subrange(0, 5) =~= bcc_prefix()) by {
            assert(a[0] == (t0[0] as u32) as u8);
            assert(a[1] == (t0[1] as u32) as u8);
            assert(a[2] == (t0[2] as u32) as u8);
            assert(a[3] == (t0[3] as u32) as u8);
            assert(a[4] == (t0[4] as u32) as u8);
        }
    }
    if t0.len() >= 5 && a.subrange(0, 5) == bcc_prefix() {
        assert forall|m: int| 0 <= m < 5 implies #[trigger] a[m] == bcc_prefix()[m] by {
            assert(a.subrange(0, 5)[m] == a[m]);
        }
        assert forall|m: int| 0 <= m < name.len() implies #[trigger] name[m] != ':' && name[m] != ' ' by {
            assert(crate::message::is_header_name_char(name[m]));
        }
        assert(a[0] == (t0[0] as u32) as u8);
        assert(a[1] == (t0[1] as u32) as u8);
        assert(a[2] == (t0[2] as u32) as u8);
        assert(a[3] == (t0[3] as u32) as u8);
        assert(a[4] == (t0[4] as u32) as u8);
        assert(name.len() > 0);
        assert(name.len() == 3) by {
            if name.len() >= 4 {
                assert(t0[3] == name[3]);
            } else if name.len() == 1 {
                assert(t0[1] == ':');
            } else if name.len() == 2 {
                assert(t0[2] == ':');
            }
        }
        assert(name =~= "Bcc"@) by {
            assert(t0[0] == name[0] && t0[1] == name[1] && t0[2] == name[2]);
        }
    }
}

/// A written header block has a line starting with `Bcc: ` exactly when one
/// of its fields is named `Bcc`.
proof fn lemma_bcc_fields(fs: Seq<FieldView>, k: int, soft: Option<usize>)
    requires
        0 <= k <= fs.len(),
        fields_bytes(fs, k, soft) is Ok,
    ensures
        has_bcc_line(fields_bytes(fs, k, soft)->Ok_0) <==> exists|j: int| k <= j < fs.len() && (#[trigger] fs[j]).0 == "Bcc"@,
    decreases fs.len() - k,
{
    if k < fs.len() {
        lemma_bcc_field(fs[k].0, fs[k].1, soft);
        lemma_bcc_fields(fs, k + 1, soft);
        lemma_bcc_cat(rendered_field(fs[k].0, fs[k].1, soft)->Ok_0, fields_bytes(fs, k + 1, soft)->Ok_0);
        if exists|j: int| k <= j < fs.len() && (#[trigger] fs[j]).0 == "Bcc"@ {
            let j = choose|j: int| k <= j < fs.len() && (#[trigger] fs[j]).0 == "Bcc"@;
            if j > k {
                assert(exists|j2: int| k + 1 <= j2 < fs.len() && (#[trigger] fs[j2]).0 == "Bcc"@);
            }
        }
    } else {
        assert(fields_bytes(fs, k, soft)->Ok_0 =~= Seq::<u8>::empty());
    }
}

/// Blind copies stay blind on the wire: the header block of a rendered
/// message, up to the blank line that ends it, has a line starting with
/// `Bcc: ` exactly when the caller asked for blind copies and the message
/// has `Bcc` recipients.
pub proof fn law_rendered_bcc_line(m: MessageView, opts: RenderOptions)
    requires
        rfc822_rendered(m, opts) is Ok,
    ensures
        ({
            let b = rfc822_rendered(m, opts)->Ok_0;
            has_bcc_line(b.subrange(0, header_split(b).0 + 2)) <==> (opts.include_bcc && m.bcc.len() > 0)
        }),
{
    let soft = opts.soft_fold_at;
    lemma_rendered_message_shape(m, opts);
    let fs = rendered_header_fields(m, opts);
    let h = fields_bytes(fs, 0, soft)->Ok_0;
    lemma_fields_bytes_block(fs, 0, soft);
    lemma_message_split(h, rendered_body(m, opts));
    let b = rfc822_rendered(m, opts)->Ok_0;
    assert(b.subrange(0, h.len() as int) =~= h);
    lemma_bcc_fields(fs, 0, soft);
    crate::wire::round_trip::lemma_bcc_in_fields(m, opts);
    reveal_strlit("Bcc");
    reveal_strlit("bcc");
    assert(eq_ignore_case("Bcc"@, "bcc"@)) by {
        assert(ascii_lower("Bcc"@) =~= ascii_lower("bcc"@));
    }
    if opts.include_bcc && m.bcc.len() > 0 {
        assert(crate::message::validation_defect(m) is None);
        crate::wire::law_bcc_only_on_request(m, opts.include_bcc, false);
        let l = crate::wire::leading_fields(m, opts.include_bcc);
        let i = choose|i: int| 0 <= i < l.len() && (#[trigger] l[i]).0 == "Bcc"@;
        assert(crate::wire::date_fields(m) is Some);
        assert(crate::wire::mime_render::render_payload(m.body, m.attachments, soft) is Ok);
        assert(fs[i] == l[i]);
        assert(fs[i].0 == "Bcc"@);
    }
    if exists|j: int| 0 <= j < fs.len() && (#[trigger] fs[j]).0 == "Bcc"@ {
        let j = choose|j: int| 0 <= j < fs.len() && (#[trigger] fs[j]).0 == "Bcc"@;
        assert(eq_ignore_case(fs[j].0, "bcc"@));
    }
}

} // verus!
