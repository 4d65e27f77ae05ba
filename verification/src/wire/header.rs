//! Header fields: address rendering, line folding, and header-block parsing.
use vstd::prelude::*;
use vstd::utf8::{decode_utf8, is_ascii_chars, valid_utf8};
use crate::address::{Address, AddressView, Mailbox, MailboxView, address_views, mailbox_views};
use crate::message::{is_header_name_char, valid_header_name};
use crate::text::{eq_ignore_case, is_ascii_control_char, push_char, push_str, str_chars, utf8_to_string, window_eq_ignore_case};
use crate::wire::{MessageParseError, MessageRenderError};
use crate::wire::encoded_word::{encode_rfc2047_phrase, phrase_encoded};
use crate::wire::shared::{RFC5322_HARD_LINE_LEN, ascii_bytes, latin1_chars, latin1_string};

verus! {

// ---------------------------------------------------------------------------
// Address fields
// ---------------------------------------------------------------------------

/// A mailbox as written in a header: encoded display name and `<address>`,
/// or the bare address.
pub open spec fn mailbox_header(m: MailboxView) -> Seq<char> {
    match m.name {
        Some(n) => phrase_encoded(n) + seq![' ', '<'] + m.email + seq!['>'],
        None => m.email,
    }
}

/// The first `n` mailboxes, written and joined by `", "`.
pub open spec fn mailboxes_header(ms: Seq<MailboxView>, n: int) -> Seq<char>
    decreases n,
{
    if n <= 0 {
        seq![]
    } else if n == 1 {
        mailbox_header(ms[0])
    } else {
        mailboxes_header(ms, n - 1) + seq![',', ' '] + mailbox_header(ms[n - 1])
    }
}

/// A group as written in a header: `name:member, member;`.
pub open spec fn group_header(name: Seq<char>, ms: Seq<MailboxView>) -> Seq<char> {
    phrase_encoded(name) + seq![':'] + mailboxes_header(ms, ms.len() as int) + seq![';']
}

pub open spec fn address_header(a: AddressView) -> Seq<char> {
    match a {
        AddressView::Mailbox(m) => mailbox_header(m),
        AddressView::Group(n, ms) => group_header(n, ms),
    }
}

/// The first `n` address items, written and joined by `", "`.
pub open spec fn address_list_header(a: Seq<AddressView>, n: int) -> Seq<char>
    decreases n,
{
    if n <= 0 {
        seq![]
    } else if n == 1 {
        address_header(a[0])
    } else {
        address_list_header(a, n - 1) + seq![',', ' '] + address_header(a[n - 1])
    }
}

pub fn render_mailbox_header(mailbox: &Mailbox) -> (r: String)
    ensures
        r@ == mailbox_header(mailbox@),
{
    match mailbox.name() {
        None => mailbox.email().as_str().to_owned(),
        Some(name) => {
            let mut out = encode_rfc2047_phrase(name);
            push_char(&mut out, ' ');
            push_char(&mut out, '<');
            push_str(&mut out, mailbox.email().as_str());
            push_char(&mut out, '>');
            assert(out@ =~= mailbox_header(mailbox@));
            out
        },
    }
}

fn render_group_header(name: &str, members: &[Mailbox]) -> (r: String)
    ensures
        r@ == group_header(name@, mailbox_views(members@)),
{
    let ghost ms = mailbox_views(members@);
    let mut out = encode_rfc2047_phrase(name);
    push_char(&mut out, ':');
    let ghost head = out@;
    let mut idx: usize = 0;
    while idx < members.len()
        invariant
            idx <= members@.len(),
            ms == mailbox_views(members@),
            out@ == head + mailboxes_header(ms, idx as int),
        decreases members@.len() - idx,
    {
        if idx > 0 {
            push_char(&mut out, ',');
            push_char(&mut out, ' ');
        }
        let rendered = render_mailbox_header(&members[idx]);
        push_str(&mut out, rendered.as_str());
        assert(ms[idx as int] == members@[idx as int]@);
        assert(out@ =~= head + mailboxes_header(ms, idx + 1));
        idx = idx + 1;
    }
    push_char(&mut out, ';');
    assert(out@ =~= group_header(name@, ms));
    out
}

pub fn render_address_list_header(addresses: &[Address]) -> (r: String)
    ensures
        r@ == address_list_header(address_views(addresses@), addresses@.len() as int),
{
    let ghost a = address_views(addresses@);
    let mut out = String::new();
    let mut idx: usize = 0;
    while idx < addresses.len()
        invariant
            idx <= addresses@.len(),
            a == address_views(addresses@),
            out@ == address_list_header(a, idx as int),
        decreases addresses@.len() - idx,
    {
        if idx > 0 {
            push_char(&mut out, ',');
            push_char(&mut out, ' ');
        }
        let rendered = match &addresses[idx] {
            Address::Mailbox(m) => render_mailbox_header(m),
            Address::Group(g) => render_group_header(g.name(), g.members()),
        };
        assert(a[idx as int] == addresses@[idx as int]@);
        assert(rendered@ == address_header(a[idx as int]));
        push_str(&mut out, rendered.as_str());
        assert(out@ =~= address_list_header(a, idx + 1));
        idx = idx + 1;
    }
    out
}

// ---------------------------------------------------------------------------
// Structured headers
// ---------------------------------------------------------------------------

/// `n` starts with `p`, ignoring ASCII case.
pub open spec fn starts_with_ignore_case(n: Seq<char>, p: Seq<char>) -> bool {
    p.len() <= n.len() && eq_ignore_case(n.subrange(0, p.len() as int), p)
}

/// Headers with a structured grammar, whose values are never rewritten as
/// encoded words.
pub open spec fn structured_header_name(n: Seq<char>) -> bool {
    eq_ignore_case(n, "message-id"@) || eq_ignore_case(n, "in-reply-to"@) || eq_ignore_case(n, "references"@)
        || eq_ignore_case(n, "received"@) || eq_ignore_case(n, "return-path"@) || eq_ignore_case(n, "delivered-to"@)
        || eq_ignore_case(n, "envelope-from"@) || eq_ignore_case(n, "envelope-to"@) || eq_ignore_case(
        n,
        "auto-submitted"@,
    ) || eq_ignore_case(n, "content-id"@) || eq_ignore_case(n, "content-location"@) || eq_ignore_case(
        n,
        "resent-message-id"@,
    ) || eq_ignore_case(n, "dkim-signature"@) || eq_ignore_case(n, "arc-seal"@) || eq_ignore_case(
        n,
        "arc-message-signature"@,
    ) || eq_ignore_case(n, "arc-authentication-results"@) || eq_ignore_case(n, "authentication-results"@)
        || starts_with_ignore_case(n, "list-"@) || starts_with_ignore_case(n, "x-original-"@)
}

fn name_is(v: &Vec<char>, lit: &str) -> (r: bool)
    ensures
        r == eq_ignore_case(v@, lit@),
{
    let t = str_chars(lit);
    let r = window_eq_ignore_case(v, 0, v.len(), &t);
    assert(v@.subrange(0, v@.len() as int) =~= v@);
    r
}

fn name_starts_with(v: &Vec<char>, lit: &str) -> (r: bool)
    ensures
        r == starts_with_ignore_case(v@, lit@),
{
    let t = str_chars(lit);
    if t.len() > v.len() {
        return false;
    }
    window_eq_ignore_case(v, 0, t.len(), &t)
}

pub fn is_structured_header(name: &str) -> (r: bool)
    ensures
        r == structured_header_name(name@),
{
    let v = str_chars(name);
    name_is(&v, "message-id") || name_is(&v, "in-reply-to") || name_is(&v, "references") || name_is(&v, "received")
        || name_is(&v, "return-path") || name_is(&v, "delivered-to") || name_is(&v, "envelope-from") || name_is(
        &v,
        "envelope-to",
    ) || name_is(&v, "auto-submitted") || name_is(&v, "content-id") || name_is(&v, "content-location")
        || name_is(&v, "resent-message-id") || name_is(&v, "dkim-signature") || name_is(&v, "arc-seal")
        || name_is(&v, "arc-message-signature") || name_is(&v, "arc-authentication-results") || name_is(
        &v,
        "authentication-results",
    ) || name_starts_with(&v, "list-") || name_starts_with(&v, "x-original-")
}

} // verus!

verus! {

// ---------------------------------------------------------------------------
// Rendering one header field
// ---------------------------------------------------------------------------

/// A field name the renderer and parser accept: non-empty printable ASCII
/// without `:` or space.
pub open spec fn header_name_ok(n: Seq<char>) -> bool {
    n.len() > 0 && valid_header_name(n)
}

/// Control characters that a header value may not hold (tab, CR and LF are
/// judged elsewhere).
pub open spec fn is_forbidden_control(c: char) -> bool {
    let u = c as u32;
    u <= 8 || u == 0x0b || u == 0x0c || (0x0e <= u && u <= 0x1f) || u == 0x7f
}

pub open spec fn has_raw_newline(s: Seq<char>) -> bool {
    exists|i: int| 0 <= i < s.len() && (#[trigger] s[i] == '\r' || s[i] == '\n')
}

pub open spec fn has_forbidden_control(s: Seq<char>) -> bool {
    exists|i: int| 0 <= i < s.len() && is_forbidden_control(#[trigger] s[i])
}

/// Space or tab.
pub open spec fn is_lwsp_char(c: char) -> bool {
    c == ' ' || c == '\t'
}

/// The last index in `lo..hi` holding a space or tab.
pub open spec fn last_lwsp(v: Seq<char>, lo: int, hi: int) -> Option<int>
    decreases hi - lo,
{
    if hi <= lo {
        None
    } else if is_lwsp_char(v[hi - 1]) {
        Some(hi - 1)
    } else {
        last_lwsp(v, lo, hi - 1)
    }
}

pub proof fn lemma_last_lwsp(v: Seq<char>, lo: int, hi: int)
    ensures
        last_lwsp(v, lo, hi) matches Some(k) ==> lo <= k < hi && is_lwsp_char(v[k]),
    decreases hi - lo,
{
    if hi > lo && !is_lwsp_char(v[hi - 1]) {
        lemma_last_lwsp(v, lo, hi - 1);
    }
}

/// Widths of the lines of a folded field: the first line's preferred and
/// hard widths, then those of continuation lines.
pub struct FoldWidths {
    pub first_preferred: int,
    pub first_hard: int,
    pub rest_preferred: int,
    pub rest_hard: int,
}

/// Folding `v` from `i`: a line takes what remains if it fits the preferred
/// width; else it breaks at the last space or tab within the preferred
/// width, else takes what remains if it fits the hard width, else breaks at
/// the last space or tab within the hard width. The space or tab at a break
/// is dropped (the continuation line starts with a space instead). `None`
/// when a line cannot be made to fit.
pub open spec fn fold_from(v: Seq<char>, i: int, first: bool, w: FoldWidths) -> Option<Seq<Seq<char>>>
    decreases v.len() - i,
{
    if i < 0 || i >= v.len() {
        Some(seq![])
    } else {
        let p = if first { w.first_preferred } else { w.rest_preferred };
        let h = if first { w.first_hard } else { w.rest_hard };
        let rem = v.len() - i;
        if h <= 0 {
            None
        } else if rem <= p {
            Some(seq![v.subrange(i, v.len() as int)])
        } else {
            let brk = match last_lwsp(v, i, i + p) {
                Some(k) => Some(k),
                None => if rem <= h {
                    None
                } else {
                    last_lwsp(v, i, i + h)
                },
            };
            if last_lwsp(v, i, i + p) is None && rem <= h {
                Some(seq![v.subrange(i, v.len() as int)])
            } else {
                match brk {
                    Some(k) => if i <= k < v.len() {
                        match fold_from(v, k + 1, false, w) {
                            Some(rest) => Some(seq![v.subrange(i, k)] + rest),
                            None => None,
                        }
                    } else {
                        None
                    },
                    None => None,
                }
            }
        }
    }
}

/// The lines of a folded field value (an empty value is one empty line).
pub open spec fn folded(v: Seq<char>, w: FoldWidths) -> Option<Seq<Seq<char>>> {
    if v.len() == 0 {
        Some(seq![seq![]])
    } else {
        fold_from(v, 0, true, w)
    }
}

/// `a - b`, or 0 when `b > a`.
pub open spec fn sat_sub(a: int, b: int) -> int {
    if a >= b {
        a - b
    } else {
        0
    }
}

pub open spec fn min_int(a: int, b: int) -> int {
    if a <= b {
        a
    } else {
        b
    }
}

/// Line widths for a field named with `name_len` characters: the hard limit
/// is 998 characters per line (the first line also holds `name: `), and a
/// soft target, when given, lowers the preferred widths.
pub open spec fn fold_widths(name_len: int, soft: Option<usize>) -> FoldWidths {
    let first_hard = sat_sub(998, name_len + 2);
    let rest_hard = 997;
    FoldWidths {
        first_preferred: match soft {
            Some(t) => min_int(sat_sub(t as int, name_len + 2), first_hard),
            None => first_hard,
        },
        first_hard,
        rest_preferred: match soft {
            Some(t) => min_int(sat_sub(t as int, 1), rest_hard),
            None => rest_hard,
        },
        rest_hard,
    }
}

/// The continuation lines from the `k`-th on, each as space, text, CRLF.
pub open spec fn continuation_bytes(lines: Seq<Seq<char>>, k: int) -> Seq<u8>
    decreases lines.len() - k,
{
    if k < 1 || k >= lines.len() {
        seq![]
    } else {
        seq![0x20u8] + ascii_bytes(lines[k]) + seq![13u8, 10u8] + continuation_bytes(lines, k + 1)
    }
}

/// A field written out: `name: first line` CRLF, then each continuation line.
pub open spec fn field_bytes(name: Seq<char>, lines: Seq<Seq<char>>) -> Seq<u8> {
    ascii_bytes(name) + seq![0x3au8, 0x20u8] + ascii_bytes(lines[0]) + seq![13u8, 10u8] + continuation_bytes(
        lines,
        1,
    )
}

/// Why a header field cannot be rendered.
pub enum FieldDefect {
    InvalidName,
    RawNewline,
    ControlCharacter,
    NonAscii,
    TooLong,
}

/// The bytes of a rendered header field, or why it cannot be rendered, in
/// the order the checks are made.
pub open spec fn rendered_field(name: Seq<char>, value: Seq<char>, soft: Option<usize>) -> Result<Seq<u8>, FieldDefect> {
    if !header_name_ok(name) {
        Err(FieldDefect::InvalidName)
    } else if has_raw_newline(value) {
        Err(FieldDefect::RawNewline)
    } else if has_forbidden_control(value) {
        Err(FieldDefect::ControlCharacter)
    } else if !is_ascii_chars(value) {
        Err(FieldDefect::NonAscii)
    } else {
        match folded(value, fold_widths(name.len() as int, soft)) {
            Some(lines) => Ok(field_bytes(name, lines)),
            None => Err(FieldDefect::TooLong),
        }
    }
}

/// The render error that reports a field defect for the field `name`.
pub open spec fn field_error_is(e: MessageRenderError, d: FieldDefect, name: Seq<char>) -> bool {
    match d {
        FieldDefect::InvalidName => e matches MessageRenderError::InvalidHeaderName { name: n } && n@ == name,
        FieldDefect::RawNewline => e matches MessageRenderError::HeaderContainsRawNewline { name: n } && n@ == name,
        FieldDefect::ControlCharacter => e matches MessageRenderError::HeaderContainsControlCharacter { name: n }
            && n@ == name,
        FieldDefect::NonAscii => e matches MessageRenderError::HeaderContainsNonAscii { name: n } && n@ == name,
        FieldDefect::TooLong => e matches MessageRenderError::HeaderLineTooLong { name: n } && n@ == name,
    }
}

pub fn is_valid_header_name(v: &Vec<char>) -> (r: bool)
    ensures
        r == header_name_ok(v@),
{
    if v.len() == 0 {
        return false;
    }
    let mut i: usize = 0;
    while i < v.len()
        invariant
            i <= v@.len(),
            forall|j: int| 0 <= j < i ==> is_header_name_char(#[trigger] v@[j]),
        decreases v@.len() - i,
    {
        let c = v[i];
        if !(('!' <= c && c <= '9') || (';' <= c && c <= '~')) {
            return false;
        }
        i = i + 1;
    }
    true
}

fn scan_value(v: &Vec<char>) -> (r: (bool, bool))
    ensures
        r.0 == has_raw_newline(v@),
        r.1 == has_forbidden_control(v@),
{
    let mut newline = false;
    let mut control = false;
    let mut i: usize = 0;
    while i < v.len()
        invariant
            i <= v@.len(),
            newline == exists|j: int| 0 <= j < i && (#[trigger] v@[j] == '\r' || v@[j] == '\n'),
            control == exists|j: int| 0 <= j < i && is_forbidden_control(#[trigger] v@[j]),
        decreases v@.len() - i,
    {
        let c = v[i];
        let u = c as u32;
        if c == '\r' || c == '\n' {
            newline = true;
        }
        if u <= 8 || u == 0x0b || u == 0x0c || (0x0e <= u && u <= 0x1f) || u == 0x7f {
            control = true;
        }
        i = i + 1;
    }
    (newline, control)
}

fn last_lwsp_exec(v: &Vec<char>, lo: usize, hi: usize) -> (r: Option<usize>)
    requires
        lo <= hi <= v@.len(),
    ensures
        match r {
            Some(k) => last_lwsp(v@, lo as int, hi as int) == Some(k as int),
            None => last_lwsp(v@, lo as int, hi as int) is None,
        },
{
    let mut h = hi;
    while h > lo
        invariant
            lo <= h <= hi <= v@.len(),
            last_lwsp(v@, lo as int, h as int) == last_lwsp(v@, lo as int, hi as int),
        decreases h,
    {
        if v[h - 1] == ' ' || v[h - 1] == '\t' {
            return Some(h - 1);
        }
        h = h - 1;
    }
    None
}

/// The characters of each line.
pub open spec fn char_lines(v: Seq<Vec<char>>) -> Seq<Seq<char>> {
    Seq::new(v.len(), |i: int| v[i]@)
}

/// Exec widths (as `usize`).
fn widths_for(name_len: usize, soft: Option<usize>) -> (r: (usize, usize, usize, usize))
    ensures
        r.0 == fold_widths(name_len as int, soft).first_preferred,
        r.1 == fold_widths(name_len as int, soft).first_hard,
        r.2 == fold_widths(name_len as int, soft).rest_preferred,
        r.3 == fold_widths(name_len as int, soft).rest_hard,
{
    let first_hard: usize = if name_len > 996 {
        0
    } else {
        998 - (name_len + 2)
    };
    let rest_hard: usize = 997;
    let first_preferred = match soft {
        None => first_hard,
        Some(t) => {
            let s: usize = if t >= name_len && t - name_len >= 2 {
                t - name_len - 2
            } else {
                0
            };
            if s <= first_hard {
                s
            } else {
                first_hard
            }
        },
    };
    let rest_preferred = match soft {
        None => rest_hard,
        Some(t) => {
            let s: usize = if t >= 1 {
                t - 1
            } else {
                0
            };
            if s <= rest_hard {
                s
            } else {
                rest_hard
            }
        },
    };
    (first_preferred, first_hard, rest_preferred, rest_hard)
}

/// Splits a field value into lines that fit; `None` when one cannot.
fn split_header_value_for_folding(v: &Vec<char>, fp: usize, fh: usize, cp: usize, ch: usize) -> (r: Option<
    Vec<Vec<char>>,
>)
    ensures
        match r {
            Some(lines) => folded(
                v@,
                FoldWidths {
                    first_preferred: fp as int,
                    first_hard: fh as int,
                    rest_preferred: cp as int,
                    rest_hard: ch as int,
                },
            ) == Some(char_lines(lines@)),
            None => folded(
                v@,
                FoldWidths {
                    first_preferred: fp as int,
                    first_hard: fh as int,
                    rest_preferred: cp as int,
                    rest_hard: ch as int,
                },
            ) is None,
        },
{
    let ghost w = FoldWidths {
        first_preferred: fp as int,
        first_hard: fh as int,
        rest_preferred: cp as int,
        rest_hard: ch as int,
    };
    let mut lines: Vec<Vec<char>> = Vec::new();
    if v.len() == 0 {
        lines.push(Vec::new());
        assert(char_lines(lines@) =~= seq![Seq::<char>::empty()]);
        return Some(lines);
    }
    let mut i: usize = 0;
    let mut first = true;
    while i < v.len()
        invariant
            i <= v@.len(),
            v@.len() > 0,
            first ==> i == 0,
            w.first_preferred == fp,
            w.first_hard == fh,
            w.rest_preferred == cp,
            w.rest_hard == ch,
            fold_from(v@, 0, true, w) == match fold_from(v@, i as int, first, w) {
                Some(rest) => Some(char_lines(lines@) + rest),
                None => None,
            },
        decreases v@.len() - i,
    {
        let p = if first { fp } else { cp };
        let h = if first { fh } else { ch };
        let ghost was_first = first;
        first = false;
        if h == 0 {
            assert(fold_from(v@, i as int, was_first, w) is None);
            return None;
        }
        let rem = v.len() - i;
        if rem <= p {
            let line = crate::text::sub_chars(v, i, v.len());
            let ghost before = char_lines(lines@);
            lines.push(line);
            assert(char_lines(lines@) =~= before + seq![v@.subrange(i as int, v@.len() as int)]);
            assert(fold_from(v@, v@.len() as int, false, w) == Some(Seq::<Seq<char>>::empty()));
            assert(char_lines(lines@) + Seq::<Seq<char>>::empty() =~= char_lines(lines@));
            i = v.len();
        } else {
            let pref = last_lwsp_exec(v, i, i + p);
            let brk = match pref {
                Some(k) => Some(k),
                None => {
                    if rem <= h {
                        None
                    } else {
                        last_lwsp_exec(v, i, i + h)
                    }
                },
            };
            if pref.is_none() && rem <= h {
                let line = crate::text::sub_chars(v, i, v.len());
                let ghost before = char_lines(lines@);
                lines.push(line);
                assert(char_lines(lines@) =~= before + seq![v@.subrange(i as int, v@.len() as int)]);
                assert(fold_from(v@, v@.len() as int, false, w) == Some(Seq::<Seq<char>>::empty()));
                assert(char_lines(lines@) + Seq::<Seq<char>>::empty() =~= char_lines(lines@));
                i = v.len();
            } else {
                match brk {
                    None => {
                        assert(fold_from(v@, i as int, was_first, w) is None);
                        return None;
                    },
                    Some(k) => {
                        proof {
                            lemma_last_lwsp(v@, i as int, i + p);
                            lemma_last_lwsp(v@, i as int, i + h);
                        }
                        let line = crate::text::sub_chars(v, i, k);
                        let ghost before = char_lines(lines@);
                        lines.push(line);
                        assert(char_lines(lines@) =~= before + seq![v@.subrange(i as int, k as int)]);
                        proof {
                            match fold_from(v@, k + 1, false, w) {
                                Some(rest) => {
                                    assert(before + (seq![v@.subrange(i as int, k as int)] + rest) =~= char_lines(lines@)
                                        + rest);
                                },
                                None => {},
                            }
                        }
                        i = k + 1;
                    },
                }
            }
        }
    }
    proof {
        assert(char_lines(lines@) + Seq::<Seq<char>>::empty() =~= char_lines(lines@));
    }
    Some(lines)
}

/// Appends the ASCII bytes of `v` to `out`.
fn push_ascii_chars(out: &mut Vec<u8>, v: &Vec<char>)
    requires
        is_ascii_chars(v@),
    ensures
        final(out)@ == old(out)@ + ascii_bytes(v@),
{
    let mut i: usize = 0;
    while i < v.len()
        invariant
            i <= v@.len(),
            is_ascii_chars(v@),
            out@ == old(out)@ + ascii_bytes(v@.subrange(0, i as int)),
        decreases v@.len() - i,
    {
        let c = v[i];
        assert(c <= '\u{7f}');
        out.push((c as u32) as u8);
        i = i + 1;
        assert(out@ =~= old(out)@ + ascii_bytes(v@.subrange(0, i as int)));
    }
    assert(v@.subrange(0, v@.len() as int) =~= v@);
}

/// Renders one header field onto `out`, folding long values.
pub fn push_header_line(out: &mut Vec<u8>, name: &str, value: &str, soft_fold_at: Option<usize>) -> (r: Result<
    (),
    MessageRenderError,
>)
    ensures
        match rendered_field(name@, value@, soft_fold_at) {
            Ok(bytes) => r is Ok && final(out)@ == old(out)@ + bytes,
            Err(d) => (r matches Err(e) && field_error_is(e, d, name@)) && final(out)@ == old(out)@,
        },
{
    let n = str_chars(name);
    if !is_valid_header_name(&n) {
        return Err(MessageRenderError::InvalidHeaderName { name: name.to_owned() });
    }
    let v = str_chars(value);
    let (newline, control) = scan_value(&v);
    let ascii = value.is_ascii();
    if newline {
        return Err(MessageRenderError::HeaderContainsRawNewline { name: name.to_owned() });
    }
    if control {
        return Err(MessageRenderError::HeaderContainsControlCharacter { name: name.to_owned() });
    }
    if !ascii {
        return Err(MessageRenderError::HeaderContainsNonAscii { name: name.to_owned() });
    }
    let (fp, fh, cp, ch) = widths_for(n.len(), soft_fold_at);
    let lines = match split_header_value_for_folding(&v, fp, fh, cp, ch) {
        Some(lines) => lines,
        None => return Err(MessageRenderError::HeaderLineTooLong { name: name.to_owned() }),
    };
    let ghost ls = char_lines(lines@);
    assert(ls.len() > 0) by {
        lemma_folded_nonempty(v@, fold_widths(n@.len() as int, soft_fold_at));
    }
    proof {
        lemma_folded_ascii(v@, fold_widths(n@.len() as int, soft_fold_at));
        assert(is_ascii_chars(n@)) by {
            assert forall|j: int| 0 <= j < n@.len() implies '\0' <= #[trigger] n@[j] <= '\u{7f}' by {
                assert(is_header_name_char(n@[j]));
            }
        }
    }
    let ghost start = out@;
    push_ascii_chars(out, &n);
    out.push(0x3a);
    out.push(0x20);
    assert(lines@[0]@ == ls[0]);
    assert(is_ascii_chars(lines@[0]@));
    push_ascii_chars(out, &lines[0]);
    out.push(13);
    out.push(10);
    let ghost head = out@;
    assert(head =~= start + (ascii_bytes(name@) + seq![0x3au8, 0x20u8] + ascii_bytes(ls[0]) + seq![13u8, 10u8]));
    let mut k: usize = 1;
    while k < lines.len()
        invariant
            1 <= k <= lines@.len(),
            ls == char_lines(lines@),
            forall|j: int| 0 <= j < ls.len() ==> is_ascii_chars(#[trigger] ls[j]),
            out@ + continuation_bytes(ls, k as int) == head + continuation_bytes(ls, 1),
        decreases lines@.len() - k,
    {
        let ghost before = out@;
        out.push(0x20);
        assert(lines@[k as int]@ == ls[k as int]);
        assert(is_ascii_chars(lines@[k as int]@));
        push_ascii_chars(out, &lines[k]);
        out.push(13);
        out.push(10);
        assert(out@ =~= before + (seq![0x20u8] + ascii_bytes(ls[k as int]) + seq![13u8, 10u8]));
        assert(before + continuation_bytes(ls, k as int) =~= out@ + continuation_bytes(ls, k + 1));
        k = k + 1;
    }
    assert(out@ + seq![] =~= out@);
    assert(out@ =~= start + field_bytes(name@, ls));
    Ok(())
}

pub proof fn lemma_fold_from_ascii(v: Seq<char>, i: int, first: bool, w: FoldWidths)
    requires
        is_ascii_chars(v),
    ensures
        fold_from(v, i, first, w) matches Some(ls) ==> forall|j: int| 0 <= j < ls.len() ==> is_ascii_chars(
            #[trigger] ls[j],
        ),
    decreases v.len() - i,
{
    if 0 <= i < v.len() {
        let p = if first { w.first_preferred } else { w.rest_preferred };
        let h = if first { w.first_hard } else { w.rest_hard };
        lemma_last_lwsp(v, i, i + p);
        lemma_last_lwsp(v, i, i + h);
        let brk = match last_lwsp(v, i, i + p) {
            Some(k) => Some(k),
            None => if v.len() - i <= h { None } else { last_lwsp(v, i, i + h) },
        };
        if let Some(k) = brk {
            if i <= k < v.len() {
                lemma_fold_from_ascii(v, k + 1, false, w);
            }
        }
        if let Some(ls) = fold_from(v, i, first, w) {
            assert forall|j: int| 0 <= j < ls.len() implies is_ascii_chars(#[trigger] ls[j]) by {
                if j == 0 {
                    assert forall|m: int| 0 <= m < ls[0].len() implies '\0' <= #[trigger] ls[0][m] <= '\u{7f}' by {
                        assert(ls[0][m] == v[i + m]);
                    }
                } else {
                    let rest = fold_from(v, brk->0 + 1, false, w)->0;
                    assert(ls[j] == rest[j - 1]);
                }
            }
        }
    }
}

pub proof fn lemma_folded_ascii(v: Seq<char>, w: FoldWidths)
    requires
        is_ascii_chars(v),
    ensures
        folded(v, w) matches Some(ls) ==> forall|j: int| 0 <= j < ls.len() ==> is_ascii_chars(#[trigger] ls[j]),
{
    if v.len() > 0 {
        lemma_fold_from_ascii(v, 0, true, w);
    } else {
        let ls = seq![Seq::<char>::empty()];
        assert(is_ascii_chars(ls[0]));
    }
}

pub proof fn lemma_folded_nonempty(v: Seq<char>, w: FoldWidths)
    ensures
        folded(v, w) matches Some(ls) ==> ls.len() > 0,
{
    if v.len() > 0 {
        reveal_with_fuel(fold_from, 1);
    }
}

} // verus!

verus! {

// ---------------------------------------------------------------------------
// Splitting and parsing a header block
// ---------------------------------------------------------------------------

/// The first index `p >= i` where `pat` occurs in `s`.
pub open spec fn find_bytes(s: Seq<u8>, i: int, pat: Seq<u8>) -> Option<int>
    decreases s.len() - i,
{
    if i < 0 || i >= s.len() || i + pat.len() > s.len() {
        None
    } else if s.subrange(i, i + pat.len()) == pat {
        Some(i)
    } else {
        find_bytes(s, i + 1, pat)
    }
}

pub proof fn lemma_find_bytes(s: Seq<u8>, i: int, pat: Seq<u8>)
    requires
        0 <= i,
    ensures
        find_bytes(s, i, pat) matches Some(p) ==> i <= p && p + pat.len() <= s.len(),
    decreases s.len() - i,
{
    if i < s.len() && i + pat.len() <= s.len() && s.subrange(i, i + pat.len()) != pat {
        lemma_find_bytes(s, i + 1, pat);
    }
}

pub fn find_bytes_exec(v: &[u8], from: usize, pat: &[u8]) -> (r: Option<usize>)
    requires
        from <= v@.len(),
    ensures
        match r {
            Some(p) => find_bytes(v@, from as int, pat@) == Some(p as int),
            None => find_bytes(v@, from as int, pat@) is None,
        },
{
    let mut i = from;
    while i < v.len() && pat.len() <= v.len() - i
        invariant
            from <= i,
            find_bytes(v@, i as int, pat@) == find_bytes(v@, from as int, pat@),
        decreases v@.len() + 1 - i,
    {
        if crate::wire::shared::bytes_window_eq(v, i, i + pat.len(), pat) {
            return Some(i);
        }
        i = i + 1;
    }
    None
}

/// Where the header block of `s` ends and the body begins: after a leading
/// empty line, else at the first blank line (CRLF CRLF, else LF LF), else
/// everything is header.
pub open spec fn header_split(s: Seq<u8>) -> (int, int) {
    if s.len() >= 2 && s[0] == 13 && s[1] == 10 {
        (0, 2)
    } else if s.len() >= 1 && s[0] == 10 {
        (0, 1)
    } else {
        match find_bytes(s, 0, seq![13u8, 10u8, 13u8, 10u8]) {
            Some(p) => (p, p + 4),
            None => match find_bytes(s, 0, seq![10u8, 10u8]) {
                Some(p) => (p, p + 2),
                None => (s.len() as int, s.len() as int),
            },
        }
    }
}

/// The header bytes and the body bytes of a message or part.
pub fn split_headers_and_body_bytes(input: &[u8]) -> (r: (usize, usize))
    ensures
        r.0 == header_split(input@).0,
        r.1 == header_split(input@).1,
        r.0 <= r.1 <= input@.len(),
{
    if input.len() >= 2 && input[0] == 13 && input[1] == 10 {
        return (0, 2);
    }
    if input.len() >= 1 && input[0] == 10 {
        return (0, 1);
    }
    let crlf2: [u8; 4] = [13, 10, 13, 10];
    let lf2: [u8; 2] = [10, 10];
    assert(crlf2@ =~= seq![13u8, 10u8, 13u8, 10u8]);
    assert(lf2@ =~= seq![10u8, 10u8]);
    proof {
        lemma_find_bytes(input@, 0, crlf2@);
        lemma_find_bytes(input@, 0, lf2@);
    }
    if let Some(p) = find_bytes_exec(input, 0, crlf2.as_slice()) {
        return (p, p + 4);
    }
    if let Some(p) = find_bytes_exec(input, 0, lf2.as_slice()) {
        return (p, p + 2);
    }
    (input.len(), input.len())
}

/// Index of the first LF at or after `i`, or the length.
pub open spec fn lf_at(s: Seq<u8>, i: int) -> int
    decreases s.len() - i,
{
    if i < 0 || i >= s.len() {
        s.len() as int
    } else if s[i] == 10 {
        i
    } else {
        lf_at(s, i + 1)
    }
}

pub proof fn lemma_lf_at(s: Seq<u8>, i: int)
    requires
        0 <= i <= s.len(),
    ensures
        i <= lf_at(s, i) <= s.len(),
        lf_at(s, i) < s.len() ==> s[lf_at(s, i)] == 10,
        forall|j: int| i <= j < lf_at(s, i) ==> #[trigger] s[j] != 10,
    decreases s.len() - i,
{
    if i < s.len() && s[i] != 10 {
        lemma_lf_at(s, i + 1);
    }
}

/// One header line, LF and any CR before it removed: bytes `i..` up to the
/// line end.
pub open spec fn header_line_end(s: Seq<u8>, i: int) -> int {
    let e = lf_at(s, i);
    if e > i && s[e - 1] == 13 {
        e - 1
    } else {
        e
    }
}

/// Why a header line is rejected.
pub enum LineDefect {
    Utf8,
    Line(Seq<char>),
}

/// A header field being accumulated: its name and value so far.
pub type FieldView = (Seq<char>, Seq<char>);

/// The finished fields, with the field in progress appended.
pub open spec fn flushed(done: Seq<FieldView>, cur: Option<FieldView>) -> Seq<FieldView> {
    match cur {
        Some(f) => done.push(f),
        None => done,
    }
}

/// `t` from `i` without its leading spaces and tabs.
pub open spec fn lwsp_trim_start(t: Seq<char>, i: int) -> Seq<char>
    decreases t.len() - i,
{
    if 0 <= i < t.len() && is_lwsp_char(t[i]) {
        lwsp_trim_start(t, i + 1)
    } else if 0 <= i <= t.len() {
        t.subrange(i, t.len() as int)
    } else {
        seq![]
    }
}

/// A control character other than tab.
pub open spec fn is_line_control(c: char) -> bool {
    c != '\t' && is_ascii_control_char(c)
}

/// What one header line does to the fields: empty lines are skipped; lines
/// must be UTF-8, ASCII, and free of controls other than tab; a line that
/// starts with a space or tab continues the field in progress (kept as
/// written); any other line finishes it and starts a new field `name:
/// value`, the name a valid field name and the value without its leading
/// white space.
pub open spec fn header_line_step(line: Seq<u8>, done: Seq<FieldView>, cur: Option<FieldView>) -> Result<
    (Seq<FieldView>, Option<FieldView>),
    LineDefect,
> {
    if line.len() == 0 {
        Ok((done, cur))
    } else if !valid_utf8(line) {
        Err(LineDefect::Utf8)
    } else if !is_ascii_chars(decode_utf8(line)) {
        Err(LineDefect::Line(decode_utf8(line)))
    } else {
        let t = latin1_chars(line);
        if exists|k: int| 0 <= k < t.len() && is_line_control(#[trigger] t[k]) {
            Err(LineDefect::Line(t))
        } else if is_lwsp_char(t[0]) {
            match cur {
                None => Err(LineDefect::Line(t)),
                Some(f) => Ok((done, Some((f.0, f.1 + t)))),
            }
        } else {
            match crate::text::find_in(t, ':', 0, t.len() as int) {
                None => Err(LineDefect::Line(t)),
                Some(k) => if !header_name_ok(t.subrange(0, k)) {
                    Err(LineDefect::Line(t))
                } else {
                    Ok((flushed(done, cur), Some((t.subrange(0, k), lwsp_trim_start(t, k + 1)))))
                },
            }
        }
    }
}

/// The fields of a header block, read line by line from `i`.
pub open spec fn header_fields_from(
    raw: Seq<u8>,
    i: int,
    done: Seq<FieldView>,
    cur: Option<FieldView>,
) -> Result<Seq<FieldView>, LineDefect>
    decreases raw.len() - i,
{
    if i < 0 || i > raw.len() {
        Ok(flushed(done, cur))
    } else {
        let e = lf_at(raw, i);
        match header_line_step(raw.subrange(i, header_line_end(raw, i)), done, cur) {
            Err(d) => Err(d),
            Ok(st) => if e >= raw.len() || e < i {
                Ok(flushed(st.0, st.1))
            } else {
                header_fields_from(raw, e + 1, st.0, st.1)
            },
        }
    }
}

/// The fields of a header block.
pub open spec fn header_fields(raw: Seq<u8>) -> Result<Seq<FieldView>, LineDefect> {
    header_fields_from(raw, 0, seq![], None)
}

/// A parse error that reports a line defect.
pub open spec fn line_error_is(e: MessageParseError, d: LineDefect) -> bool {
    match d {
        LineDefect::Utf8 => e is InvalidUtf8,
        LineDefect::Line(l) => e matches MessageParseError::InvalidHeaderLine { line } && line@ == l,
    }
}

pub open spec fn field_views(v: Seq<(String, String)>) -> Seq<FieldView> {
    Seq::new(v.len(), |i: int| (v[i].0@, v[i].1@))
}

pub open spec fn opt_field_view(o: Option<(String, String)>) -> Option<FieldView> {
    match o {
        Some(f) => Some((f.0@, f.1@)),
        None => None,
    }
}

fn line_text_checks(raw: &[u8], lo: usize, hi: usize) -> (r: Result<String, MessageParseError>)
    requires
        lo < hi <= raw@.len(),
    ensures
        ({
            let line = raw@.subrange(lo as int, hi as int);
            if !valid_utf8(line) {
                r matches Err(e) && line_error_is(e, LineDefect::Utf8)
            } else if !is_ascii_chars(decode_utf8(line)) {
                r matches Err(e) && line_error_is(e, LineDefect::Line(decode_utf8(line)))
            } else if exists|k: int| 0 <= k < line.len() && is_line_control(#[trigger] latin1_chars(line)[k]) {
                r matches Err(e) && line_error_is(e, LineDefect::Line(latin1_chars(line)))
            } else {
                r matches Ok(t) && t@ == latin1_chars(line)
            }
        }),
{
    let ghost line = raw@.subrange(lo as int, hi as int);
    let mut i = lo;
    while i < hi
        invariant
            lo <= i <= hi <= raw@.len(),
            line == raw@.subrange(lo as int, hi as int),
            forall|j: int| lo <= j < i ==> #[trigger] raw@[j] < 0x80,
        decreases hi - i,
    {
        if raw[i] >= 0x80 {
            let piece = &raw[lo..hi];
            assert(piece@ =~= line);
            match utf8_to_string(piece) {
                None => {
                    return Err(MessageParseError::InvalidUtf8);
                },
                Some(s) => {
                    proof {
                        lemma_non_ascii_decode(line, i - lo);
                    }
                    return Err(MessageParseError::InvalidHeaderLine { line: s });
                },
            }
        }
        i = i + 1;
    }
    proof {
        assert forall|j: int| 0 <= j < line.len() implies #[trigger] line[j] < 0x80 by {
            assert(line[j] == raw@[lo + j]);
        }
        lemma_ascii_bytes_decode(line);
    }
    let t = latin1_string(raw, lo, hi);
    let v = str_chars(t.as_str());
    let mut k: usize = 0;
    while k < v.len()
        invariant
            k <= v@.len(),
            v@ == latin1_chars(line),
            t@ == latin1_chars(line),
            line == raw@.subrange(lo as int, hi as int),
            valid_utf8(line),
            is_ascii_chars(decode_utf8(line)),
            forall|j: int| 0 <= j < k ==> !is_line_control(#[trigger] v@[j]),
        decreases v@.len() - k,
    {
        let c = v[k];
        if c != '\t' && ((c as u32) < 0x20 || (c as u32) == 0x7f) {
            assert(is_line_control(latin1_chars(line)[k as int]));
            return Err(MessageParseError::InvalidHeaderLine { line: t });
        }
        k = k + 1;
    }
    Ok(t)
}

/// Bytes below 0x80 are valid UTF-8 and decode one character per byte.
pub proof fn lemma_ascii_bytes_decode(b: Seq<u8>)
    requires
        forall|j: int| 0 <= j < b.len() ==> #[trigger] b[j] < 0x80,
    ensures
        valid_utf8(b),
        decode_utf8(b) == latin1_chars(b),
        is_ascii_chars(latin1_chars(b)),
{
    let t = latin1_chars(b);
    assert forall|j: int| 0 <= j < t.len() implies '\0' <= #[trigger] t[j] <= '\u{7f}' by {
        assert(t[j] == (b[j] as u32) as char);
    }
    vstd::utf8::is_ascii_chars_encode_utf8(t);
    assert(vstd::utf8::encode_utf8(t) =~= b) by {
        assert forall|j: int| 0 <= j < b.len() implies vstd::utf8::encode_utf8(t)[j] == b[j] by {
            assert(t[j] as u8 == vstd::utf8::encode_utf8(t)[j]);
        }
    }
    vstd::utf8::encode_utf8_valid_utf8(t);
    vstd::utf8::encode_utf8_decode_utf8(t);
}

/// Valid UTF-8 with a byte of 0x80 or more decodes to non-ASCII text.
pub proof fn lemma_non_ascii_decode(b: Seq<u8>, j: int)
    requires
        0 <= j < b.len(),
        b[j] >= 0x80,
        valid_utf8(b),
    ensures
        !is_ascii_chars(decode_utf8(b)),
{
    let t = decode_utf8(b);
    vstd::utf8::decode_utf8_encode_utf8(b);
    if is_ascii_chars(t) {
        vstd::utf8::is_ascii_chars_encode_utf8(t);
        assert(vstd::utf8::encode_utf8(t)[j] == t[j] as u8);
        vstd::utf8::is_ascii_chars_nat_bound(t);
        assert((t[j] as nat) < 128);
    }
}

} // verus!

verus! {

fn trim_start_index(v: &Vec<char>, from: usize) -> (r: usize)
    requires
        from <= v@.len(),
    ensures
        from <= r <= v@.len(),
        lwsp_trim_start(v@, from as int) == v@.subrange(r as int, v@.len() as int),
{
    let mut j = from;
    while j < v.len() && (v[j] == ' ' || v[j] == '\t')
        invariant
            from <= j <= v@.len(),
            lwsp_trim_start(v@, from as int) == lwsp_trim_start(v@, j as int),
        decreases v@.len() - j,
    {
        j = j + 1;
    }
    j
}

/// Parses a header block into `(name, value)` fields, joining folded lines.
pub fn parse_header_lines_bytes(raw: &[u8]) -> (r: Result<Vec<(String, String)>, MessageParseError>)
    ensures
        match header_fields(raw@) {
            Ok(fs) => r matches Ok(v) && field_views(v@) == fs,
            Err(d) => r matches Err(e) && line_error_is(e, d),
        },
{
    let mut output: Vec<(String, String)> = Vec::new();
    let mut current: Option<(String, String)> = None;
    let mut i: usize = 0;
    let mut finished = false;
    assert(field_views(output@) =~= Seq::<FieldView>::empty());
    while !finished
        invariant
            i <= raw@.len(),
            !finished ==> header_fields(raw@) == header_fields_from(
                raw@,
                i as int,
                field_views(output@),
                opt_field_view(current),
            ),
            finished ==> header_fields(raw@) == Ok::<Seq<FieldView>, LineDefect>(
                flushed(field_views(output@), opt_field_view(current)),
            ),
        decreases (raw@.len() - i) * 2 + if finished {
            0int
        } else {
            1int
        },
    {
        let ghost s = raw@;
        let ghost done0 = field_views(output@);
        let ghost cur0 = opt_field_view(current);
        let mut e = i;
        while e < raw.len() && raw[e] != 10
            invariant
                i <= e <= raw@.len(),
                s == raw@,
                lf_at(s, e as int) == lf_at(s, i as int),
            decreases raw@.len() - e,
        {
            e = e + 1;
        }
        proof {
            lemma_lf_at(s, i as int);
        }
        let le = if e > i && raw[e - 1] == 13 {
            e - 1
        } else {
            e
        };
        assert(le == header_line_end(s, i as int));
        let ghost line = s.subrange(i as int, le as int);
        let ghost step = header_line_step(line, done0, cur0);
        if le > i {
            let t = match line_text_checks(raw, i, le) {
                Ok(t) => t,
                Err(err) => {
                    return Err(err);
                },
            };
            let v = str_chars(t.as_str());
            assert(v@ == latin1_chars(line));
            assert(v@[0] == (raw@[i as int] as u32) as char);
            if raw[i] == 32 || raw[i] == 9 {
                match current {
                    None => {
                        return Err(MessageParseError::InvalidHeaderLine { line: t });
                    },
                    Some((n, val)) => {
                        let mut val = val;
                        push_str(&mut val, t.as_str());
                        current = Some((n, val));
                    },
                }
            } else {
                assert(!is_lwsp_char(v@[0]));
                let colon = crate::text::find_char(&v, ':', 0, v.len());
                let k = match colon {
                    None => {
                        return Err(MessageParseError::InvalidHeaderLine { line: t });
                    },
                    Some(k) => k,
                };
                proof {
                    crate::text::lemma_find_in_bounds(v@, ':', 0, v@.len() as int);
                }
                let name_chars = crate::text::sub_chars(&v, 0, k);
                if !is_valid_header_name(&name_chars) {
                    return Err(MessageParseError::InvalidHeaderLine { line: t });
                }
                let vstart = trim_start_index(&v, k + 1);
                let name = crate::text::string_from_chars(v.as_slice(), 0, k);
                let value = crate::text::string_from_chars(v.as_slice(), vstart, v.len());
                let prev = current;
                current = Some((name, value));
                match prev {
                    Some(entry) => {
                        output.push(entry);
                        assert(field_views(output@) =~= done0.push(cur0->0));
                    },
                    None => {},
                }
            }
            assert(step == Ok::<(Seq<FieldView>, Option<FieldView>), LineDefect>((field_views(output@), opt_field_view(current))));
        } else {
            assert(line.len() == 0);
        }
        if e >= raw.len() {
            finished = true;
        } else {
            i = e + 1;
        }
    }
    match current {
        Some(entry) => {
            let ghost done0 = field_views(output@);
            output.push(entry);
            assert(field_views(output@) =~= done0.push((entry.0@, entry.1@)));
        },
        None => {},
    }
    Ok(output)
}

} // verus!

verus! {

// ---------------------------------------------------------------------------
// Parsed fields are valid header fields
// ---------------------------------------------------------------------------

/// Every field is a valid custom header (see `Header::new`).
pub open spec fn fields_valid(fs: Seq<FieldView>) -> bool {
    forall|i: int| 0 <= i < fs.len() ==> crate::message::header_defect(#[trigger] fs[i].0, fs[i].1) is None
}

pub open spec fn opt_field_valid(c: Option<FieldView>) -> bool {
    c matches Some(f) ==> crate::message::header_defect(f.0, f.1) is None
}

/// No character is a control other than tab.
pub open spec fn no_line_controls(t: Seq<char>) -> bool {
    forall|k: int| 0 <= k < t.len() ==> !is_line_control(#[trigger] t[k])
}

pub proof fn lemma_lwsp_trim_start_suffix(t: Seq<char>, i: int)
    requires
        0 <= i <= t.len(),
    ensures
        exists|j: int| i <= j <= t.len() && lwsp_trim_start(t, i) == t.subrange(j, t.len() as int),
    decreases t.len() - i,
{
    if i < t.len() && is_lwsp_char(t[i]) {
        lemma_lwsp_trim_start_suffix(t, i + 1);
        let j = choose|j: int| i + 1 <= j <= t.len() && lwsp_trim_start(t, i + 1) == t.subrange(j, t.len() as int);
        assert(i <= j <= t.len() && lwsp_trim_start(t, i) == t.subrange(j, t.len() as int));
    } else {
        assert(lwsp_trim_start(t, i) == t.subrange(i, t.len() as int));
    }
}

/// Text without line controls has no CR, LF or non-tab control.
pub proof fn lemma_clean_value(v: Seq<char>)
    requires
        no_line_controls(v),
    ensures
        !crate::message::has_raw_newline(v),
        !crate::message::has_control_char(v),
{
    if crate::message::has_raw_newline(v) {
        let i = choose|i: int| 0 <= i < v.len() && ((#[trigger] v[i]) == '\r' || v[i] == '\n');
        assert(is_line_control(v[i]));
    }
    if crate::message::has_control_char(v) {
        let i = choose|i: int| 0 <= i < v.len() && (#[trigger] v[i]) != '\t' && is_ascii_control_char(v[i]);
        assert(is_line_control(v[i]));
    }
}

pub proof fn lemma_header_line_step_valid(line: Seq<u8>, done: Seq<FieldView>, cur: Option<FieldView>)
    requires
        fields_valid(done),
        opt_field_valid(cur),
        cur matches Some(f) ==> no_line_controls(f.1),
    ensures
        header_line_step(line, done, cur) matches Ok(st) ==> fields_valid(st.0) && opt_field_valid(st.1) && (
        st.1 matches Some(f) ==> no_line_controls(f.1)),
{
    if line.len() > 0 && valid_utf8(line) && is_ascii_chars(decode_utf8(line)) {
        let t = latin1_chars(line);
        if !(exists|k: int| 0 <= k < t.len() && is_line_control(#[trigger] t[k])) {
            assert(no_line_controls(t));
            if is_lwsp_char(t[0]) {
                if let Some(f) = cur {
                    let v = f.1 + t;
                    assert(no_line_controls(v)) by {
                        assert forall|k: int| 0 <= k < v.len() implies !is_line_control(#[trigger] v[k]) by {
                            if k < f.1.len() {
                                assert(v[k] == f.1[k]);
                            } else {
                                assert(v[k] == t[k - f.1.len()]);
                            }
                        }
                    }
                    lemma_clean_value(v);
                }
            } else {
                if let Some(k) = crate::text::find_in(t, ':', 0, t.len() as int) {
                    crate::text::lemma_find_in_bounds(t, ':', 0, t.len() as int);
                    if header_name_ok(t.subrange(0, k)) {
                        lemma_lwsp_trim_start_suffix(t, k + 1);
                        let j = choose|j: int|
                            k + 1 <= j <= t.len() && lwsp_trim_start(t, k + 1) == t.subrange(j, t.len() as int);
                        let v = lwsp_trim_start(t, k + 1);
                        assert(no_line_controls(v)) by {
                            assert forall|m: int| 0 <= m < v.len() implies !is_line_control(#[trigger] v[m]) by {
                                assert(v[m] == t[j + m]);
                            }
                        }
                        lemma_clean_value(v);
                        let fl = flushed(done, cur);
                        assert(fields_valid(fl)) by {
                            assert forall|i: int| 0 <= i < fl.len() implies crate::message::header_defect(
                                #[trigger] fl[i].0,
                                fl[i].1,
                            ) is None by {
                                if i < done.len() {
                                    assert(fl[i] == done[i]);
                                }
                            }
                        }
                    }
                }
            }
        }
    }
}

pub proof fn lemma_header_fields_from_valid(raw: Seq<u8>, i: int, done: Seq<FieldView>, cur: Option<FieldView>)
    requires
        fields_valid(done),
        opt_field_valid(cur),
        cur matches Some(f) ==> no_line_controls(f.1),
    ensures
        header_fields_from(raw, i, done, cur) matches Ok(fs) ==> fields_valid(fs),
    decreases raw.len() - i,
{
    if i < 0 || i > raw.len() {
        let fl = flushed(done, cur);
        assert forall|k: int| 0 <= k < fl.len() implies crate::message::header_defect(#[trigger] fl[k].0, fl[k].1)
            is None by {
            if k < done.len() {
                assert(fl[k] == done[k]);
            }
        }
    } else {
        let e = lf_at(raw, i);
        let line = raw.subrange(i, header_line_end(raw, i));
        lemma_header_line_step_valid(line, done, cur);
        if let Ok(st) = header_line_step(line, done, cur) {
            if e >= raw.len() || e < i {
                let fl = flushed(st.0, st.1);
                assert forall|k: int| 0 <= k < fl.len() implies crate::message::header_defect(
                    #[trigger] fl[k].0,
                    fl[k].1,
                ) is None by {
                    if k < st.0.len() {
                        assert(fl[k] == st.0[k]);
                    }
                }
            } else {
                lemma_header_fields_from_valid(raw, e + 1, st.0, st.1);
            }
        }
    }
}

} // verus!

verus! {

// ---------------------------------------------------------------------------
// Folding laws
// ---------------------------------------------------------------------------

/// Lines joined back with one space between them.
pub open spec fn joined_lines(ls: Seq<Seq<char>>) -> Seq<char>
    decreases ls.len(),
{
    if ls.len() == 0 {
        seq![]
    } else if ls.len() == 1 {
        ls[0]
    } else {
        ls[0] + seq![' '] + joined_lines(ls.drop_first())
    }
}

/// The longest a folded line may be: its preferred or its hard width.
pub open spec fn line_cap(w: FoldWidths, first: bool) -> int {
    if first {
        if w.first_preferred <= w.first_hard { w.first_hard } else { w.first_preferred }
    } else {
        if w.rest_preferred <= w.rest_hard { w.rest_hard } else { w.rest_preferred }
    }
}

proof fn lemma_fold_from_shape(v: Seq<char>, i: int, first: bool, w: FoldWidths)
    requires
        0 <= i < v.len(),
    ensures
        fold_from(v, i, first, w) matches Some(ls) ==> {
            &&& ls.len() >= 1
            &&& ls[0].len() <= line_cap(w, first)
            &&& forall|j: int| 1 <= j < ls.len() ==> #[trigger] ls[j].len() <= line_cap(w, false)
            &&& (forall|m: int| i <= m < v.len() ==> v[m] != '\t') ==> joined_lines(ls) == v.subrange(
                i,
                v.len() as int,
            )
        },
    decreases v.len() - i,
{
    let p = if first { w.first_preferred } else { w.rest_preferred };
    let h = if first { w.first_hard } else { w.rest_hard };
    let rem = v.len() - i;
    lemma_last_lwsp(v, i, i + p);
    lemma_last_lwsp(v, i, i + h);
    if h > 0 && rem > p && !(last_lwsp(v, i, i + p) is None && rem <= h) {
        let brk = match last_lwsp(v, i, i + p) {
            Some(k) => Some(k),
            None => last_lwsp(v, i, i + h),
        };
        if let Some(k) = brk {
            if i <= k < v.len() {
                assert(k + 1 < v.len());
                lemma_fold_from_shape(v, k + 1, false, w);
                if let Some(rest) = fold_from(v, k + 1, false, w) {
                    let ls = seq![v.subrange(i, k)] + rest;
                    assert(ls.drop_first() =~= rest);
                    assert forall|j: int| 1 <= j < ls.len() implies #[trigger] ls[j].len() <= line_cap(w, false) by {
                        assert(ls[j] == rest[j - 1]);
                    }
                    if forall|m: int| i <= m < v.len() ==> v[m] != '\t' {
                        assert(v[k] == ' ');
                        assert(v.subrange(i, v.len() as int) =~= v.subrange(i, k) + seq![' '] + v.subrange(
                            k + 1,
                            v.len() as int,
                        ));
                    }
                }
            }
        }
    }
}

/// Folding a header value: every line of a folded field fits the RFC 5322
/// hard limit of 998 characters (the first line together with `name: `,
/// each continuation line together with its leading space), and, for a
/// value without tabs, the lines joined with single spaces give the value
/// back.
pub proof fn law_folded_field_lines(name_len: int, soft: Option<usize>, v: Seq<char>)
    requires
        0 <= name_len,
        v.len() > 0,
        folded(v, fold_widths(name_len, soft)) is Some,
    ensures
        ({
            let ls = folded(v, fold_widths(name_len, soft))->0;
            &&& ls.len() >= 1
            &&& name_len + 2 + ls[0].len() <= 998
            &&& forall|j: int| 1 <= j < ls.len() ==> 1 + #[trigger] ls[j].len() <= 998
            &&& (forall|m: int| 0 <= m < v.len() ==> v[m] != '\t') ==> joined_lines(ls) == v
        }),
{
    let w = fold_widths(name_len, soft);
    lemma_fold_from_shape(v, 0, true, w);
    assert(v.subrange(0, v.len() as int) =~= v);
    let ls = folded(v, w)->0;
    assert(w.first_hard > 0) by {
        if w.first_hard <= 0 {
            reveal_with_fuel(fold_from, 1);
        }
    }
}

// ---------------------------------------------------------------------------
// A rendered field parses back
// ---------------------------------------------------------------------------

/// A character a header line may carry: ASCII and not a control other than
/// tab.
pub open spec fn ok_line_char(c: char) -> bool {
    '\0' <= c <= '\u{7f}' && !is_line_control(c)
}

pub open spec fn ok_line(t: Seq<char>) -> bool {
    forall|m: int| 0 <= m < t.len() ==> ok_line_char(#[trigger] t[m])
}

pub proof fn lemma_fold_from_line_chars(v: Seq<char>, i: int, first: bool, w: FoldWidths)
    requires
        ok_line(v),
    ensures
        fold_from(v, i, first, w) matches Some(ls) ==> forall|j: int| 0 <= j < ls.len() ==> ok_line(#[trigger] ls[j]),
    decreases v.len() - i,
{
    if 0 <= i < v.len() {
        let p = if first { w.first_preferred } else { w.rest_preferred };
        let h = if first { w.first_hard } else { w.rest_hard };
        lemma_last_lwsp(v, i, i + p);
        lemma_last_lwsp(v, i, i + h);
        let brk = match last_lwsp(v, i, i + p) {
            Some(k) => Some(k),
            None => if v.len() - i <= h { None } else { last_lwsp(v, i, i + h) },
        };
        if let Some(k) = brk {
            if i <= k < v.len() {
                lemma_fold_from_line_chars(v, k + 1, false, w);
            }
        }
        if let Some(ls) = fold_from(v, i, first, w) {
            assert forall|j: int| 0 <= j < ls.len() implies ok_line(#[trigger] ls[j]) by {
                if j == 0 {
                    assert forall|m: int| 0 <= m < ls[0].len() implies ok_line_char(#[trigger] ls[0][m]) by {
                        assert(ls[0][m] == v[i + m]);
                    }
                } else {
                    let rest = fold_from(v, brk->0 + 1, false, w)->0;
                    assert(ls[j] == rest[j - 1]);
                }
            }
        }
    }
}

/// The continuation lines from the `k`-th on, each as a space and its text.
pub open spec fn joined_from(ls: Seq<Seq<char>>, k: int) -> Seq<char>
    decreases ls.len() - k,
{
    if k < 1 || k >= ls.len() {
        seq![]
    } else {
        seq![' '] + ls[k] + joined_from(ls, k + 1)
    }
}

proof fn lemma_joined_from(ls: Seq<Seq<char>>, k: int)
    requires
        1 <= k <= ls.len(),
    ensures
        joined_lines(ls.subrange(k - 1, ls.len() as int)) == ls[k - 1] + joined_from(ls, k),
    decreases ls.len() - k,
{
    let t = ls.subrange(k - 1, ls.len() as int);
    if k == ls.len() {
        assert(ls[k - 1] + joined_from(ls, k) =~= ls[k - 1]);
    } else {
        lemma_joined_from(ls, k + 1);
        assert(t.drop_first() =~= ls.subrange(k, ls.len() as int));
        assert(ls[k - 1] + seq![' '] + (ls[k] + joined_from(ls, k + 1)) =~= ls[k - 1] + (seq![' '] + ls[k]
            + joined_from(ls, k + 1)));
    }
}

proof fn lemma_ascii_line(t: Seq<char>)
    requires
        ok_line(t),
    ensures
        valid_utf8(ascii_bytes(t)),
        decode_utf8(ascii_bytes(t)) == t,
        latin1_chars(ascii_bytes(t)) == t,
        is_ascii_chars(t),
{
    let b = ascii_bytes(t);
    assert forall|j: int| 0 <= j < b.len() implies #[trigger] b[j] < 0x80 by {
        assert(ok_line_char(t[j]));
    }
    lemma_ascii_bytes_decode(b);
    assert(latin1_chars(b) =~= t) by {
        assert forall|j: int| 0 <= j < t.len() implies latin1_chars(b)[j] == t[j] by {
            assert(ok_line_char(t[j]));
        }
    }
}

/// One line `t` of a header block followed by CRLF, at `pos` of `raw`.
proof fn lemma_fields_line(raw: Seq<u8>, pos: int, t: Seq<char>, done: Seq<FieldView>, cur: Option<FieldView>)
    requires
        0 <= pos,
        pos + t.len() + 2 <= raw.len(),
        raw.subrange(pos, pos + t.len() + 2) == ascii_bytes(t) + crlf_bytes(),
        ok_line(t),
        t.len() > 0,
    ensures
        header_fields_from(raw, pos, done, cur) == match header_line_step(ascii_bytes(t), done, cur) {
            Err(d) => Err::<Seq<FieldView>, LineDefect>(d),
            Ok(st) => header_fields_from(raw, pos + t.len() + 2, st.0, st.1),
        },
{
    let n = t.len() as int;
    let e = pos + n + 1;
    assert forall|j: int| pos <= j < e implies #[trigger] raw[j] != 10 by {
        assert(raw[j] == raw.subrange(pos, pos + n + 2)[j - pos]);
        if j < pos + n {
            assert(ok_line_char(t[j - pos]));
            assert(ascii_bytes(t)[j - pos] == (t[j - pos] as u32) as u8);
        }
    }
    assert(raw[e] == raw.subrange(pos, pos + n + 2)[n + 1]);
    assert(raw[e - 1] == raw.subrange(pos, pos + n + 2)[n]);
    lemma_lf_at_exact(raw, pos, e);
    assert(header_line_end(raw, pos) == pos + n);
    assert(raw.subrange(pos, pos + n) =~= ascii_bytes(t)) by {
        assert forall|j: int| 0 <= j < n implies raw.subrange(pos, pos + n)[j] == ascii_bytes(t)[j] by {
            assert(raw[pos + j] == raw.subrange(pos, pos + n + 2)[j]);
        }
    }
}

pub open spec fn crlf_bytes() -> Seq<u8> {
    seq![13u8, 10u8]
}

pub proof fn lemma_lf_at_exact(s: Seq<u8>, i: int, k: int)
    requires
        0 <= i <= k < s.len(),
        forall|j: int| i <= j < k ==> #[trigger] s[j] != 10,
        s[k] == 10,
    ensures
        lf_at(s, i) == k,
    decreases k - i,
{
    if i < k {
        lemma_lf_at_exact(s, i + 1, k);
    }
}

pub proof fn lemma_fields_end(raw: Seq<u8>, done: Seq<FieldView>, cur: Option<FieldView>)
    ensures
        header_fields_from(raw, raw.len() as int, done, cur) == Ok::<Seq<FieldView>, LineDefect>(flushed(done, cur)),
{
    assert(raw.subrange(raw.len() as int, raw.len() as int) =~= Seq::<u8>::empty());
}

proof fn lemma_fields_continuations(raw: Seq<u8>, pos: int, ls: Seq<Seq<char>>, k: int, name: Seq<char>, acc: Seq<char>)
    requires
        1 <= k <= ls.len(),
        0 <= pos,
        raw.len() == pos + continuation_bytes(ls, k).len(),
        raw.subrange(pos, raw.len() as int) == continuation_bytes(ls, k),
        forall|j: int| 0 <= j < ls.len() ==> ok_line(#[trigger] ls[j]),
    ensures
        header_fields_from(raw, pos, seq![], Some((name, acc))) == Ok::<Seq<FieldView>, LineDefect>(
            seq![(name, acc + joined_from(ls, k))],
        ),
    decreases ls.len() - k,
{
    if k == ls.len() {
        assert(raw.len() == pos);
        lemma_fields_end(raw, seq![], Some((name, acc)));
        assert(acc + joined_from(ls, k) =~= acc);
    } else {
        let t = seq![' '] + ls[k];
        let rest = continuation_bytes(ls, k + 1);
        assert(continuation_bytes(ls, k) == seq![0x20u8] + ascii_bytes(ls[k]) + seq![13u8, 10u8] + rest);
        assert(ascii_bytes(t) =~= seq![0x20u8] + ascii_bytes(ls[k]));
        assert(ok_line(t)) by {
            assert forall|m: int| 0 <= m < t.len() implies ok_line_char(#[trigger] t[m]) by {
                if m > 0 {
                    assert(t[m] == ls[k][m - 1]);
                }
            }
        }
        let n = t.len() as int;
        assert(raw.subrange(pos, pos + n + 2) =~= ascii_bytes(t) + crlf_bytes()) by {
            assert forall|j: int| 0 <= j < n + 2 implies raw.subrange(pos, pos + n + 2)[j] == (ascii_bytes(t) + crlf_bytes())[j] by {
                assert(raw[pos + j] == raw.subrange(pos, raw.len() as int)[j]);
            }
        }
        lemma_fields_line(raw, pos, t, seq![], Some((name, acc)));
        lemma_ascii_line(t);
        assert(header_line_step(ascii_bytes(t), seq![], Some((name, acc))) == Ok::<(Seq<FieldView>, Option<FieldView>), LineDefect>(
            (seq![], Some((name, acc + t))),
        )) by {
            assert(!(exists|m: int| 0 <= m < t.len() && is_line_control(#[trigger] t[m]))) by {
                assert forall|m: int| 0 <= m < t.len() implies !is_line_control(#[trigger] t[m]) by {
                    assert(ok_line_char(t[m]));
                }
            }
        }
        assert(raw.subrange(pos + n + 2, raw.len() as int) =~= rest) by {
            assert forall|j: int| 0 <= j < rest.len() implies raw.subrange(pos + n + 2, raw.len() as int)[j] == rest[j] by {
                assert(raw[pos + n + 2 + j] == raw.subrange(pos, raw.len() as int)[n + 2 + j]);
            }
        }
        lemma_fields_continuations(raw, pos + n + 2, ls, k + 1, name, acc + t);
        assert((acc + t) + joined_from(ls, k + 1) =~= acc + joined_from(ls, k));
    }
}

/// A rendered header field parses back: for a value without tabs that does
/// not start with a space, the header block made of the rendered field reads
/// as exactly that field, with the value unfolded.
pub proof fn law_rendered_field_parses_back(name: Seq<char>, value: Seq<char>, soft: Option<usize>)
    requires
        rendered_field(name, value, soft) is Ok,
        forall|m: int| 0 <= m < value.len() ==> value[m] != '\t',
        value.len() > 0 ==> value[0] != ' ',
    ensures
        header_fields(rendered_field(name, value, soft)->Ok_0) == Ok::<Seq<FieldView>, LineDefect>(seq![(name, value)]),
{
    let w = fold_widths(name.len() as int, soft);
    let ls = folded(value, w)->0;
    let raw = field_bytes(name, ls);
    assert(ok_line(value)) by {
        assert forall|m: int| 0 <= m < value.len() implies ok_line_char(#[trigger] value[m]) by {
            if is_line_control(value[m]) {
                assert(is_forbidden_control(value[m]) || value[m] == '\r' || value[m] == '\n');
            }
        }
    }
    if value.len() > 0 {
        law_folded_field_lines(name.len() as int, soft, value);
        lemma_fold_from_line_chars(value, 0, true, w);
    } else {
        assert(ls =~= seq![Seq::<char>::empty()]);
    }
    assert(ls.len() >= 1);
    let t0 = name + seq![':', ' '] + ls[0];
    assert(ok_line(t0)) by {
        assert forall|m: int| 0 <= m < t0.len() implies ok_line_char(#[trigger] t0[m]) by {
            if m < name.len() {
                assert(is_header_name_char(name[m]));
            } else if m >= name.len() + 2 {
                assert(t0[m] == ls[0][m - name.len() - 2]);
            }
        }
    }
    assert(ascii_bytes(t0) =~= ascii_bytes(name) + seq![0x3au8, 0x20u8] + ascii_bytes(ls[0]));
    let n0 = t0.len() as int;
    assert(raw =~= ascii_bytes(t0) + crlf_bytes() + continuation_bytes(ls, 1));
    assert(raw.subrange(0, n0 + 2) =~= ascii_bytes(t0) + crlf_bytes());
    lemma_fields_line(raw, 0, t0, seq![], None);
    lemma_ascii_line(t0);
    // The first line opens the field.
    assert(crate::text::find_in(t0, ':', 0, n0) == Some(name.len() as int)) by {
        assert forall|m: int| 0 <= m < name.len() implies #[trigger] t0[m] != ':' by {
            assert(is_header_name_char(name[m]));
        }
        crate::text::lemma_find_in_bounds(t0, ':', 0, n0);
        let f = crate::text::find_in(t0, ':', 0, n0);
        if f != Some(name.len() as int) {
            if f is None {
                assert(t0[name.len() as int] == ':');
            } else {
                assert(f->0 < name.len() as int || f->0 > name.len() as int);
            }
        }
    }
    assert(t0.subrange(0, name.len() as int) =~= name);
    assert(lwsp_trim_start(t0, name.len() as int + 1) == ls[0]) by {
        let nn = name.len() as int;
        assert(t0[nn + 1] == ' ');
        assert(lwsp_trim_start(t0, nn + 1) == lwsp_trim_start(t0, nn + 2));
        if ls[0].len() > 0 {
            assert(ls[0][0] == value[0]) by {
                lemma_fold_first_char(value, w);
            }
            assert(value[0] != '\t');
            assert(t0[nn + 2] == ls[0][0]);
            assert(!is_lwsp_char(t0[nn + 2]));
        }
        assert(lwsp_trim_start(t0, nn + 2) == t0.subrange(nn + 2, n0));
        assert(t0.subrange(nn + 2, n0) =~= ls[0]);
    }
    assert(!is_lwsp_char(t0[0])) by {
        assert(is_header_name_char(name[0]));
    }
    assert(!(exists|m: int| 0 <= m < t0.len() && is_line_control(#[trigger] t0[m]))) by {
        assert forall|m: int| 0 <= m < t0.len() implies !is_line_control(#[trigger] t0[m]) by {
            assert(ok_line_char(t0[m]));
        }
    }
    assert(flushed(seq![], None) =~= Seq::<FieldView>::empty());
    assert(raw.subrange(n0 + 2, raw.len() as int) =~= continuation_bytes(ls, 1));
    lemma_fields_continuations(raw, n0 + 2, ls, 1, name, ls[0]);
    lemma_joined_from(ls, 1);
    assert(ls.subrange(0, ls.len() as int) =~= ls);
    assert(joined_lines(ls) == value);
    assert(rendered_field(name, value, soft)->Ok_0 == raw);
    let step = header_line_step(ascii_bytes(t0), seq![], None);
    assert(step == Ok::<(Seq<FieldView>, Option<FieldView>), LineDefect>((seq![], Some((name, ls[0])))));
    assert(header_fields_from(raw, 0, seq![], None) == header_fields_from(raw, n0 + 2, seq![], Some((name, ls[0]))));
}

proof fn lemma_fold_first_char(v: Seq<char>, w: FoldWidths)
    requires
        v.len() > 0,
        folded(v, w) is Some,
        forall|m: int| 0 <= m < v.len() ==> v[m] != '\t',
    ensures
        folded(v, w)->0[0].len() > 0 ==> folded(v, w)->0[0][0] == v[0],
{
    lemma_fold_from_shape(v, 0, true, w);
    let ls = folded(v, w)->0;
    assert(v.subrange(0, v.len() as int) =~= v);
    if ls[0].len() > 0 && ls.len() > 1 {
        assert(joined_lines(ls)[0] == ls[0][0]);
    }
}

/// Continuation lines at `pos`, with more header bytes possibly after them.
proof fn lemma_fields_continuations_within(
    raw: Seq<u8>,
    pos: int,
    ls: Seq<Seq<char>>,
    k: int,
    done: Seq<FieldView>,
    name: Seq<char>,
    acc: Seq<char>,
)
    requires
        1 <= k <= ls.len(),
        0 <= pos,
        pos + continuation_bytes(ls, k).len() <= raw.len(),
        raw.subrange(pos, pos + continuation_bytes(ls, k).len()) == continuation_bytes(ls, k),
        forall|j: int| 0 <= j < ls.len() ==> ok_line(#[trigger] ls[j]),
    ensures
        header_fields_from(raw, pos, done, Some((name, acc))) == header_fields_from(
            raw,
            pos + continuation_bytes(ls, k).len(),
            done,
            Some((name, acc + joined_from(ls, k))),
        ),
    decreases ls.len() - k,
{
    if k == ls.len() {
        assert(acc + joined_from(ls, k) =~= acc);
    } else {
        let t = seq![' '] + ls[k];
        let rest = continuation_bytes(ls, k + 1);
        assert(continuation_bytes(ls, k) == seq![0x20u8] + ascii_bytes(ls[k]) + seq![13u8, 10u8] + rest);
        assert(ascii_bytes(t) =~= seq![0x20u8] + ascii_bytes(ls[k]));
        assert(ok_line(t)) by {
            assert forall|m: int| 0 <= m < t.len() implies ok_line_char(#[trigger] t[m]) by {
                if m > 0 {
                    assert(t[m] == ls[k][m - 1]);
                }
            }
        }
        let n = t.len() as int;
        let cl = continuation_bytes(ls, k).len() as int;
        assert(raw.subrange(pos, pos + n + 2) =~= ascii_bytes(t) + crlf_bytes()) by {
            assert forall|j: int| 0 <= j < n + 2 implies raw.subrange(pos, pos + n + 2)[j] == (ascii_bytes(t)
                + crlf_bytes())[j] by {
                assert(raw[pos + j] == raw.subrange(pos, pos + cl)[j]);
            }
        }
        lemma_fields_line(raw, pos, t, done, Some((name, acc)));
        lemma_ascii_line(t);
        assert(header_line_step(ascii_bytes(t), done, Some((name, acc))) == Ok::<
            (Seq<FieldView>, Option<FieldView>),
            LineDefect,
        >((done, Some((name, acc + t))))) by {
            assert(!(exists|m: int| 0 <= m < t.len() && is_line_control(#[trigger] t[m]))) by {
                assert forall|m: int| 0 <= m < t.len() implies !is_line_control(#[trigger] t[m]) by {
                    assert(ok_line_char(t[m]));
                }
            }
        }
        assert(raw.subrange(pos + n + 2, pos + n + 2 + rest.len()) =~= rest) by {
            assert forall|j: int| 0 <= j < rest.len() implies raw.subrange(pos + n + 2, pos + n + 2 + rest.len())[j]
                == rest[j] by {
                assert(raw[pos + n + 2 + j] == raw.subrange(pos, pos + cl)[n + 2 + j]);
            }
        }
        lemma_fields_continuations_within(raw, pos + n + 2, ls, k + 1, done, name, acc + t);
        assert((acc + t) + joined_from(ls, k + 1) =~= acc + joined_from(ls, k));
    }
}

/// A rendered field at `pos` of a header block, for a value without tabs
/// that does not start with a space: reading it finishes the field in
/// progress and leaves exactly that field, unfolded, in progress.
pub proof fn lemma_rendered_field_within(
    raw: Seq<u8>,
    pos: int,
    name: Seq<char>,
    value: Seq<char>,
    soft: Option<usize>,
    done: Seq<FieldView>,
    cur: Option<FieldView>,
)
    requires
        rendered_field(name, value, soft) is Ok,
        forall|m: int| 0 <= m < value.len() ==> value[m] != '\t',
        value.len() > 0 ==> value[0] != ' ',
        0 <= pos,
        pos + rendered_field(name, value, soft)->Ok_0.len() <= raw.len(),
        raw.subrange(pos, pos + rendered_field(name, value, soft)->Ok_0.len()) == rendered_field(name, value, soft)->Ok_0,
    ensures
        header_fields_from(raw, pos, done, cur) == header_fields_from(
            raw,
            pos + rendered_field(name, value, soft)->Ok_0.len(),
            flushed(done, cur),
            Some((name, value)),
        ),
{
    let w = fold_widths(name.len() as int, soft);
    let ls = folded(value, w)->0;
    let fb = field_bytes(name, ls);
    let fl = fb.len() as int;
    assert(rendered_field(name, value, soft)->Ok_0 == fb);
    assert(ok_line(value)) by {
        assert forall|m: int| 0 <= m < value.len() implies ok_line_char(#[trigger] value[m]) by {
            if is_line_control(value[m]) {
                assert(is_forbidden_control(value[m]) || value[m] == '\r' || value[m] == '\n');
            }
        }
    }
    if value.len() > 0 {
        law_folded_field_lines(name.len() as int, soft, value);
        lemma_fold_from_line_chars(value, 0, true, w);
    } else {
        assert(ls =~= seq![Seq::<char>::empty()]);
    }
    assert(ls.len() >= 1);
    let t0 = name + seq![':', ' '] + ls[0];
    assert(ok_line(t0)) by {
        assert forall|m: int| 0 <= m < t0.len() implies ok_line_char(#[trigger] t0[m]) by {
            if m < name.len() {
                assert(is_header_name_char(name[m]));
            } else if m >= name.len() + 2 {
                assert(t0[m] == ls[0][m - name.len() - 2]);
            }
        }
    }
    assert(ascii_bytes(t0) =~= ascii_bytes(name) + seq![0x3au8, 0x20u8] + ascii_bytes(ls[0]));
    let n0 = t0.len() as int;
    assert(fb =~= ascii_bytes(t0) + crlf_bytes() + continuation_bytes(ls, 1));
    assert(raw.subrange(pos, pos + n0 + 2) =~= ascii_bytes(t0) + crlf_bytes()) by {
        assert forall|j: int| 0 <= j < n0 + 2 implies raw.subrange(pos, pos + n0 + 2)[j] == (ascii_bytes(t0)
            + crlf_bytes())[j] by {
            assert(raw[pos + j] == raw.subrange(pos, pos + fl)[j]);
        }
    }
    lemma_fields_line(raw, pos, t0, done, cur);
    lemma_ascii_line(t0);
    assert(crate::text::find_in(t0, ':', 0, n0) == Some(name.len() as int)) by {
        assert forall|m: int| 0 <= m < name.len() implies #[trigger] t0[m] != ':' by {
            assert(is_header_name_char(name[m]));
        }
        crate::text::lemma_find_in_bounds(t0, ':', 0, n0);
        let f = crate::text::find_in(t0, ':', 0, n0);
        if f != Some(name.len() as int) {
            if f is None {
                assert(t0[name.len() as int] == ':');
            } else {
                assert(f->0 < name.len() as int || f->0 > name.len() as int);
            }
        }
    }
    assert(t0.subrange(0, name.len() as int) =~= name);
    assert(lwsp_trim_start(t0, name.len() as int + 1) == ls[0]) by {
        let nn = name.len() as int;
        assert(t0[nn + 1] == ' ');
        assert(lwsp_trim_start(t0, nn + 1) == lwsp_trim_start(t0, nn + 2));
        if ls[0].len() > 0 {
            assert(ls[0][0] == value[0]) by {
                lemma_fold_first_char(value, w);
            }
            assert(value[0] != '\t');
            assert(t0[nn + 2] == ls[0][0]);
            assert(!is_lwsp_char(t0[nn + 2]));
        }
        assert(lwsp_trim_start(t0, nn + 2) == t0.subrange(nn + 2, n0));
        assert(t0.subrange(nn + 2, n0) =~= ls[0]);
    }
    assert(!is_lwsp_char(t0[0])) by {
        assert(is_header_name_char(name[0]));
    }
    assert(!(exists|m: int| 0 <= m < t0.len() && is_line_control(#[trigger] t0[m]))) by {
        assert forall|m: int| 0 <= m < t0.len() implies !is_line_control(#[trigger] t0[m]) by {
            assert(ok_line_char(t0[m]));
        }
    }
    let step = header_line_step(ascii_bytes(t0), done, cur);
    assert(step == Ok::<(Seq<FieldView>, Option<FieldView>), LineDefect>((flushed(done, cur), Some((name, ls[0])))));
    let cb = continuation_bytes(ls, 1);
    assert(raw.subrange(pos + n0 + 2, pos + n0 + 2 + cb.len()) =~= cb) by {
        assert forall|j: int| 0 <= j < cb.len() implies raw.subrange(pos + n0 + 2, pos + n0 + 2 + cb.len())[j]
            == cb[j] by {
            assert(raw[pos + n0 + 2 + j] == raw.subrange(pos, pos + fl)[n0 + 2 + j]);
        }
    }
    lemma_fields_continuations_within(raw, pos + n0 + 2, ls, 1, flushed(done, cur), name, ls[0]);
    lemma_joined_from(ls, 1);
    assert(ls.subrange(0, ls.len() as int) =~= ls);
    assert(joined_lines(ls) == value);
}

/// Bytes made of CRLF-terminated lines with no empty line: a CR only right
/// before an LF, an LF only right after a CR, and no CR or LF right after an
/// LF.
pub open spec fn crlf_lines(s: Seq<u8>) -> bool {
    forall|i: int|
        0 <= i < s.len() ==> (#[trigger] s[i] == 13 ==> i + 1 < s.len() && s[i + 1] == 10) && (s[i] == 10 ==> i
            >= 1 && s[i - 1] == 13 && (i + 1 < s.len() ==> s[i + 1] != 13 && s[i + 1] != 10))
}

/// Non-empty, not starting with CR or LF, and ending with CRLF.
pub open spec fn line_block(s: Seq<u8>) -> bool {
    &&& crlf_lines(s)
    &&& s.len() >= 2
    &&& s[0] != 13 && s[0] != 10
    &&& s[s.len() - 2] == 13 && s[s.len() - 1] == 10
}

pub proof fn lemma_crlf_lines_concat(a: Seq<u8>, c: Seq<u8>)
    requires
        crlf_lines(a),
        crlf_lines(c),
        a.len() > 0 ==> a[a.len() - 1] == 10,
        c.len() > 0 ==> c[0] != 13 && c[0] != 10,
    ensures
        crlf_lines(a + c),
{
    let s = a + c;
    assert forall|i: int| 0 <= i < s.len() implies (#[trigger] s[i] == 13 ==> i + 1 < s.len() && s[i + 1] == 10) && (
    s[i] == 10 ==> i >= 1 && s[i - 1] == 13 && (i + 1 < s.len() ==> s[i + 1] != 13 && s[i + 1] != 10)) by {
        if i < a.len() {
            assert(s[i] == a[i]);
            if i + 1 < a.len() {
                assert(s[i + 1] == a[i + 1]);
            } else if i + 1 < s.len() {
                assert(s[i + 1] == c[0]);
            }
            if i >= 1 {
                assert(s[i - 1] == a[i - 1]);
            }
        } else {
            let j = i - a.len();
            assert(s[i] == c[j]);
            if j + 1 < c.len() {
                assert(s[i + 1] == c[j + 1]);
            }
            if j >= 1 {
                assert(s[i - 1] == c[j - 1]);
            }
        }
    }
}

pub proof fn lemma_line_block_concat(a: Seq<u8>, c: Seq<u8>)
    requires
        line_block(a),
        line_block(c),
    ensures
        line_block(a + c),
{
    lemma_crlf_lines_concat(a, c);
    assert((a + c)[0] == a[0]);
    assert((a + c)[(a + c).len() - 1] == c[c.len() - 1]);
    assert((a + c)[(a + c).len() - 2] == c[c.len() - 2]);
}

pub proof fn lemma_text_line_block(t: Seq<char>)
    requires
        ok_line(t),
        t.len() > 0,
    ensures
        line_block(ascii_bytes(t) + crlf_bytes()),
{
    let s = ascii_bytes(t) + crlf_bytes();
    let n = t.len() as int;
    assert forall|j: int| 0 <= j < n implies #[trigger] s[j] != 13 && s[j] != 10 by {
        assert(ok_line_char(t[j]));
        assert(s[j] == (t[j] as u32) as u8);
    }
    assert(s[n] == 13 && s[n + 1] == 10);
}

proof fn lemma_continuations_block(ls: Seq<Seq<char>>, k: int)
    requires
        1 <= k <= ls.len(),
        forall|j: int| 0 <= j < ls.len() ==> ok_line(#[trigger] ls[j]),
    ensures
        continuation_bytes(ls, k).len() == 0 || line_block(continuation_bytes(ls, k)),
    decreases ls.len() - k,
{
    if k < ls.len() {
        let t = seq![' '] + ls[k];
        assert(ok_line(t)) by {
            assert forall|m: int| 0 <= m < t.len() implies ok_line_char(#[trigger] t[m]) by {
                if m > 0 {
                    assert(t[m] == ls[k][m - 1]);
                }
            }
        }
        assert(ascii_bytes(t) =~= seq![0x20u8] + ascii_bytes(ls[k]));
        lemma_text_line_block(t);
        lemma_continuations_block(ls, k + 1);
        let rest = continuation_bytes(ls, k + 1);
        assert(continuation_bytes(ls, k) =~= (ascii_bytes(t) + crlf_bytes()) + rest);
        if rest.len() > 0 {
            lemma_line_block_concat(ascii_bytes(t) + crlf_bytes(), rest);
        } else {
            assert((ascii_bytes(t) + crlf_bytes()) + rest =~= ascii_bytes(t) + crlf_bytes());
        }
    }
}

/// A rendered field is a block of CRLF-terminated lines without an empty
/// line.
pub proof fn lemma_rendered_field_block(name: Seq<char>, value: Seq<char>, soft: Option<usize>)
    requires
        rendered_field(name, value, soft) is Ok,
    ensures
        line_block(rendered_field(name, value, soft)->Ok_0),
{
    let w = fold_widths(name.len() as int, soft);
    let ls = folded(value, w)->0;
    let fb = field_bytes(name, ls);
    assert(ok_line(value)) by {
        assert forall|m: int| 0 <= m < value.len() implies ok_line_char(#[trigger] value[m]) by {
            if is_line_control(value[m]) {
                assert(is_forbidden_control(value[m]) || value[m] == '\r' || value[m] == '\n');
            }
        }
    }
    if value.len() > 0 {
        law_folded_field_lines(name.len() as int, soft, value);
        lemma_fold_from_line_chars(value, 0, true, w);
    } else {
        assert(ls =~= seq![Seq::<char>::empty()]);
    }
    let t0 = name + seq![':', ' '] + ls[0];
    assert(ok_line(t0)) by {
        assert forall|m: int| 0 <= m < t0.len() implies ok_line_char(#[trigger] t0[m]) by {
            if m < name.len() {
                assert(is_header_name_char(name[m]));
            } else if m >= name.len() + 2 {
                assert(t0[m] == ls[0][m - name.len() - 2]);
            }
        }
    }
    assert(ascii_bytes(t0) =~= ascii_bytes(name) + seq![0x3au8, 0x20u8] + ascii_bytes(ls[0]));
    assert(fb =~= (ascii_bytes(t0) + crlf_bytes()) + continuation_bytes(ls, 1));
    lemma_text_line_block(t0);
    lemma_continuations_block(ls, 1);
    if continuation_bytes(ls, 1).len() > 0 {
        lemma_line_block_concat(ascii_bytes(t0) + crlf_bytes(), continuation_bytes(ls, 1));
    } else {
        assert((ascii_bytes(t0) + crlf_bytes()) + continuation_bytes(ls, 1) =~= ascii_bytes(t0) + crlf_bytes());
    }
}

/// A block of lines read without its final CRLF gives the same fields.
pub proof fn lemma_fields_without_final_crlf(h: Seq<u8>, i: int, done: Seq<FieldView>, cur: Option<FieldView>)
    requires
        line_block(h),
        0 <= i <= h.len() - 2,
    ensures
        header_fields_from(h.subrange(0, h.len() - 2), i, done, cur) == header_fields_from(h, i, done, cur),
    decreases h.len() - i,
{
    let x = h.subrange(0, h.len() - 2);
    let n = h.len() as int;
    lemma_lf_at(h, i);
    let e = lf_at(h, i);
    assert(e < n) by {
        assert(h[n - 1] == 10);
        if e == n {
            assert(h[n - 1] != 10);
        }
    }
    assert(h[n - 2] == 13);
    assert(e != n - 2);
    if e <= n - 3 {
        assert forall|j: int| i <= j < e implies #[trigger] x[j] != 10 by {
            assert(x[j] == h[j]);
        }
        assert(x[e] == h[e]);
        lemma_lf_at_exact(x, i, e);
        if e > i {
            assert(x[e - 1] == h[e - 1]);
        }
        assert(header_line_end(x, i) == header_line_end(h, i));
        assert(x.subrange(i, header_line_end(x, i)) =~= h.subrange(i, header_line_end(h, i)));
        lemma_fields_without_final_crlf(h, e + 1, done, cur);
        let step = header_line_step(h.subrange(i, header_line_end(h, i)), done, cur);
        if step is Ok {
            lemma_fields_without_final_crlf(h, e + 1, step->Ok_0.0, step->Ok_0.1);
        }
    } else {
        assert(e == n - 1);
        assert forall|j: int| i <= j < x.len() implies #[trigger] x[j] != 10 by {
            assert(x[j] == h[j]);
        }
        lemma_lf_at(x, i);
        assert(lf_at(x, i) == x.len());
        assert(header_line_end(h, i) == n - 2);
        if x.len() > i {
            assert(x[x.len() - 1] == h[n - 3]);
            assert(h[n - 3] != 13);
        }
        assert(header_line_end(x, i) == n - 2);
        assert(x.subrange(i, n - 2) =~= h.subrange(i, n - 2));
        let step = header_line_step(h.subrange(i, n - 2), done, cur);
        if step is Ok {
            lemma_fields_end(h, step->Ok_0.0, step->Ok_0.1);
        }
    }
}

} // verus!
