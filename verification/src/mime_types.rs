//! MIME content-type, content-disposition and content-transfer-encoding
//! values, and the MIME part tree.
use vstd::prelude::*;
use crate::text::{
    ascii_lower, eq_ignore_case, lemma_trimmed_bounds, str_eq_ignore_case, sub_chars, trim, window_eq_ignore_case, find_char, find_in, is_ascii_control_char, lemma_find_in_bounds, lower_string, push_char,
    push_str, str_chars, string_from_chars, trim_window, trimmed, window,
};

verus! {

// ---------------------------------------------------------------------------
// Lexical classes
// ---------------------------------------------------------------------------

/// RFC 2045 `token` characters.
pub open spec fn is_token_char(c: char) -> bool {
    c == '!' || c == '#' || c == '$' || c == '%' || c == '&' || c == '\'' || c == '*' || c == '+'
        || c == '-' || c == '.' || c == '^' || c == '_' || c == '`' || c == '|' || c == '~'
        || ('0' <= c && c <= '9') || ('A' <= c && c <= 'Z') || ('a' <= c && c <= 'z')
}

/// Every character of the window is a token character.
pub open spec fn token_window(s: Seq<char>, lo: int, hi: int) -> bool {
    forall|i: int| lo <= i < hi ==> is_token_char(#[trigger] s[i])
}

/// Characters rejected inside a quoted parameter: non-tab ASCII controls.
pub open spec fn is_forbidden_quoted_char(c: char) -> bool {
    c != '\t' && is_ascii_control_char(c)
}

pub fn token_char(c: char) -> (r: bool)
    ensures
        r == is_token_char(c),
{
    c == '!' || c == '#' || c == '$' || c == '%' || c == '&' || c == '\'' || c == '*' || c == '+'
        || c == '-' || c == '.' || c == '^' || c == '_' || c == '`' || c == '|' || c == '~'
        || ('0' <= c && c <= '9') || ('A' <= c && c <= 'Z') || ('a' <= c && c <= 'z')
}

pub fn forbidden_quoted_char(c: char) -> (r: bool)
    ensures
        r == is_forbidden_quoted_char(c),
{
    c != '\t' && ((c as u32) < 0x20 || (c as u32) == 0x7f)
}

fn is_token_window(v: &Vec<char>, lo: usize, hi: usize) -> (r: bool)
    requires
        lo <= hi <= v@.len(),
    ensures
        r == token_window(v@, lo as int, hi as int),
{
    let mut i = lo;
    while i < hi
        invariant
            lo <= i <= hi <= v@.len(),
            token_window(v@, lo as int, i as int),
        decreases hi - i,
    {
        if !token_char(v[i]) {
            return false;
        }
        i = i + 1;
    }
    true
}

// ---------------------------------------------------------------------------
// Quote-aware segmentation on `;`
// ---------------------------------------------------------------------------

/// The `;`-separated segments of `lo..hi`, skipping separators that appear
/// inside double quotes (a backslash inside quotes escapes the next
/// character). Scanning state: position `i`, current segment start, whether
/// we are inside quotes, and whether the previous character was an escape.
pub open spec fn segs_from(s: Seq<char>, i: int, hi: int, start: int, in_quotes: bool, escaped: bool) -> Seq<(int, int)>
    decreases hi - i,
{
    if i >= hi {
        seq![(start, hi)]
    } else if escaped {
        segs_from(s, i + 1, hi, start, in_quotes, false)
    } else if in_quotes && s[i] == '\\' {
        segs_from(s, i + 1, hi, start, in_quotes, true)
    } else if s[i] == '"' {
        segs_from(s, i + 1, hi, start, !in_quotes, false)
    } else if s[i] == ';' && !in_quotes {
        seq![(start, i)] + segs_from(s, i + 1, hi, i + 1, in_quotes, false)
    } else {
        segs_from(s, i + 1, hi, start, in_quotes, false)
    }
}

pub open spec fn seg_spans(s: Seq<char>, lo: int, hi: int) -> Seq<(int, int)> {
    segs_from(s, lo, hi, lo, false, false)
}

/// Every span of a segmentation lies within `lo..hi` and is well ordered.
pub open spec fn spans_within(spans: Seq<(int, int)>, lo: int, hi: int) -> bool {
    forall|k: int| 0 <= k < spans.len() ==> lo <= (#[trigger] spans[k]).0 <= spans[k].1 <= hi
}

pub proof fn lemma_segs_from_within(s: Seq<char>, i: int, hi: int, start: int, q: bool, e: bool)
    requires
        start <= i <= hi,
    ensures
        spans_within(segs_from(s, i, hi, start, q, e), start, hi),
        segs_from(s, i, hi, start, q, e).len() >= 1,
    decreases hi - i,
{
    if i >= hi {
    } else if e {
        lemma_segs_from_within(s, i + 1, hi, start, q, false);
    } else if q && s[i] == '\\' {
        lemma_segs_from_within(s, i + 1, hi, start, q, true);
    } else if s[i] == '"' {
        lemma_segs_from_within(s, i + 1, hi, start, !q, false);
    } else if s[i] == ';' && !q {
        lemma_segs_from_within(s, i + 1, hi, i + 1, q, false);
        let rest = segs_from(s, i + 1, hi, i + 1, q, false);
        let all = seq![(start, i)] + rest;
        assert forall|k: int| 0 <= k < all.len() implies start <= (#[trigger] all[k]).0 <= all[k].1 <= hi by {
            if k > 0 {
                assert(all[k] == rest[k - 1]);
            }
        }
    } else {
        lemma_segs_from_within(s, i + 1, hi, start, q, false);
    }
}

/// Executable `seg_spans`.
pub fn split_segments(v: &Vec<char>, lo: usize, hi: usize) -> (r: Vec<(usize, usize)>)
    requires
        lo <= hi <= v@.len(),
    ensures
        r@.len() == seg_spans(v@, lo as int, hi as int).len(),
        forall|k: int| 0 <= k < r@.len() ==> (#[trigger] r@[k]).0 as int == seg_spans(v@, lo as int, hi as int)[k].0
            && r@[k].1 as int == seg_spans(v@, lo as int, hi as int)[k].1,
        r@.len() >= 1,
        forall|k: int| 0 <= k < r@.len() ==> lo <= (#[trigger] r@[k]).0 <= r@[k].1 <= hi,
{
    let ghost target = seg_spans(v@, lo as int, hi as int);
    let mut out: Vec<(usize, usize)> = Vec::new();
    let mut i = lo;
    let mut start = lo;
    let mut in_quotes = false;
    let mut escaped = false;
    let ghost mut acc: Seq<(int, int)> = Seq::empty();
    while i < hi
        invariant
            lo <= start <= i <= hi <= v@.len(),
            acc + segs_from(v@, i as int, hi as int, start as int, in_quotes, escaped) == target,
            out@.len() == acc.len(),
            forall|k: int| 0 <= k < out@.len() ==> (#[trigger] out@[k]).0 as int == acc[k].0 && out@[k].1 as int == acc[k].1,
            forall|k: int| 0 <= k < out@.len() ==> lo <= (#[trigger] out@[k]).0 <= out@[k].1 <= start,
        decreases hi - i,
    {
        let c = v[i];
        if escaped {
            escaped = false;
        } else if in_quotes && c == '\\' {
            escaped = true;
        } else if c == '"' {
            in_quotes = !in_quotes;
        } else if c == ';' && !in_quotes {
            proof {
                assert(segs_from(v@, i as int, hi as int, start as int, in_quotes, false)
                    == seq![(start as int, i as int)] + segs_from(v@, i + 1, hi as int, i + 1, in_quotes, false));
                assert(acc.push((start as int, i as int)) + segs_from(v@, i + 1, hi as int, i + 1, in_quotes, false)
                    =~= acc + (seq![(start as int, i as int)] + segs_from(v@, i + 1, hi as int, i + 1, in_quotes, false)));
                acc = acc.push((start as int, i as int));
            }
            out.push((start, i));
            start = i + 1;
        }
        i = i + 1;
    }
    proof {
        assert(acc.push((start as int, hi as int)) =~= target);
    }
    out.push((start, hi));
    out
}

// ---------------------------------------------------------------------------
// Parameter values
// ---------------------------------------------------------------------------

/// Scans the inside of a quoted parameter value.
pub open spec fn quoted_scan(s: Seq<char>, i: int, end: int, escaped: bool) -> bool
    decreases end - i,
{
    if i >= end {
        !escaped
    } else if escaped {
        if is_forbidden_quoted_char(s[i]) {
            false
        } else {
            quoted_scan(s, i + 1, end, false)
        }
    } else if s[i] == '\\' {
        quoted_scan(s, i + 1, end, true)
    } else if s[i] == '"' || is_forbidden_quoted_char(s[i]) {
        false
    } else {
        quoted_scan(s, i + 1, end, false)
    }
}

/// A well-formed quoted-string parameter value occupying `lo..hi`
/// (the caller has seen the opening quote).
pub open spec fn quoted_value_ok(s: Seq<char>, lo: int, hi: int) -> bool {
    hi - lo >= 2 && s[hi - 1] == '"' && quoted_scan(s, lo + 1, hi - 1, false)
}

/// A parameter value is a quoted string or a token.
pub open spec fn param_value_ok(s: Seq<char>, lo: int, hi: int) -> bool {
    if s[lo] == '"' {
        quoted_value_ok(s, lo, hi)
    } else {
        token_window(s, lo, hi)
    }
}

fn is_quoted_value(v: &Vec<char>, lo: usize, hi: usize) -> (r: bool)
    requires
        lo < hi <= v@.len(),
    ensures
        r == quoted_value_ok(v@, lo as int, hi as int),
{
    if hi - lo < 2 || v[hi - 1] != '"' {
        return false;
    }
    let end = hi - 1;
    let mut i = lo + 1;
    let mut escaped = false;
    while i < end
        invariant
            lo + 1 <= i <= end,
            end == hi - 1,
            hi <= v@.len(),
            quoted_scan(v@, i as int, end as int, escaped) == quoted_scan(v@, lo + 1, end as int, false),
        decreases end - i,
    {
        let c = v[i];
        if escaped {
            if forbidden_quoted_char(c) {
                return false;
            }
            escaped = false;
        } else if c == '\\' {
            escaped = true;
        } else if c == '"' || forbidden_quoted_char(c) {
            return false;
        }
        i = i + 1;
    }
    !escaped
}

fn is_param_value(v: &Vec<char>, lo: usize, hi: usize) -> (r: bool)
    requires
        lo < hi <= v@.len(),
    ensures
        r == param_value_ok(v@, lo as int, hi as int),
{
    if v[lo] == '"' {
        is_quoted_value(v, lo, hi)
    } else {
        is_token_window(v, lo, hi)
    }
}

/// Removes surrounding quotes' content escapes: a backslash makes the next
/// character literal; a trailing lone backslash is dropped.
pub open spec fn unescape(s: Seq<char>, i: int, end: int, escaped: bool) -> Seq<char>
    decreases end - i,
{
    if i >= end {
        seq![]
    } else if escaped {
        seq![s[i]] + unescape(s, i + 1, end, false)
    } else if s[i] == '\\' {
        unescape(s, i + 1, end, true)
    } else {
        seq![s[i]] + unescape(s, i + 1, end, false)
    }
}

/// The unquoted form of a raw parameter value.
pub open spec fn unquote(raw: Seq<char>) -> Seq<char> {
    if raw.len() >= 2 && raw[0] == '"' && raw[raw.len() - 1] == '"' {
        unescape(raw, 1, raw.len() - 1, false)
    } else {
        raw
    }
}

/// Executable `unquote`.
pub fn unquote_chars(v: &Vec<char>) -> (r: String)
    ensures
        r@ == unquote(v@),
{
    let n = v.len();
    if !(n >= 2 && v[0] == '"' && v[n - 1] == '"') {
        return string_from_chars(v.as_slice(), 0, n);
    }
    let end = n - 1;
    let mut out = String::new();
    let mut i: usize = 1;
    let mut escaped = false;
    while i < end
        invariant
            1 <= i <= end,
            end == n - 1,
            n == v@.len(),
            out@ + unescape(v@, i as int, end as int, escaped) == unescape(v@, 1, end as int, false),
        decreases end - i,
    {
        let c = v[i];
        if escaped {
            push_char(&mut out, c);
            escaped = false;
        } else if c == '\\' {
            escaped = true;
        } else {
            push_char(&mut out, c);
        }
        i = i + 1;
        proof {
            assert(out@ + unescape(v@, i as int, end as int, escaped) =~= unescape(v@, 1, end as int, false));
        }
    }
    assert(out@ =~= unescape(v@, 1, end as int, false));
    out
}

// ---------------------------------------------------------------------------
// Normalization of parameterized values
// ---------------------------------------------------------------------------

/// The canonical head of a parameterized value occupying the trimmed window
/// `lo..hi`: `type/subtype` (both lowercased) or a single lowercased token.
pub open spec fn norm_head(s: Seq<char>, lo: int, hi: int, with_subtype: bool) -> Option<Seq<char>> {
    if with_subtype {
        match find_in(s, '/', lo, hi) {
            None => None,
            Some(k) => {
                if k == lo || k + 1 == hi || find_in(s, '/', k + 1, hi) is Some || !token_window(s, lo, k)
                    || !token_window(s, k + 1, hi) {
                    None
                } else {
                    Some(ascii_lower(s.subrange(lo, k)) + seq!['/'] + ascii_lower(s.subrange(k + 1, hi)))
                }
            },
        }
    } else if lo == hi || !token_window(s, lo, hi) {
        None
    } else {
        Some(ascii_lower(s.subrange(lo, hi)))
    }
}

/// The canonical `; name=value` form of one parameter segment `lo..hi`.
pub open spec fn norm_param(s: Seq<char>, lo: int, hi: int) -> Option<Seq<char>> {
    let t = trimmed(s, lo, hi);
    match find_in(s, '=', t.0, t.1) {
        None => None,
        Some(k) => {
            let n = trimmed(s, t.0, k);
            let val = trimmed(s, k + 1, t.1);
            if n.0 == n.1 || val.0 == val.1 || !token_window(s, n.0, n.1) || !param_value_ok(s, val.0, val.1) {
                None
            } else {
                Some(seq![';', ' '] + ascii_lower(window(s, n)) + seq!['='] + window(s, val))
            }
        },
    }
}

/// Canonical parameters for a list of segment spans.
pub open spec fn norm_params(s: Seq<char>, spans: Seq<(int, int)>) -> Option<Seq<char>>
    decreases spans.len(),
{
    if spans.len() == 0 {
        Some(seq![])
    } else {
        match norm_param(s, spans[0].0, spans[0].1) {
            None => None,
            Some(p) => match norm_params(s, spans.drop_first()) {
                None => None,
                Some(rest) => Some(p + rest),
            },
        }
    }
}

/// Validates and canonicalizes a `Content-Type` shaped value (`with_subtype`)
/// or a `Content-Disposition` shaped value: type/subtype or kind tokens and
/// parameter names are lowercased, parameter values kept verbatim, and
/// parameters joined with `"; "`.
pub open spec fn normalize_value(s: Seq<char>, with_subtype: bool) -> Option<Seq<char>> {
    let t = trimmed(s, 0, s.len() as int);
    if t.0 == t.1 {
        None
    } else {
        let spans = seg_spans(s, t.0, t.1);
        let h = trimmed(s, spans[0].0, spans[0].1);
        match norm_head(s, h.0, h.1, with_subtype) {
            None => None,
            Some(head) => match norm_params(s, spans.drop_first()) {
                None => None,
                Some(params) => Some(head + params),
            },
        }
    }
}

fn norm_head_exec(v: &Vec<char>, lo: usize, hi: usize, with_subtype: bool) -> (r: Option<String>)
    requires
        lo <= hi <= v@.len(),
    ensures
        match r {
            None => norm_head(v@, lo as int, hi as int, with_subtype) is None,
            Some(h) => norm_head(v@, lo as int, hi as int, with_subtype) == Some(h@),
        },
{
    proof {
        lemma_find_in_bounds(v@, '/', lo as int, hi as int);
    }
    if with_subtype {
        match find_char(v, '/', lo, hi) {
            None => None,
            Some(k) => {
                proof {
                    lemma_find_in_bounds(v@, '/', k + 1, hi as int);
                }
                if k == lo || k + 1 == hi || find_char(v, '/', k + 1, hi).is_some() || !is_token_window(v, lo, k)
                    || !is_token_window(v, k + 1, hi) {
                    None
                } else {
                    let mut out = lower_string(v.as_slice(), lo, k);
                    push_char(&mut out, '/');
                    let sub = lower_string(v.as_slice(), k + 1, hi);
                    push_str(&mut out, sub.as_str());
                    Some(out)
                }
            },
        }
    } else if lo == hi || !is_token_window(v, lo, hi) {
        None
    } else {
        Some(lower_string(v.as_slice(), lo, hi))
    }
}

fn norm_param_exec(v: &Vec<char>, lo: usize, hi: usize) -> (r: Option<String>)
    requires
        lo <= hi <= v@.len(),
    ensures
        match r {
            None => norm_param(v@, lo as int, hi as int) is None,
            Some(p) => norm_param(v@, lo as int, hi as int) == Some(p@),
        },
{
    let (a, b) = trim_window(v, lo, hi);
    proof {
        lemma_find_in_bounds(v@, '=', a as int, b as int);
    }
    match find_char(v, '=', a, b) {
        None => None,
        Some(k) => {
            let (n0, n1) = trim_window(v, a, k);
            let (v0, v1) = trim_window(v, k + 1, b);
            if n0 == n1 || v0 == v1 || !is_token_window(v, n0, n1) || !is_param_value(v, v0, v1) {
                None
            } else {
                let mut out = String::new();
                push_char(&mut out, ';');
                push_char(&mut out, ' ');
                let name = lower_string(v.as_slice(), n0, n1);
                push_str(&mut out, name.as_str());
                push_char(&mut out, '=');
                let val = string_from_chars(v.as_slice(), v0, v1);
                push_str(&mut out, val.as_str());
                assert(out@ =~= seq![';', ' '] + ascii_lower(v@.subrange(n0 as int, n1 as int)) + seq!['=']
                    + v@.subrange(v0 as int, v1 as int));
                Some(out)
            }
        },
    }
}

/// Executable `normalize_value`.
fn normalize_parameterized_value(value: &str, with_subtype: bool) -> (r: Option<String>)
    ensures
        match r {
            None => normalize_value(value@, with_subtype) is None,
            Some(c) => normalize_value(value@, with_subtype) == Some(c@),
        },
{
    let v = str_chars(value);
    let (a, b) = trim_window(&v, 0, v.len());
    if a == b {
        return None;
    }
    let spans = split_segments(&v, a, b);
    let (h0, h1) = trim_window(&v, spans[0].0, spans[0].1);
    let head = match norm_head_exec(&v, h0, h1, with_subtype) {
        None => return None,
        Some(h) => h,
    };
    let ghost all = seg_spans(v@, a as int, b as int);
    assert(all[0].0 == spans@[0].0 as int && all[0].1 == spans@[0].1 as int);
    assert(norm_head(v@, h0 as int, h1 as int, with_subtype) == Some(head@));
    assert(normalize_value(value@, with_subtype) == match norm_params(v@, all.drop_first()) {
        None => None,
        Some(p) => Some(head@ + p),
    });
    let mut out = head;
    let mut idx: usize = 1;
    while idx < spans.len()
        invariant
            1 <= idx <= spans@.len(),
            spans@.len() == all.len(),
            normalize_value(value@, with_subtype) == match norm_params(v@, all.drop_first()) {
                None => None,
                Some(p) => Some(head@ + p),
            },
            forall|k: int| 0 <= k < spans@.len() ==> (#[trigger] spans@[k]).0 as int == all[k].0 && spans@[k].1 as int == all[k].1,
            forall|k: int| 0 <= k < spans@.len() ==> (#[trigger] spans@[k]).0 <= spans@[k].1 <= v@.len(),
            norm_params(v@, all.drop_first()) matches Some(total) ==> ({
                &&& norm_params(v@, all.subrange(idx as int, all.len() as int)) matches Some(rest)
                &&& head@ + total == out@ + rest
            }),
            norm_params(v@, all.drop_first()) is None ==> norm_params(v@, all.subrange(idx as int, all.len() as int)) is None,
        decreases spans@.len() - idx,
    {
        let (p0, p1) = spans[idx];
        proof {
            let tail = all.subrange(idx as int, all.len() as int);
            assert(tail[0] == all[idx as int]);
            assert(tail.drop_first() =~= all.subrange(idx + 1, all.len() as int));
        }
        match norm_param_exec(&v, p0, p1) {
            None => {
                proof {
                    let tail = all.subrange(idx as int, all.len() as int);
                    assert(tail[0].0 == p0 as int && tail[0].1 == p1 as int);
                    assert(norm_param(v@, tail[0].0, tail[0].1) is None);
                    assert(norm_params(v@, tail) is None);
                    assert(norm_params(v@, all.drop_first()) is None);
                    assert(normalize_value(value@, with_subtype) is None);
                }
                return None;
            },
            Some(p) => {
                push_str(&mut out, p.as_str());
                proof {
                    if let Some(total) = norm_params(v@, all.drop_first()) {
                        let rest_after = norm_params(v@, all.subrange(idx + 1, all.len() as int));
                        assert(rest_after is Some);
                        assert(head@ + total =~= out@ + rest_after.unwrap());
                    }
                }
            },
        }
        idx = idx + 1;
    }
    proof {
        assert(all.subrange(idx as int, all.len() as int) =~= Seq::<(int, int)>::empty());
        assert(all.drop_first() =~= all.subrange(1, all.len() as int));
    }
    Some(out)
}

// ---------------------------------------------------------------------------
// Parameter lookup on normalized values
// ---------------------------------------------------------------------------

/// The `(name, value)` windows of one parameter segment, if it has an `=`.
pub open spec fn param_of_span(s: Seq<char>, lo: int, hi: int) -> Option<((int, int), (int, int))> {
    let t = trimmed(s, lo, hi);
    match find_in(s, '=', t.0, t.1) {
        None => None,
        Some(k) => Some((trimmed(s, t.0, k), trimmed(s, k + 1, t.1))),
    }
}

/// The parameter windows of a list of segments, skipping segments
/// without `=`.
pub open spec fn params_of_spans(s: Seq<char>, spans: Seq<(int, int)>) -> Seq<((int, int), (int, int))>
    decreases spans.len(),
{
    if spans.len() == 0 {
        seq![]
    } else {
        match param_of_span(s, spans[0].0, spans[0].1) {
            None => params_of_spans(s, spans.drop_first()),
            Some(p) => seq![p] + params_of_spans(s, spans.drop_first()),
        }
    }
}

/// The parameters of a stored value in declaration order: every segment
/// after the first, split at its first `=` and trimmed.
pub open spec fn parameter_windows(s: Seq<char>) -> Seq<((int, int), (int, int))> {
    params_of_spans(s, seg_spans(s, 0, s.len() as int).drop_first())
}

/// Index of the first parameter whose name matches `name` ignoring ASCII case.
pub open spec fn first_named(s: Seq<char>, ps: Seq<((int, int), (int, int))>, name: Seq<char>, i: int) -> Option<int>
    decreases ps.len() - i,
{
    if i >= ps.len() {
        None
    } else if eq_ignore_case(window(s, ps[i].0), name) {
        Some(i)
    } else {
        first_named(s, ps, name, i + 1)
    }
}

/// The raw value of the first parameter called `name`.
pub open spec fn lookup_parameter(s: Seq<char>, name: Seq<char>) -> Option<Seq<char>> {
    match first_named(s, parameter_windows(s), name, 0) {
        None => None,
        Some(i) => Some(window(s, parameter_windows(s)[i].1)),
    }
}

/// `parameter_windows(s)[k]` is named `name`, ignoring ASCII case.
pub open spec fn names_parameter(s: Seq<char>, k: int, name: Seq<char>) -> bool {
    eq_ignore_case(window(s, parameter_windows(s)[k].0), name)
}

/// What a parameter lookup finds: with `Some(v)`, the first parameter in
/// declaration order whose name matches, holding `v`; with `None`, no
/// parameter of that name.
pub open spec fn first_match_is(s: Seq<char>, name: Seq<char>, r: Option<Seq<char>>) -> bool {
    match r {
        None => forall|k: int| 0 <= k < parameter_windows(s).len() ==> !#[trigger] names_parameter(s, k, name),
        Some(v) => exists|k: int|
            0 <= k < parameter_windows(s).len() && #[trigger] names_parameter(s, k, name) && v == window(
                s,
                parameter_windows(s)[k].1,
            ) && forall|j: int| 0 <= j < k ==> !#[trigger] names_parameter(s, j, name),
    }
}

proof fn lemma_first_named(s: Seq<char>, name: Seq<char>, i: int)
    requires
        0 <= i,
    ensures
        match first_named(s, parameter_windows(s), name, i) {
            None => forall|k: int| i <= k < parameter_windows(s).len() ==> !#[trigger] names_parameter(s, k, name),
            Some(k) => i <= k < parameter_windows(s).len() && names_parameter(s, k, name) && forall|j: int|
                i <= j < k ==> !#[trigger] names_parameter(s, j, name),
        },
    decreases parameter_windows(s).len() - i,
{
    if i < parameter_windows(s).len() && !names_parameter(s, i, name) {
        lemma_first_named(s, name, i + 1);
    }
}

/// A parameter lookup is the first parameter, in the order `parameters`
/// lists them, whose name matches ignoring ASCII case.
pub proof fn law_parameter_lookup_is_first_match(s: Seq<char>, name: Seq<char>)
    ensures
        first_match_is(s, name, lookup_parameter(s, name)),
{
    lemma_first_named(s, name, 0);
}

pub proof fn lemma_params_within(s: Seq<char>, spans: Seq<(int, int)>, lo: int, hi: int)
    requires
        spans_within(spans, lo, hi),
    ensures
        forall|k: int| 0 <= k < params_of_spans(s, spans).len() ==> {
            let p = #[trigger] params_of_spans(s, spans)[k];
            &&& lo <= p.0.0 <= p.0.1 <= hi
            &&& lo <= p.1.0 <= p.1.1 <= hi
        },
    decreases spans.len(),
{
    if spans.len() > 0 {
        let rest = spans.drop_first();
        assert(spans_within(rest, lo, hi)) by {
            assert forall|k: int| 0 <= k < rest.len() implies lo <= (#[trigger] rest[k]).0 <= rest[k].1 <= hi by {
                assert(rest[k] == spans[k + 1]);
            }
        }
        lemma_params_within(s, rest, lo, hi);
        let (a, b) = (spans[0].0, spans[0].1);
        assert(lo <= a <= b <= hi) by {
            assert(spans[0] == spans[0]);
        }
        lemma_trimmed_bounds(s, a, b);
        let t = trimmed(s, a, b);
        lemma_find_in_bounds(s, '=', t.0, t.1);
        if let Some(k) = find_in(s, '=', t.0, t.1) {
            lemma_trimmed_bounds(s, t.0, k);
            lemma_trimmed_bounds(s, k + 1, t.1);
            let all = params_of_spans(s, spans);
            let tl = params_of_spans(s, rest);
            assert forall|j: int| 0 <= j < all.len() implies {
                let p = #[trigger] all[j];
                &&& lo <= p.0.0 <= p.0.1 <= hi
                &&& lo <= p.1.0 <= p.1.1 <= hi
            } by {
                if j > 0 {
                    assert(all[j] == tl[j - 1]);
                }
            }
        }
    }
}

/// Executable `parameter_windows`, with usize windows.
fn parameter_windows_exec(v: &Vec<char>) -> (r: Vec<((usize, usize), (usize, usize))>)
    ensures
        r@.len() == parameter_windows(v@).len(),
        forall|k: int| 0 <= k < r@.len() ==> {
            let p = parameter_windows(v@)[k];
            let q = #[trigger] r@[k];
            &&& q.0.0 as int == p.0.0 && q.0.1 as int == p.0.1
            &&& q.1.0 as int == p.1.0 && q.1.1 as int == p.1.1
            &&& q.0.0 <= q.0.1 <= v@.len()
            &&& q.1.0 <= q.1.1 <= v@.len()
        },
{
    let spans = split_segments(v, 0, v.len());
    let ghost all = seg_spans(v@, 0, v@.len() as int);
    let ghost target = parameter_windows(v@);
    let mut out: Vec<((usize, usize), (usize, usize))> = Vec::new();
    let mut idx: usize = 1;
    proof {
        lemma_segs_from_within(v@, 0, v@.len() as int, 0, false, false);
        assert(all.subrange(1, all.len() as int) =~= all.drop_first());
    }
    while idx < spans.len()
        invariant
            1 <= idx <= spans@.len(),
            spans@.len() == all.len(),
            all == seg_spans(v@, 0, v@.len() as int),
            target == params_of_spans(v@, all.drop_first()),
            forall|k: int| 0 <= k < spans@.len() ==> (#[trigger] spans@[k]).0 as int == all[k].0 && spans@[k].1 as int == all[k].1,
            forall|k: int| 0 <= k < spans@.len() ==> (#[trigger] spans@[k]).0 <= spans@[k].1 <= v@.len(),
            out@.len() + params_of_spans(v@, all.subrange(idx as int, all.len() as int)).len() == target.len(),
            forall|k: int| 0 <= k < out@.len() ==> {
                let p = target[k];
                let q = #[trigger] out@[k];
                &&& q.0.0 as int == p.0.0 && q.0.1 as int == p.0.1
                &&& q.1.0 as int == p.1.0 && q.1.1 as int == p.1.1
                &&& q.0.0 <= q.0.1 <= v@.len()
                &&& q.1.0 <= q.1.1 <= v@.len()
            },
            forall|k: int| 0 <= k < params_of_spans(v@, all.subrange(idx as int, all.len() as int)).len() ==>
                target[out@.len() + k] == #[trigger] params_of_spans(v@, all.subrange(idx as int, all.len() as int))[k],
        decreases spans@.len() - idx,
    {
        let (a, b) = spans[idx];
        let ghost tail = all.subrange(idx as int, all.len() as int);
        let ghost rest = all.subrange(idx + 1, all.len() as int);
        proof {
            assert(tail[0] == all[idx as int]);
            assert(tail.drop_first() =~= rest);
        }
        let (t0, t1) = trim_window(v, a, b);
        proof {
            lemma_find_in_bounds(v@, '=', t0 as int, t1 as int);
        }
        match find_char(v, '=', t0, t1) {
            None => {
                proof {
                    assert(params_of_spans(v@, tail) == params_of_spans(v@, rest));
                }
            },
            Some(k) => {
                let n = trim_window(v, t0, k);
                let w = trim_window(v, k + 1, t1);
                proof {
                    let p = ((n.0 as int, n.1 as int), (w.0 as int, w.1 as int));
                    assert(params_of_spans(v@, tail) == seq![p] + params_of_spans(v@, rest));
                    assert(params_of_spans(v@, tail)[0] == p);
                    assert(target[out@.len() as int] == p);
                    assert forall|j: int| 0 <= j < params_of_spans(v@, rest).len() implies
                        target[out@.len() + 1 + j] == #[trigger] params_of_spans(v@, rest)[j] by {
                        assert(params_of_spans(v@, tail)[j + 1] == params_of_spans(v@, rest)[j]);
                    }
                }
                out.push((n, w));
            },
        }
        idx = idx + 1;
    }
    proof {
        assert(all.subrange(idx as int, all.len() as int) =~= Seq::<(int, int)>::empty());
    }
    out
}

/// Executable `first_named` over executable windows.
fn find_named(v: &Vec<char>, ps: &Vec<((usize, usize), (usize, usize))>, name: &str) -> (r: Option<usize>)
    requires
        ps@.len() == parameter_windows(v@).len(),
        forall|k: int| 0 <= k < ps@.len() ==> {
            let p = parameter_windows(v@)[k];
            let q = #[trigger] ps@[k];
            &&& q.0.0 as int == p.0.0 && q.0.1 as int == p.0.1
            &&& q.1.0 as int == p.1.0 && q.1.1 as int == p.1.1
            &&& q.0.0 <= q.0.1 <= v@.len()
            &&& q.1.0 <= q.1.1 <= v@.len()
        },
    ensures
        match r {
            None => first_named(v@, parameter_windows(v@), name@, 0) is None,
            Some(i) => first_named(v@, parameter_windows(v@), name@, 0) == Some(i as int) && i < ps@.len(),
        },
{
    let nm = str_chars(name);
    let ghost pw = parameter_windows(v@);
    let mut i: usize = 0;
    while i < ps.len()
        invariant
            i <= ps@.len(),
            nm@ == name@,
            ps@.len() == pw.len(),
            pw == parameter_windows(v@),
            forall|k: int| 0 <= k < ps@.len() ==> {
                let p = pw[k];
                let q = #[trigger] ps@[k];
                &&& q.0.0 as int == p.0.0 && q.0.1 as int == p.0.1
                &&& q.0.0 <= q.0.1 <= v@.len()
            },
            first_named(v@, pw, name@, i as int) == first_named(v@, pw, name@, 0),
        decreases ps@.len() - i,
    {
        let (n0, n1) = ps[i].0;
        if window_eq_ignore_case(v, n0, n1, &nm) {
            return Some(i);
        }
        i = i + 1;
    }
    None
}

// ---------------------------------------------------------------------------
// Content-Type
// ---------------------------------------------------------------------------

/// MIME content type, stored in canonical form: type, subtype and parameter
/// names lowercased, parameter values verbatim, parameters joined by `"; "`.
#[derive(Clone, Debug, PartialEq, Eq, Hash)]
pub struct ContentType(String);

impl View for ContentType {
    type V = Seq<char>;

    closed spec fn view(&self) -> Seq<char> {
        self.0@
    }
}

/// Error returned when a value is not a valid `type/subtype` content type.
#[derive(Clone, Debug, PartialEq, Eq)]
pub struct ContentTypeParseError;

/// The first `;` (unquoted or not) ends the media type.
pub open spec fn media_end(s: Seq<char>) -> int {
    match find_in(s, ';', 0, s.len() as int) {
        Some(k) => k,
        None => s.len() as int,
    }
}

/// The `(type, subtype)` windows of a content type: the trimmed head split
/// at its first `/`, with an empty subtype when there is none.
pub open spec fn media_windows(s: Seq<char>) -> ((int, int), (int, int)) {
    let h = trimmed(s, 0, media_end(s));
    match find_in(s, '/', h.0, h.1) {
        Some(k) => ((h.0, k), (k + 1, h.1)),
        None => (h, (h.1, h.1)),
    }
}

impl ContentType {
    /// Parses and canonicalizes a content type.
    pub fn from_str(s: &str) -> (r: Result<ContentType, ContentTypeParseError>)
        ensures
            r is Ok <==> normalize_value(s@, true) is Some,
            r matches Ok(ct) ==> normalize_value(s@, true) == Some(ct@),
    {
        match normalize_parameterized_value(s, true) {
            Some(value) => Ok(ContentType(value)),
            None => Err(ContentTypeParseError),
        }
    }

    /// Parses a content type from a string slice.
    pub fn try_from(s: &str) -> (r: Result<ContentType, ContentTypeParseError>)
        ensures
            r is Ok <==> normalize_value(s@, true) is Some,
            r matches Ok(ct) ==> normalize_value(s@, true) == Some(ct@),
    {
        Self::from_str(s)
    }

    /// The canonical string.
    pub fn as_str(&self) -> (r: &str)
        ensures
            r@ == self@,
    {
        self.0.as_str()
    }

    /// The canonical string, owned.
    pub fn to_string(&self) -> (r: String)
        ensures
            r@ == self@,
    {
        self.0.clone()
    }

    /// A copy with the same canonical string.
    pub fn duplicate(&self) -> (r: ContentType)
        ensures
            r@ == self@,
    {
        ContentType(self.0.clone())
    }

    /// Consumes the value, returning the canonical string.
    pub fn into_string(self) -> (r: String)
        ensures
            r@ == self@,
    {
        self.0
    }

    /// Borrowed `type/subtype` view, with no parameters.
    pub fn media_type(&self) -> (r: MediaType<'_>)
        ensures
            r.type_view() == window(self@, media_windows(self@).0),
            r.subtype_view() == window(self@, media_windows(self@).1),
    {
        let s = self.0.as_str();
        let v = str_chars(s);
        let end = match find_char(&v, ';', 0, v.len()) {
            Some(k) => k,
            None => v.len(),
        };
        proof {
            lemma_find_in_bounds(v@, ';', 0, v@.len() as int);
        }
        let (h0, h1) = trim_window(&v, 0, end);
        proof {
            lemma_find_in_bounds(v@, '/', h0 as int, h1 as int);
        }
        match find_char(&v, '/', h0, h1) {
            Some(k) => MediaType { type_: s.substring_char(h0, k), subtype: s.substring_char(k + 1, h1) },
            None => MediaType { type_: s.substring_char(h0, h1), subtype: s.substring_char(h1, h1) },
        }
    }

    /// `(name, value)` parameter pairs in declaration order.
    pub fn parameters(&self) -> (r: Vec<(&str, ParameterValue<'_>)>)
        ensures
            r@.len() == parameter_windows(self@).len(),
            forall|k: int| 0 <= k < r@.len() ==> (#[trigger] r@[k]).0@ == window(self@, parameter_windows(self@)[k].0)
                && r@[k].1.raw_view() == window(self@, parameter_windows(self@)[k].1),
    {
        parameters_of(self.0.as_str())
    }

    /// The first parameter called `name` (ASCII case-insensitive), in the
    /// order `parameters` lists them.
    pub fn parameter(&self, name: &str) -> (r: Option<ParameterValue<'_>>)
        ensures
            match r {
                None => lookup_parameter(self@, name@) is None,
                Some(p) => lookup_parameter(self@, name@) == Some(p.raw_view()),
            },
            first_match_is(
                self@,
                name@,
                match r {
                    None => None,
                    Some(p) => Some(p.raw_view()),
                },
            ),
    {
        proof {
            law_parameter_lookup_is_first_match(self@, name@);
        }
        parameter_of(self.0.as_str(), name)
    }

    /// The `boundary` parameter.
    pub fn boundary(&self) -> (r: Option<ParameterValue<'_>>)
        ensures
            match r {
                None => lookup_parameter(self@, "boundary"@) is None,
                Some(p) => lookup_parameter(self@, "boundary"@) == Some(p.raw_view()),
            },
    {
        self.parameter("boundary")
    }

    /// The `charset` parameter.
    pub fn charset(&self) -> (r: Option<ParameterValue<'_>>)
        ensures
            match r {
                None => lookup_parameter(self@, "charset"@) is None,
                Some(p) => lookup_parameter(self@, "charset"@) == Some(p.raw_view()),
            },
    {
        self.parameter("charset")
    }
}

fn parameters_of(s: &str) -> (r: Vec<(&str, ParameterValue<'_>)>)
    ensures
        r@.len() == parameter_windows(s@).len(),
        forall|k: int| 0 <= k < r@.len() ==> (#[trigger] r@[k]).0@ == window(s@, parameter_windows(s@)[k].0)
            && r@[k].1.raw_view() == window(s@, parameter_windows(s@)[k].1),
{
    let v = str_chars(s);
    let ps = parameter_windows_exec(&v);
    let mut out: Vec<(&str, ParameterValue<'_>)> = Vec::new();
    let mut i: usize = 0;
    while i < ps.len()
        invariant
            i <= ps@.len(),
            v@ == s@,
            ps@.len() == parameter_windows(v@).len(),
            forall|k: int| 0 <= k < ps@.len() ==> {
                let p = parameter_windows(v@)[k];
                let q = #[trigger] ps@[k];
                &&& q.0.0 as int == p.0.0 && q.0.1 as int == p.0.1
                &&& q.1.0 as int == p.1.0 && q.1.1 as int == p.1.1
                &&& q.0.0 <= q.0.1 <= v@.len()
                &&& q.1.0 <= q.1.1 <= v@.len()
            },
            out@.len() == i,
            forall|k: int| 0 <= k < i ==> (#[trigger] out@[k]).0@ == window(s@, parameter_windows(s@)[k].0)
                && out@[k].1.raw_view() == window(s@, parameter_windows(s@)[k].1),
        decreases ps@.len() - i,
    {
        let ((n0, n1), (w0, w1)) = ps[i];
        let name = s.substring_char(n0, n1);
        let raw = s.substring_char(w0, w1);
        out.push((name, ParameterValue { raw }));
        i = i + 1;
    }
    out
}

fn parameter_of<'a>(s: &'a str, name: &str) -> (r: Option<ParameterValue<'a>>)
    ensures
        match r {
            None => lookup_parameter(s@, name@) is None,
            Some(p) => lookup_parameter(s@, name@) == Some(p.raw_view()),
        },
{
    let v = str_chars(s);
    let ps = parameter_windows_exec(&v);
    match find_named(&v, &ps, name) {
        None => None,
        Some(i) => {
            let (w0, w1) = ps[i].1;
            Some(ParameterValue { raw: s.substring_char(w0, w1) })
        },
    }
}

/// Borrowed view of a content type's `type/subtype`.
#[derive(Clone, Copy, Debug, PartialEq, Eq, Hash)]
pub struct MediaType<'a> {
    pub(crate) type_: &'a str,
    pub(crate) subtype: &'a str,
}

impl<'a> MediaType<'a> {
    pub closed spec fn type_view(&self) -> Seq<char> {
        self.type_@
    }

    pub closed spec fn subtype_view(&self) -> Seq<char> {
        self.subtype@
    }

    pub fn type_(&self) -> (r: &'a str)
        ensures
            r@ == self.type_view(),
    {
        self.type_
    }

    pub fn subtype(&self) -> (r: &'a str)
        ensures
            r@ == self.subtype_view(),
    {
        self.subtype
    }

    pub fn is_text(&self) -> (r: bool)
        ensures
            r == eq_ignore_case(self.type_view(), "text"@),
    {
        str_eq_ignore_case(self.type_, "text")
    }

    pub fn is_multipart(&self) -> (r: bool)
        ensures
            r == eq_ignore_case(self.type_view(), "multipart"@),
    {
        str_eq_ignore_case(self.type_, "multipart")
    }

    pub fn is_image(&self) -> (r: bool)
        ensures
            r == eq_ignore_case(self.type_view(), "image"@),
    {
        str_eq_ignore_case(self.type_, "image")
    }

    /// Case-insensitive comparison with a `"type/subtype"` literal; `false`
    /// when `expected` has no `/`.
    pub fn matches(&self, expected: &str) -> (r: bool)
        ensures
            r == match find_in(expected@, '/', 0, expected@.len() as int) {
                None => false,
                Some(k) => eq_ignore_case(self.type_view(), expected@.subrange(0, k))
                    && eq_ignore_case(self.subtype_view(), expected@.subrange(k + 1, expected@.len() as int)),
            },
    {
        let e = str_chars(expected);
        proof {
            lemma_find_in_bounds(e@, '/', 0, e@.len() as int);
        }
        match find_char(&e, '/', 0, e.len()) {
            None => false,
            Some(k) => {
                let t = str_chars(self.type_);
                let st = str_chars(self.subtype);
                let ty = sub_chars(&e, 0, k);
                let sb = sub_chars(&e, k + 1, e.len());
                let a = window_eq_ignore_case(&t, 0, t.len(), &ty);
                let b = window_eq_ignore_case(&st, 0, st.len(), &sb);
                assert(t@.subrange(0, t@.len() as int) =~= t@);
                assert(st@.subrange(0, st@.len() as int) =~= st@);
                a && b
            },
        }
    }
}

/// Borrowed parameter value, raw as it appears in the header.
#[derive(Clone, Debug)]
pub struct ParameterValue<'a> {
    pub(crate) raw: &'a str,
}

impl<'a> ParameterValue<'a> {
    pub closed spec fn raw_view(&self) -> Seq<char> {
        self.raw@
    }

    /// The raw textual form (still quoted and escaped if it was so written).
    pub fn as_raw(&self) -> (r: &'a str)
        ensures
            r@ == self.raw_view(),
    {
        self.raw
    }

    /// The unquoted, unescaped value.
    pub fn unquoted(&self) -> (r: String)
        ensures
            r@ == unquote(self.raw_view()),
    {
        let v = str_chars(self.raw);
        unquote_chars(&v)
    }
}

// ---------------------------------------------------------------------------
// Content-Transfer-Encoding
// ---------------------------------------------------------------------------

/// MIME content-transfer-encoding (RFC 2045 §6).
#[derive(Clone, Debug, PartialEq, Eq, Hash)]
pub enum ContentTransferEncoding {
    SevenBit,
    EightBit,
    Binary,
    QuotedPrintable,
    Base64,
    Other(String),
}

/// Error returned for an empty or non-token transfer encoding.
#[derive(Clone, Debug, PartialEq, Eq)]
pub struct ContentTransferEncodingParseError;

/// The name under which an encoding is written.
pub open spec fn encoding_name(e: ContentTransferEncoding) -> Seq<char> {
    match e {
        ContentTransferEncoding::SevenBit => "7bit"@,
        ContentTransferEncoding::EightBit => "8bit"@,
        ContentTransferEncoding::Binary => "binary"@,
        ContentTransferEncoding::QuotedPrintable => "quoted-printable"@,
        ContentTransferEncoding::Base64 => "base64"@,
        ContentTransferEncoding::Other(s) => s@,
    }
}

/// The encoding denoted by an already trimmed, non-empty token `t`: one of
/// the five known names (ASCII case-insensitive) or `Other` holding the
/// lowercased token.
pub open spec fn encoding_of(e: ContentTransferEncoding, t: Seq<char>) -> bool {
    if eq_ignore_case(t, "7bit"@) {
        e == ContentTransferEncoding::SevenBit
    } else if eq_ignore_case(t, "8bit"@) {
        e == ContentTransferEncoding::EightBit
    } else if eq_ignore_case(t, "binary"@) {
        e == ContentTransferEncoding::Binary
    } else if eq_ignore_case(t, "quoted-printable"@) {
        e == ContentTransferEncoding::QuotedPrintable
    } else if eq_ignore_case(t, "base64"@) {
        e == ContentTransferEncoding::Base64
    } else {
        e matches ContentTransferEncoding::Other(o) && o@ == ascii_lower(t)
    }
}

/// The value accepted by `ContentTransferEncoding::from_str`: the trimmed
/// input, when it is a non-empty token.
pub open spec fn encoding_token_ok(s: Seq<char>) -> bool {
    let t = trimmed(s, 0, s.len() as int);
    t.0 < t.1 && token_window(s, t.0, t.1)
}

/// The name of the encoding that `encoding_of` assigns to a token.
pub open spec fn encoding_name_of(t: Seq<char>) -> Seq<char> {
    if eq_ignore_case(t, "7bit"@) {
        "7bit"@
    } else if eq_ignore_case(t, "8bit"@) {
        "8bit"@
    } else if eq_ignore_case(t, "binary"@) {
        "binary"@
    } else if eq_ignore_case(t, "quoted-printable"@) {
        "quoted-printable"@
    } else if eq_ignore_case(t, "base64"@) {
        "base64"@
    } else {
        ascii_lower(t)
    }
}

pub proof fn lemma_encoding_name_of(e: ContentTransferEncoding, t: Seq<char>)
    requires
        encoding_of(e, t),
    ensures
        encoding_name(e) == encoding_name_of(t),
{
}

/// Lowercasing twice is lowercasing once.
proof fn lemma_ascii_lower_idempotent(t: Seq<char>)
    ensures
        ascii_lower(ascii_lower(t)) == ascii_lower(t),
{
    assert(ascii_lower(ascii_lower(t)) =~= ascii_lower(t));
}

/// A transfer encoding read from a token is written under a name that is
/// itself a non-empty token, and that name reads back as the same encoding:
/// the five known encodings under their canonical names, any other token as
/// `Other` holding its lowercase form.
pub proof fn law_transfer_encoding_name_round_trip(e: ContentTransferEncoding, t: Seq<char>)
    requires
        t.len() > 0,
        token_window(t, 0, t.len() as int),
        encoding_of(e, t),
    ensures
        encoding_name(e).len() > 0,
        token_window(encoding_name(e), 0, encoding_name(e).len() as int),
        encoding_of(e, encoding_name(e)),
{
    reveal_strlit("7bit");
    reveal_strlit("8bit");
    reveal_strlit("binary");
    reveal_strlit("quoted-printable");
    reveal_strlit("base64");
    let n = encoding_name(e);
    lemma_ascii_lower_idempotent(t);
    let lk7 = ascii_lower("7bit"@);
    let lk8 = ascii_lower("8bit"@);
    let lkb = ascii_lower("binary"@);
    let lkq = ascii_lower("quoted-printable"@);
    let lk64 = ascii_lower("base64"@);
    assert(lk7 =~= "7bit"@);
    assert(lk8 =~= "8bit"@);
    assert(lkb =~= "binary"@);
    assert(lkq =~= "quoted-printable"@);
    assert(lk64 =~= "base64"@);
    assert(lk7[0] != lk8[0]);
    assert(lk7.len() != lkb.len() && lk7.len() != lkq.len() && lk7.len() != lk64.len());
    assert(lk8.len() != lkb.len() && lk8.len() != lkq.len() && lk8.len() != lk64.len());
    assert(lkb[1] != lk64[1] && lkb.len() != lkq.len() && lkq.len() != lk64.len());
    match e {
        ContentTransferEncoding::Other(o) => {
            assert(o@ == ascii_lower(t));
            assert(ascii_lower(o@) == o@);
            assert forall|i: int| 0 <= i < o@.len() implies is_token_char(#[trigger] o@[i]) by {
                assert(is_token_char(t[i]));
            }
        },
        _ => {},
    }
}

impl ContentTransferEncoding {
    /// The encoding name.
    pub fn as_str(&self) -> (r: &str)
        ensures
            r@ == encoding_name(*self),
    {
        match self {
            ContentTransferEncoding::SevenBit => "7bit",
            ContentTransferEncoding::EightBit => "8bit",
            ContentTransferEncoding::Binary => "binary",
            ContentTransferEncoding::QuotedPrintable => "quoted-printable",
            ContentTransferEncoding::Base64 => "base64",
            ContentTransferEncoding::Other(value) => value.as_str(),
        }
    }

    /// Parses a transfer encoding; known names are case-insensitive and any
    /// other token is kept lowercased.
    pub fn from_str(s: &str) -> (r: Result<ContentTransferEncoding, ContentTransferEncodingParseError>)
        ensures
            r is Ok <==> encoding_token_ok(s@),
            r matches Ok(e) ==> encoding_of(e, trim(s@)),
    {
        let v = str_chars(s);
        let (a, b) = trim_window(&v, 0, v.len());
        if a == b || !is_token_window(&v, a, b) {
            return Err(ContentTransferEncodingParseError);
        }
        let t = sub_chars(&v, a, b);
        let k7 = str_chars("7bit");
        let k8 = str_chars("8bit");
        let kb = str_chars("binary");
        let kq = str_chars("quoted-printable");
        let k64 = str_chars("base64");
        let n = t.len();
        assert(t@.subrange(0, n as int) =~= t@);
        Ok(if window_eq_ignore_case(&t, 0, n, &k7) {
            ContentTransferEncoding::SevenBit
        } else if window_eq_ignore_case(&t, 0, n, &k8) {
            ContentTransferEncoding::EightBit
        } else if window_eq_ignore_case(&t, 0, n, &kb) {
            ContentTransferEncoding::Binary
        } else if window_eq_ignore_case(&t, 0, n, &kq) {
            ContentTransferEncoding::QuotedPrintable
        } else if window_eq_ignore_case(&t, 0, n, &k64) {
            ContentTransferEncoding::Base64
        } else {
            assert(t@.subrange(0, n as int) =~= t@);
            ContentTransferEncoding::Other(lower_string(t.as_slice(), 0, n))
        })
    }

    /// Parses a transfer encoding from a string slice.
    pub fn try_from(s: &str) -> (r: Result<ContentTransferEncoding, ContentTransferEncodingParseError>)
        ensures
            r is Ok <==> encoding_token_ok(s@),
            r matches Ok(e) ==> encoding_of(e, trim(s@)),
    {
        Self::from_str(s)
    }

    /// The encoding name, owned.
    pub fn to_string(&self) -> (r: String)
        ensures
            r@ == encoding_name(*self),
    {
        let v = str_chars(self.as_str());
        string_from_chars(v.as_slice(), 0, v.len())
    }
}

// ---------------------------------------------------------------------------
// Content-Disposition
// ---------------------------------------------------------------------------

/// MIME content disposition (RFC 2183), stored in canonical form: the kind
/// and parameter names lowercased, parameter values verbatim.
#[derive(Clone, Debug, PartialEq, Eq, Hash)]
pub struct ContentDisposition(String);

impl View for ContentDisposition {
    type V = Seq<char>;

    closed spec fn view(&self) -> Seq<char> {
        self.0@
    }
}

/// Error returned for an empty or malformed content disposition.
#[derive(Clone, Debug, PartialEq, Eq)]
pub struct ContentDispositionParseError;

impl ContentDisposition {
    /// Parses and canonicalizes a content disposition.
    pub fn from_str(s: &str) -> (r: Result<ContentDisposition, ContentDispositionParseError>)
        ensures
            r is Ok <==> normalize_value(s@, false) is Some,
            r matches Ok(cd) ==> normalize_value(s@, false) == Some(cd@),
    {
        match normalize_parameterized_value(s, false) {
            Some(value) => Ok(ContentDisposition(value)),
            None => Err(ContentDispositionParseError),
        }
    }

    /// Parses a content disposition from a string slice.
    pub fn try_from(s: &str) -> (r: Result<ContentDisposition, ContentDispositionParseError>)
        ensures
            r is Ok <==> normalize_value(s@, false) is Some,
            r matches Ok(cd) ==> normalize_value(s@, false) == Some(cd@),
    {
        Self::from_str(s)
    }

    /// The canonical string.
    pub fn as_str(&self) -> (r: &str)
        ensures
            r@ == self@,
    {
        self.0.as_str()
    }

    /// The canonical string, owned.
    pub fn to_string(&self) -> (r: String)
        ensures
            r@ == self@,
    {
        self.0.clone()
    }

    /// The disposition kind: the trimmed text before the first `;`.
    pub fn kind(&self) -> (r: &str)
        ensures
            r@ == window(self@, trimmed(self@, 0, media_end(self@))),
    {
        let s = self.0.as_str();
        let v = str_chars(s);
        proof {
            lemma_find_in_bounds(v@, ';', 0, v@.len() as int);
        }
        let end = match find_char(&v, ';', 0, v.len()) {
            Some(k) => k,
            None => v.len(),
        };
        let (a, b) = trim_window(&v, 0, end);
        s.substring_char(a, b)
    }

    /// `(name, value)` parameter pairs in declaration order.
    pub fn parameters(&self) -> (r: Vec<(&str, ParameterValue<'_>)>)
        ensures
            r@.len() == parameter_windows(self@).len(),
            forall|k: int| 0 <= k < r@.len() ==> (#[trigger] r@[k]).0@ == window(self@, parameter_windows(self@)[k].0)
                && r@[k].1.raw_view() == window(self@, parameter_windows(self@)[k].1),
    {
        parameters_of(self.0.as_str())
    }

    /// The first parameter called `name` (ASCII case-insensitive), in the
    /// order `parameters` lists them.
    pub fn parameter(&self, name: &str) -> (r: Option<ParameterValue<'_>>)
        ensures
            match r {
                None => lookup_parameter(self@, name@) is None,
                Some(p) => lookup_parameter(self@, name@) == Some(p.raw_view()),
            },
            first_match_is(
                self@,
                name@,
                match r {
                    None => None,
                    Some(p) => Some(p.raw_view()),
                },
            ),
    {
        proof {
            law_parameter_lookup_is_first_match(self@, name@);
        }
        parameter_of(self.0.as_str(), name)
    }

    /// The `filename` parameter, or else the `filename*` parameter.
    pub fn filename(&self) -> (r: Option<ParameterValue<'_>>)
        ensures
            match r {
                None => lookup_parameter(self@, "filename"@) is None && lookup_parameter(self@, "filename*"@) is None,
                Some(p) => lookup_parameter(self@, "filename"@) == Some(p.raw_view()) || (lookup_parameter(self@,
                    "filename"@) is None && lookup_parameter(self@, "filename*"@) == Some(p.raw_view())),
            },
    {
        match self.parameter("filename") {
            Some(p) => Some(p),
            None => self.parameter("filename*"),
        }
    }

    /// The kind is `inline` (ASCII case-insensitive).
    pub fn is_inline(&self) -> (r: bool)
        ensures
            r == eq_ignore_case(window(self@, trimmed(self@, 0, media_end(self@))), "inline"@),
    {
        str_eq_ignore_case(self.kind(), "inline")
    }

    /// The kind is `attachment` (ASCII case-insensitive).
    pub fn is_attachment(&self) -> (r: bool)
        ensures
            r == eq_ignore_case(window(self@, trimmed(self@, 0, media_end(self@))), "attachment"@),
    {
        str_eq_ignore_case(self.kind(), "attachment")
    }
}

// ---------------------------------------------------------------------------
// MIME tree
// ---------------------------------------------------------------------------

/// Low-level MIME tree node: a discrete leaf or a multipart composite.
#[derive(Debug, PartialEq, Eq)]
pub enum MimePart {
    Leaf {
        content_type: ContentType,
        content_transfer_encoding: Option<ContentTransferEncoding>,
        content_disposition: Option<ContentDisposition>,
        body: Vec<u8>,
    },
    Multipart { content_type: ContentType, boundary: Option<String>, parts: Vec<MimePart> },
}

/// A MIME tree as plain values: content types, transfer encodings and
/// dispositions by their text.
pub enum MimePartView {
    Leaf {
        content_type: Seq<char>,
        content_transfer_encoding: Option<Seq<char>>,
        content_disposition: Option<Seq<char>>,
        body: Seq<u8>,
    },
    Multipart { content_type: Seq<char>, boundary: Option<Seq<char>>, parts: Seq<MimePartView> },
}

pub open spec fn opt_encoding_view(e: Option<ContentTransferEncoding>) -> Option<Seq<char>> {
    match e {
        Some(x) => Some(encoding_name(x)),
        None => None,
    }
}

pub open spec fn opt_disposition_view(d: Option<ContentDisposition>) -> Option<Seq<char>> {
    match d {
        Some(x) => Some(x@),
        None => None,
    }
}

/// The view of a MIME tree.
pub open spec fn mime_view(p: MimePart) -> MimePartView
    decreases p,
{
    match p {
        MimePart::Leaf { content_type, content_transfer_encoding, content_disposition, body } => MimePartView::Leaf {
            content_type: content_type@,
            content_transfer_encoding: opt_encoding_view(content_transfer_encoding),
            content_disposition: opt_disposition_view(content_disposition),
            body: body@,
        },
        MimePart::Multipart { content_type, boundary, parts } => MimePartView::Multipart {
            content_type: content_type@,
            boundary: crate::text::opt_view(boundary),
            parts: Seq::new(
                parts@.len(),
                |i: int|
                    {
                        if 0 <= i < parts@.len() {
                            mime_view(parts@[i])
                        } else {
                            MimePartView::Leaf {
                                content_type: seq![],
                                content_transfer_encoding: None,
                                content_disposition: None,
                                body: seq![],
                            }
                        }
                    },
            ),
        },
    }
}

pub fn copy_encoding(e: &Option<ContentTransferEncoding>) -> (r: Option<ContentTransferEncoding>)
    ensures
        opt_encoding_view(r) == opt_encoding_view(*e),
{
    match e {
        None => None,
        Some(ContentTransferEncoding::SevenBit) => Some(ContentTransferEncoding::SevenBit),
        Some(ContentTransferEncoding::EightBit) => Some(ContentTransferEncoding::EightBit),
        Some(ContentTransferEncoding::Binary) => Some(ContentTransferEncoding::Binary),
        Some(ContentTransferEncoding::QuotedPrintable) => Some(ContentTransferEncoding::QuotedPrintable),
        Some(ContentTransferEncoding::Base64) => Some(ContentTransferEncoding::Base64),
        Some(ContentTransferEncoding::Other(s)) => Some(ContentTransferEncoding::Other(s.clone())),
    }
}

pub fn copy_disposition(d: &Option<ContentDisposition>) -> (r: Option<ContentDisposition>)
    ensures
        opt_disposition_view(r) == opt_disposition_view(*d),
{
    match d {
        None => None,
        Some(x) => Some(ContentDisposition(x.0.clone())),
    }
}

fn copy_bytes_vec(b: &Vec<u8>) -> (r: Vec<u8>)
    ensures
        r@ == b@,
{
    let mut out: Vec<u8> = Vec::new();
    let mut i: usize = 0;
    while i < b.len()
        invariant
            i <= b@.len(),
            out@ == b@.subrange(0, i as int),
        decreases b@.len() - i,
    {
        out.push(b[i]);
        i = i + 1;
        assert(out@ =~= b@.subrange(0, i as int));
    }
    assert(b@.subrange(0, b@.len() as int) =~= b@);
    out
}

impl MimePart {
    /// A copy of the whole tree.
    pub fn deep_clone(&self) -> (r: MimePart)
        ensures
            mime_view(r) == mime_view(*self),
        decreases self,
    {
        match self {
            MimePart::Leaf { content_type, content_transfer_encoding, content_disposition, body } => MimePart::Leaf {
                content_type: content_type.duplicate(),
                content_transfer_encoding: copy_encoding(content_transfer_encoding),
                content_disposition: copy_disposition(content_disposition),
                body: copy_bytes_vec(body),
            },
            MimePart::Multipart { content_type, boundary, parts } => {
                let mut copied: Vec<MimePart> = Vec::new();
                let mut i: usize = 0;
                while i < parts.len()
                    invariant
                        i <= parts@.len(),
                        copied@.len() == i,
                        *self == (MimePart::Multipart { content_type: *content_type, boundary: *boundary, parts: *parts }),
                        forall|j: int| 0 <= j < i ==> mime_view(#[trigger] copied@[j]) == mime_view(parts@[j]),
                    decreases parts@.len() - i,
                {
                    proof {
                        assert(decreases_to!(*self => self->parts));
                        assert(decreases_to!(*parts => parts@));
                        assert(decreases_to!(parts@ => parts@[i as int]));
                    }
                    copied.push(parts[i].deep_clone());
                    i = i + 1;
                }
                let r = MimePart::Multipart {
                    content_type: content_type.duplicate(),
                    boundary: crate::text::clone_opt_string_ref(boundary),
                    parts: copied,
                };
                proof {
                    let a = mime_view(r);
                    let b = mime_view(*self);
                    assert(a->Multipart_parts =~= b->Multipart_parts);
                }
                r
            },
        }
    }
}

impl Clone for MimePart {
    fn clone(&self) -> Self {
        self.deep_clone()
    }
}

impl std::str::FromStr for ContentType {
    type Err = ContentTypeParseError;

    fn from_str(s: &str) -> (r: Result<ContentType, ContentTypeParseError>)
        ensures
            r is Ok <==> normalize_value(s@, true) is Some,
            r matches Ok(ct) ==> normalize_value(s@, true) == Some(ct@),
    {
        ContentType::from_str(s)
    }
}

impl std::str::FromStr for ContentTransferEncoding {
    type Err = ContentTransferEncodingParseError;

    fn from_str(s: &str) -> (r: Result<ContentTransferEncoding, ContentTransferEncodingParseError>)
        ensures
            r is Ok <==> encoding_token_ok(s@),
            r matches Ok(e) ==> encoding_of(e, trim(s@)),
    {
        ContentTransferEncoding::from_str(s)
    }
}

impl std::str::FromStr for ContentDisposition {
    type Err = ContentDispositionParseError;

    fn from_str(s: &str) -> (r: Result<ContentDisposition, ContentDispositionParseError>)
        ensures
            r is Ok <==> normalize_value(s@, false) is Some,
            r matches Ok(cd) ==> normalize_value(s@, false) == Some(cd@),
    {
        ContentDisposition::from_str(s)
    }
}

} // verus!
