//! The parts of a `Content-Type` value that the MIME parser and renderer use.
use vstd::prelude::*;
use crate::mime_types::{seg_spans, split_segments, unquote, unquote_chars};
use crate::text::{
    ascii_lower, eq_ignore_case, find_char, find_in, lemma_find_in_bounds, lemma_trimmed_bounds, lower_string,
    push_char, push_str, str_chars, string_from_chars, sub_chars, trim, trim_window, trimmed, window,
    window_eq_ignore_case,
};

verus! {

/// A parameter value as the MIME code reads it: trimmed, then unquoted.
pub open spec fn param_value(raw: Seq<char>) -> Seq<char> {
    unquote(trim(raw))
}

/// The name and value windows of the parameter segment `seg`: the segment
/// trimmed and split at its first `=`, each side trimmed.
pub open spec fn param_parts(s: Seq<char>, seg: (int, int)) -> Option<((int, int), (int, int))> {
    let t = trimmed(s, seg.0, seg.1);
    match find_in(s, '=', t.0, t.1) {
        None => None,
        Some(q) => Some((trimmed(s, t.0, q), trimmed(s, q + 1, t.1))),
    }
}

/// What the parser takes from a `Content-Type` value.
pub struct ContentTypeHeaderView {
    /// The media type segment and the non-boundary parameters, joined by `;`.
    pub normalized: Seq<char>,
    /// The media type, lowercased.
    pub media_type: Seq<char>,
    /// The last non-empty `boundary` parameter.
    pub boundary: Option<Seq<char>>,
    /// The last non-empty `charset` parameter.
    pub charset: Option<Seq<char>>,
}

/// Parts joined by `;`.
pub open spec fn join_semicolons(parts: Seq<Seq<char>>) -> Seq<char>
    decreases parts.len(),
{
    if parts.len() == 0 {
        seq![]
    } else if parts.len() == 1 {
        parts[0]
    } else {
        join_semicolons(parts.drop_last()) + seq![';'] + parts.last()
    }
}

/// State while reading parameters: normalized parts, boundary, charset.
pub type CtState = (Seq<Seq<char>>, Option<Seq<char>>, Option<Seq<char>>);

/// Reading parameter segments `k..` of `spans`.
pub open spec fn ct_params_from(s: Seq<char>, spans: Seq<(int, int)>, k: int, st: CtState) -> CtState
    decreases spans.len() - k,
{
    if k < 1 || k >= spans.len() {
        st
    } else {
        match param_parts(s, spans[k]) {
            None => ct_params_from(s, spans, k + 1, st),
            Some((nw, vw)) => {
                let name = window(s, nw);
                let raw = window(s, vw);
                if eq_ignore_case(name, "boundary"@) {
                    let b = param_value(raw);
                    ct_params_from(s, spans, k + 1, (st.0, if b.len() > 0 { Some(b) } else { st.1 }, st.2))
                } else {
                    let c = param_value(raw);
                    let part = name + seq!['='] + raw;
                    let charset = if eq_ignore_case(name, "charset"@) && c.len() > 0 {
                        Some(c)
                    } else {
                        st.2
                    };
                    ct_params_from(s, spans, k + 1, (st.0.push(part), st.1, charset))
                }
            },
        }
    }
}

/// A `Content-Type` value as the MIME parser reads it.
pub open spec fn content_type_header(value: Seq<char>) -> ContentTypeHeaderView {
    let t = trimmed(value, 0, value.len() as int);
    let spans = seg_spans(value, t.0, t.1);
    let mt = window(value, trimmed(value, spans[0].0, spans[0].1));
    let st = ct_params_from(value, spans, 1, (seq![mt], None, None));
    ContentTypeHeaderView {
        normalized: join_semicolons(st.0),
        media_type: ascii_lower(mt),
        boundary: st.1,
        charset: st.2,
    }
}

/// The parsed header, as values.
pub struct ContentTypeHeader {
    pub normalized: String,
    pub media_type: String,
    pub boundary: Option<String>,
    pub charset: Option<String>,
}

impl View for ContentTypeHeader {
    type V = ContentTypeHeaderView;

    open spec fn view(&self) -> ContentTypeHeaderView {
        ContentTypeHeaderView {
            normalized: self.normalized@,
            media_type: self.media_type@,
            boundary: crate::text::opt_view(self.boundary),
            charset: crate::text::opt_view(self.charset),
        }
    }
}

fn param_value_exec(v: &Vec<char>, lo: usize, hi: usize) -> (r: String)
    requires
        lo <= hi <= v@.len(),
    ensures
        r@ == param_value(v@.subrange(lo as int, hi as int)),
{
    let w = sub_chars(v, lo, hi);
    let (a, b) = trim_window(&w, 0, w.len());
    let t = sub_chars(&w, a, b);
    assert(w@.subrange(0, w@.len() as int) =~= w@);
    unquote_chars(&t)
}

fn param_parts_exec(v: &Vec<char>, lo: usize, hi: usize) -> (r: Option<((usize, usize), (usize, usize))>)
    requires
        lo <= hi <= v@.len(),
    ensures
        match r {
            None => param_parts(v@, (lo as int, hi as int)) is None,
            Some((n, x)) => param_parts(v@, (lo as int, hi as int)) == Some(
                ((n.0 as int, n.1 as int), (x.0 as int, x.1 as int)),
            ) && n.0 <= n.1 <= v@.len() && x.0 <= x.1 <= v@.len(),
        },
{
    let (a, b) = trim_window(v, lo, hi);
    match find_char(v, '=', a, b) {
        None => None,
        Some(q) => {
            proof {
                lemma_find_in_bounds(v@, '=', a as int, b as int);
            }
            let n = trim_window(v, a, q);
            let x = trim_window(v, q + 1, b);
            Some((n, x))
        },
    }
}

fn join_parts(parts: &Vec<String>) -> (r: String)
    ensures
        r@ == join_semicolons(Seq::new(parts@.len(), |i: int| parts@[i]@)),
{
    let ghost ps = Seq::new(parts@.len(), |i: int| parts@[i]@);
    let mut out = String::new();
    let mut i: usize = 0;
    while i < parts.len()
        invariant
            i <= parts@.len(),
            ps == Seq::new(parts@.len(), |i: int| parts@[i]@),
            out@ == join_semicolons(ps.subrange(0, i as int)),
        decreases parts@.len() - i,
    {
        if i > 0 {
            push_char(&mut out, ';');
        }
        push_str(&mut out, parts[i].as_str());
        proof {
            let pre = ps.subrange(0, i + 1);
            assert(pre.drop_last() =~= ps.subrange(0, i as int));
            assert(pre.last() == parts@[i as int]@);
        }
        i = i + 1;
    }
    assert(ps.subrange(0, ps.len() as int) =~= ps);
    out
}

impl ContentTypeHeader {
    /// Reads a `Content-Type` value.
    pub fn parse(value: &str) -> (r: ContentTypeHeader)
        ensures
            r@ == content_type_header(value@),
    {
        let v = str_chars(value);
        let (ta, tb) = trim_window(&v, 0, v.len());
        let spans = split_segments(&v, ta, tb);
        let ghost sp = seg_spans(v@, ta as int, tb as int);
        let (ma, mb) = trim_window(&v, spans[0].0, spans[0].1);
        let media = string_from_chars(v.as_slice(), ma, mb);
        let media_type = lower_string(v.as_slice(), ma, mb);
        let mut parts: Vec<String> = Vec::new();
        parts.push(media);
        let mut boundary: Option<String> = None;
        let mut charset: Option<String> = None;
        let ghost first: CtState = (seq![window(v@, (ma as int, mb as int))], None, None);
        assert(Seq::new(parts@.len(), |i: int| parts@[i]@) =~= first.0);
        let b_name = str_chars("boundary");
        let c_name = str_chars("charset");
        let mut k: usize = 1;
        while k < spans.len()
            invariant
                1 <= k <= spans@.len(),
                spans@.len() == sp.len(),
                forall|j: int| 0 <= j < spans@.len() ==> (#[trigger] spans@[j]).0 as int == sp[j].0 && spans@[j].1 as int
                    == sp[j].1,
                forall|j: int| 0 <= j < spans@.len() ==> (#[trigger] spans@[j]).0 <= spans@[j].1 <= v@.len(),
                b_name@ == "boundary"@,
                c_name@ == "charset"@,
                ct_params_from(v@, sp, 1, first) == ct_params_from(
                    v@,
                    sp,
                    k as int,
                    (
                        Seq::new(parts@.len(), |i: int| parts@[i]@),
                        crate::text::opt_view(boundary),
                        crate::text::opt_view(charset),
                    ),
                ),
            decreases spans@.len() - k,
        {
            let (lo, hi) = spans[k];
            assert(sp[k as int] == (lo as int, hi as int));
            match param_parts_exec(&v, lo, hi) {
                None => {},
                Some((nw, vw)) => {
                    if window_eq_ignore_case(&v, nw.0, nw.1, &b_name) {
                        let b = param_value_exec(&v, vw.0, vw.1);
                        if !b.as_str().is_empty() {
                            boundary = Some(b);
                        }
                    } else {
                        let c = param_value_exec(&v, vw.0, vw.1);
                        let mut part = string_from_chars(v.as_slice(), nw.0, nw.1);
                        push_char(&mut part, '=');
                        let raw = string_from_chars(v.as_slice(), vw.0, vw.1);
                        push_str(&mut part, raw.as_str());
                        assert(part@ =~= window(v@, (nw.0 as int, nw.1 as int)) + seq!['='] + window(
                            v@,
                            (vw.0 as int, vw.1 as int),
                        ));
                        let ghost before = Seq::new(parts@.len(), |i: int| parts@[i]@);
                        parts.push(part);
                        assert(Seq::new(parts@.len(), |i: int| parts@[i]@) =~= before.push(part@));
                        if window_eq_ignore_case(&v, nw.0, nw.1, &c_name) && !c.as_str().is_empty() {
                            charset = Some(c);
                        }
                    }
                },
            }
            k = k + 1;
        }
        let normalized = join_parts(&parts);
        ContentTypeHeader { normalized, media_type, boundary, charset }
    }
}

} // verus!

verus! {

/// The first non-empty `boundary` parameter among segments `k..`.
pub open spec fn first_boundary(s: Seq<char>, spans: Seq<(int, int)>, k: int) -> Option<Seq<char>>
    decreases spans.len() - k,
{
    if k < 1 || k >= spans.len() {
        None
    } else {
        match param_parts(s, spans[k]) {
            Some((nw, vw)) => if eq_ignore_case(window(s, nw), "boundary"@) && param_value(window(s, vw)).len() > 0 {
                Some(param_value(window(s, vw)))
            } else {
                first_boundary(s, spans, k + 1)
            },
            None => first_boundary(s, spans, k + 1),
        }
    }
}

/// The first non-empty `boundary` parameter of a `Content-Type` value.
pub open spec fn boundary_param(value: Seq<char>) -> Option<Seq<char>> {
    first_boundary(value, seg_spans(value, 0, value.len() as int), 1)
}

pub fn extract_boundary_param(value: &str) -> (r: Option<String>)
    ensures
        crate::text::opt_view(r) == boundary_param(value@),
{
    let v = str_chars(value);
    let spans = split_segments(&v, 0, v.len());
    let ghost sp = seg_spans(v@, 0, v@.len() as int);
    let b_name = str_chars("boundary");
    let mut k: usize = 1;
    while k < spans.len()
        invariant
            1 <= k <= spans@.len(),
            spans@.len() == sp.len(),
            forall|j: int| 0 <= j < spans@.len() ==> (#[trigger] spans@[j]).0 as int == sp[j].0 && spans@[j].1 as int
                == sp[j].1,
            forall|j: int| 0 <= j < spans@.len() ==> (#[trigger] spans@[j]).0 <= spans@[j].1 <= v@.len(),
            b_name@ == "boundary"@,
            v@ == value@,
            sp == seg_spans(v@, 0, v@.len() as int),
            first_boundary(v@, sp, 1) == first_boundary(v@, sp, k as int),
        decreases spans@.len() - k,
    {
        let (lo, hi) = spans[k];
        assert(sp[k as int] == (lo as int, hi as int));
        match param_parts_exec(&v, lo, hi) {
            None => {},
            Some((nw, vw)) => {
                if window_eq_ignore_case(&v, nw.0, nw.1, &b_name) {
                    let b = param_value_exec(&v, vw.0, vw.1);
                    if !b.as_str().is_empty() {
                        return Some(b);
                    }
                }
            },
        }
        k = k + 1;
    }
    None
}

} // verus!
