//! RFC 2047 encoded words: decoding header text and encoding non-ASCII text.
use vstd::prelude::*;
use vstd::utf8::{decode_utf8, encode_utf8, is_ascii_chars, valid_utf8};
use crate::address::{quoted, write_quoted};
use crate::text::{
    eq_ignore_case, find_char, find_in, lemma_find_in_bounds, push_char, push_str, str_chars, string_from_chars,
    utf8_to_string, window_eq_ignore_case,
};
use crate::wire::shared::{hex_digit, hex_val, latin1_chars, latin1_string};
use crate::wire::transfer_encoding::{
    base64_decode, base64_encode, base64_standard_decoding, base64_standard_encoding, is_base64_char, utf8_bytes,
};

verus! {

// ---------------------------------------------------------------------------
// Encoding
// ---------------------------------------------------------------------------

/// Bytes of the UTF-8 encoding of `c`.
pub open spec fn utf8_width(c: char) -> int {
    if (c as u32) < 0x80 {
        1
    } else if (c as u32) < 0x800 {
        2
    } else if (c as u32) < 0x10000 {
        3
    } else {
        4
    }
}

/// Bytes that one encoded word may carry: 75 characters less the
/// `=?utf-8?B?`/`?=` frame leave 63 base64 characters, that is 15 groups of 3.
pub open spec fn max_chunk_bytes() -> int {
    45
}

/// The end of the chunk that starts where `j` characters have been taken and
/// `used` bytes spent: characters are added while their UTF-8 bytes fit.
pub open spec fn chunk_end(s: Seq<char>, j: int, used: int) -> int
    decreases s.len() - j,
{
    if j < 0 || j >= s.len() || used + utf8_width(s[j]) > max_chunk_bytes() {
        j
    } else {
        chunk_end(s, j + 1, used + utf8_width(s[j]))
    }
}

pub proof fn lemma_chunk_end(s: Seq<char>, j: int, used: int)
    requires
        0 <= j <= s.len(),
    ensures
        j <= chunk_end(s, j, used) <= s.len(),
        j < s.len() && used + 4 <= max_chunk_bytes() ==> chunk_end(s, j, used) > j,
    decreases s.len() - j,
{
    if j < s.len() && used + utf8_width(s[j]) <= max_chunk_bytes() {
        lemma_chunk_end(s, j + 1, used + utf8_width(s[j]));
    }
}

/// One `=?utf-8?B?...?=` word carrying the UTF-8 bytes of `chunk`.
pub open spec fn b64_word(chunk: Seq<char>) -> Seq<char> {
    "=?utf-8?B?"@ + base64_standard_encoding(encode_utf8(chunk)) + "?="@
}

/// Encoded words for `s` from `i`, each carrying as many whole characters as
/// fit in 45 bytes, separated by single spaces.
pub open spec fn b64_words_from(s: Seq<char>, i: int) -> Seq<char>
    decreases s.len() - i,
{
    if i < 0 || i >= s.len() {
        seq![]
    } else {
        let e = chunk_end(s, i, 0);
        if e <= i || e > s.len() {
            seq![]
        } else if e == s.len() {
            b64_word(s.subrange(i, e))
        } else {
            b64_word(s.subrange(i, e)) + seq![' '] + b64_words_from(s, e)
        }
    }
}

/// The base64 text of `chunk`'s word decodes back to the chunk's UTF-8
/// bytes, uses only base64 characters and does not begin with `=`: what
/// the encoder learns of each word it writes.
pub open spec fn chunk_codes_back(chunk: Seq<char>) -> bool {
    let e = base64_standard_encoding(encode_utf8(chunk));
    &&& base64_standard_decoding(utf8_bytes(e)) == Some(encode_utf8(chunk))
    &&& forall|k: int| 0 <= k < e.len() ==> is_base64_char(#[trigger] e[k])
    &&& e.len() > 0 ==> e[0] != '='
}

/// Every chunk that `b64_words_from(s, i)` writes codes back.
pub open spec fn words_code_back(s: Seq<char>, i: int) -> bool
    decreases s.len() - i,
{
    if i < 0 || i >= s.len() {
        true
    } else {
        let e = chunk_end(s, i, 0);
        if e <= i || e > s.len() {
            true
        } else {
            chunk_codes_back(s.subrange(i, e)) && words_code_back(s, e)
        }
    }
}

/// An unstructured header value as written: ASCII as is, anything else as
/// encoded words.
pub open spec fn unstructured_encoded(s: Seq<char>) -> Seq<char> {
    if is_ascii_chars(s) {
        s
    } else {
        b64_words_from(s, 0)
    }
}

/// A display-name phrase as written: ASCII as a quoted string, anything else
/// as encoded words.
pub open spec fn phrase_encoded(s: Seq<char>) -> Seq<char> {
    if is_ascii_chars(s) {
        quoted(s)
    } else {
        b64_words_from(s, 0)
    }
}

fn char_width(c: char) -> (r: usize)
    ensures
        r == utf8_width(c),
        1 <= r <= 4,
{
    let u = c as u32;
    if u < 0x80 {
        1
    } else if u < 0x800 {
        2
    } else if u < 0x10000 {
        3
    } else {
        4
    }
}

fn push_b64_word(out: &mut String, v: &Vec<char>, lo: usize, hi: usize)
    requires
        lo <= hi <= v@.len(),
    ensures
        final(out)@ == old(out)@ + b64_word(v@.subrange(lo as int, hi as int)),
        chunk_codes_back(v@.subrange(lo as int, hi as int)),
{
    let chunk = string_from_chars(v.as_slice(), lo, hi);
    let encoded = base64_encode(chunk.as_str().as_bytes());
    push_str(out, "=?utf-8?B?");
    push_str(out, encoded.as_str());
    push_str(out, "?=");
    assert(final(out)@ =~= old(out)@ + b64_word(v@.subrange(lo as int, hi as int)));
}

fn encode_rfc2047_utf8_base64_words(input: &str) -> (r: String)
    ensures
        r@ == b64_words_from(input@, 0),
        words_code_back(input@, 0),
{
    let v = str_chars(input);
    let mut out = String::new();
    let mut idx: usize = 0;
    while idx < v.len()
        invariant
            v@ == input@,
            idx <= v@.len(),
            b64_words_from(input@, 0) == out@ + b64_words_from(input@, idx as int),
            words_code_back(input@, idx as int) ==> words_code_back(input@, 0),
        decreases v@.len() - idx,
    {
        let ghost s = v@;
        let mut end = idx;
        let mut used: usize = 0;
        while end < v.len() && used + char_width(v[end]) <= 45
            invariant
                s == v@,
                idx <= end <= v@.len(),
                used <= 45,
                chunk_end(s, end as int, used as int) == chunk_end(s, idx as int, 0),
            decreases v@.len() - end,
        {
            used = used + char_width(v[end]);
            end = end + 1;
        }
        proof {
            lemma_chunk_end(s, idx as int, 0);
        }
        let ghost before = out@;
        push_b64_word(&mut out, &v, idx, end);
        if end == v.len() {
            assert(out@ + seq![] =~= out@);
            assert(b64_words_from(s, end as int) == Seq::<char>::empty());
            idx = end;
        } else {
            push_char(&mut out, ' ');
            assert(before + (b64_word(s.subrange(idx as int, end as int)) + seq![' '] + b64_words_from(s, end as int))
                =~= out@ + b64_words_from(s, end as int));
            idx = end;
        }
    }
    assert(out@ + seq![] =~= out@);
    out
}

/// Encodes an unstructured header value. The result decodes back to the
/// input unless the input is ASCII text that itself holds `=?`.
pub fn encode_rfc2047_unstructured(input: &str) -> (r: String)
    ensures
        r@ == unstructured_encoded(input@),
        (!is_ascii_chars(input@) || find_pair(input@, 0, '=', '?') is None) ==> rfc2047_decoded(r@) == input@,
{
    if input.is_ascii() {
        return input.to_owned();
    }
    let r = encode_rfc2047_utf8_base64_words(input);
    proof {
        lemma_b64_words_round_trip(input@);
    }
    r
}

/// Encodes a display-name phrase. A phrase that is not all ASCII decodes
/// back to itself.
pub fn encode_rfc2047_phrase(input: &str) -> (r: String)
    ensures
        r@ == phrase_encoded(input@),
        !is_ascii_chars(input@) ==> rfc2047_decoded(r@) == input@,
{
    if input.is_ascii() {
        let mut out = String::new();
        write_quoted(input, &mut out);
        assert(out@ =~= quoted(input@));
        return out;
    }
    let r = encode_rfc2047_utf8_base64_words(input);
    proof {
        lemma_b64_words_round_trip(input@);
    }
    r
}

} // verus!

verus! {

// ---------------------------------------------------------------------------
// Decoding
// ---------------------------------------------------------------------------

/// The first index `k >= i` with `s[k] == a` and `s[k + 1] == b`.
pub open spec fn find_pair(s: Seq<char>, i: int, a: char, b: char) -> Option<int>
    decreases s.len() - i,
{
    if i < 0 || i + 1 >= s.len() {
        None
    } else if s[i] == a && s[i + 1] == b {
        Some(i)
    } else {
        find_pair(s, i + 1, a, b)
    }
}

pub proof fn lemma_find_pair(s: Seq<char>, i: int, a: char, b: char)
    requires
        0 <= i,
    ensures
        find_pair(s, i, a, b) matches Some(k) ==> i <= k && k + 1 < s.len() && s[k] == a && s[k + 1] == b,
        find_pair(s, i, a, b) matches Some(k) ==> forall|j: int| i <= j < k ==> !(s[j] == a && #[trigger] s[j + 1] == b),
        find_pair(s, i, a, b) is None ==> forall|j: int| i <= j && j + 1 < s.len() ==> !(s[j] == a && #[trigger] s[j + 1] == b),
    decreases s.len() - i,
{
    if i + 1 < s.len() && !(s[i] == a && s[i + 1] == b) {
        lemma_find_pair(s, i + 1, a, b);
    }
}

fn find_pair_exec(v: &Vec<char>, from: usize, a: char, b: char) -> (r: Option<usize>)
    requires
        from <= v@.len(),
    ensures
        match r {
            Some(k) => find_pair(v@, from as int, a, b) == Some(k as int),
            None => find_pair(v@, from as int, a, b) is None,
        },
{
    let mut i = from;
    while v.len() > 1 && i < v.len() - 1
        invariant
            from <= i <= v@.len(),
            find_pair(v@, i as int, a, b) == find_pair(v@, from as int, a, b),
        decreases v@.len() - i,
    {
        if v[i] == a && v[i + 1] == b {
            return Some(i);
        }
        i = i + 1;
    }
    None
}

/// The bytes of RFC 2047 `Q` text from `i`: `_` is a space, `=XX` a hex
/// byte, anything else itself. `None` for a broken escape.
pub open spec fn q_decoded(t: Seq<u8>, i: int) -> Option<Seq<u8>>
    decreases t.len() - i,
{
    if i < 0 || i >= t.len() {
        Some(seq![])
    } else if t[i] == 0x5f {
        match q_decoded(t, i + 1) {
            Some(r) => Some(seq![0x20u8] + r),
            None => None,
        }
    } else if t[i] == 0x3d {
        if i + 2 >= t.len() {
            None
        } else {
            match (hex_digit(t[i + 1]), hex_digit(t[i + 2])) {
                (Some(h), Some(l)) => match q_decoded(t, i + 3) {
                    Some(r) => Some(seq![(h * 16 + l) as u8] + r),
                    None => None,
                },
                _ => None,
            }
        }
    } else {
        match q_decoded(t, i + 1) {
            Some(r) => Some(seq![t[i]] + r),
            None => None,
        }
    }
}

fn decode_rfc2047_q(t: &[u8]) -> (r: Option<Vec<u8>>)
    ensures
        match r {
            Some(v) => q_decoded(t@, 0) == Some(v@),
            None => q_decoded(t@, 0) is None,
        },
{
    let mut out: Vec<u8> = Vec::new();
    let mut i: usize = 0;
    while i < t.len()
        invariant
            i <= t@.len(),
            q_decoded(t@, 0) == match q_decoded(t@, i as int) {
                Some(r) => Some(out@ + r),
                None => None,
            },
        decreases t@.len() - i,
    {
        let b = t[i];
        if b == 0x5f {
            out.push(0x20);
            proof {
                match q_decoded(t@, i + 1) {
                    Some(r) => assert(out@.drop_last() + (seq![0x20u8] + r) =~= out@ + r),
                    None => {},
                }
            }
            i = i + 1;
        } else if b == 0x3d {
            if t.len() - i <= 2 {
                return None;
            }
            let h = match hex_val(t[i + 1]) {
                Some(h) => h,
                None => return None,
            };
            let l = match hex_val(t[i + 2]) {
                Some(l) => l,
                None => return None,
            };
            let x: u8 = h * 16 + l;
            out.push(x);
            proof {
                match q_decoded(t@, i + 3) {
                    Some(r) => assert(out@.drop_last() + (seq![x] + r) =~= out@ + r),
                    None => {},
                }
            }
            i = i + 3;
        } else {
            out.push(b);
            proof {
                match q_decoded(t@, i + 1) {
                    Some(r) => assert(out@.drop_last() + (seq![b] + r) =~= out@ + r),
                    None => {},
                }
            }
            i = i + 1;
        }
    }
    assert(out@ + seq![] =~= out@);
    Some(out)
}

/// Text in a charset this decoder supports: UTF-8 and US-ASCII must be valid
/// UTF-8; ISO-8859-1 maps each byte to its code point.
pub open spec fn charset_decoded(b: Seq<u8>, charset: Seq<char>) -> Option<Seq<char>> {
    if eq_ignore_case(charset, "utf-8"@) || eq_ignore_case(charset, "us-ascii"@) {
        if valid_utf8(b) {
            Some(decode_utf8(b))
        } else {
            None
        }
    } else if eq_ignore_case(charset, "iso-8859-1"@) || eq_ignore_case(charset, "latin1"@) {
        Some(latin1_chars(b))
    } else {
        None
    }
}

/// The text of the encoded word `s[lo..hi]` (which starts with `=?` and ends
/// with `?=`): `charset?encoding?text` between the delimiters, with a `B`
/// (base64) or `Q` encoding and a supported charset. A word too short to hold
/// both delimiters apart is no encoded word.
pub open spec fn decoded_word(s: Seq<char>, lo: int, hi: int) -> Option<Seq<char>> {
    if hi - lo < 4 {
        None
    } else {
        match find_in(s, '?', lo + 2, hi - 2) {
            None => None,
            Some(q1) => match find_in(s, '?', q1 + 1, hi - 2) {
                None => None,
                Some(q2) => {
                    let charset = s.subrange(lo + 2, q1);
                    let enc = s.subrange(q1 + 1, q2);
                    let text = encode_utf8(s.subrange(q2 + 1, hi - 2));
                    let bytes = if eq_ignore_case(enc, "B"@) {
                        base64_standard_decoding(text)
                    } else if eq_ignore_case(enc, "Q"@) {
                        q_decoded(text, 0)
                    } else {
                        None
                    };
                    match bytes {
                        Some(b) => charset_decoded(b, charset),
                        None => None,
                    }
                },
            },
        }
    }
}

fn decode_charset(b: &[u8], v: &Vec<char>, lo: usize, hi: usize) -> (r: Option<String>)
    requires
        lo <= hi <= v@.len(),
    ensures
        match r {
            Some(x) => charset_decoded(b@, v@.subrange(lo as int, hi as int)) == Some(x@),
            None => charset_decoded(b@, v@.subrange(lo as int, hi as int)) is None,
        },
{
    let utf8 = str_chars("utf-8");
    let us_ascii = str_chars("us-ascii");
    let latin1_long = str_chars("iso-8859-1");
    let latin1 = str_chars("latin1");
    if window_eq_ignore_case(v, lo, hi, &utf8) || window_eq_ignore_case(v, lo, hi, &us_ascii) {
        return utf8_to_string(b);
    }
    if window_eq_ignore_case(v, lo, hi, &latin1_long) || window_eq_ignore_case(v, lo, hi, &latin1) {
        return Some(latin1_string(b, 0, b.len()));
    }
    None
}

fn decode_rfc2047_word(v: &Vec<char>, lo: usize, hi: usize) -> (r: Option<String>)
    requires
        lo <= hi <= v@.len(),
    ensures
        match r {
            Some(x) => decoded_word(v@, lo as int, hi as int) == Some(x@),
            None => decoded_word(v@, lo as int, hi as int) is None,
        },
{
    if hi - lo < 4 {
        return None;
    }
    let q1 = match find_char(v, '?', lo + 2, hi - 2) {
        Some(q) => q,
        None => return None,
    };
    proof {
        lemma_find_in_bounds(v@, '?', lo + 2, hi - 2);
    }
    let q2 = match find_char(v, '?', q1 + 1, hi - 2) {
        Some(q) => q,
        None => return None,
    };
    proof {
        lemma_find_in_bounds(v@, '?', q1 + 1, hi - 2);
    }
    let text = string_from_chars(v.as_slice(), q2 + 1, hi - 2);
    let b_name = str_chars("B");
    let q_name = str_chars("Q");
    let bytes = if window_eq_ignore_case(v, q1 + 1, q2, &b_name) {
        base64_decode(text.as_str().as_bytes())
    } else if window_eq_ignore_case(v, q1 + 1, q2, &q_name) {
        decode_rfc2047_q(text.as_str().as_bytes())
    } else {
        None
    };
    match bytes {
        Some(b) => decode_charset(b.as_slice(), v, lo + 2, q1),
        None => None,
    }
}

/// The encoded word that starts at `st` (where `=?` stands): it ends at the
/// first `?=` after `st`. Its text and its length, when it decodes.
pub open spec fn word_at(s: Seq<char>, st: int) -> Option<(Seq<char>, int)> {
    match find_pair(s, st, '?', '=') {
        None => None,
        Some(k) => match decoded_word(s, st, k + 2) {
            Some(d) => Some((d, k + 2 - st)),
            None => None,
        },
    }
}

fn try_decode_rfc2047_word(v: &Vec<char>, st: usize) -> (r: Option<(String, usize)>)
    requires
        st <= v@.len(),
    ensures
        match r {
            Some((d, c)) => word_at(v@, st as int) == Some((d@, c as int)) && st + c <= v@.len() && c >= 2,
            None => word_at(v@, st as int) is None,
        },
{
    let k = match find_pair_exec(v, st, '?', '=') {
        Some(k) => k,
        None => return None,
    };
    proof {
        lemma_find_pair(v@, st as int, '?', '=');
    }
    assert(k + 1 < v@.len());
    assert(k + 2 <= v.len());
    let end = k + 2;
    match decode_rfc2047_word(v, st, end) {
        Some(d) => Some((d, end - st)),
        None => None,
    }
}

/// Only spaces and tabs.
pub open spec fn all_lwsp_chars(p: Seq<char>) -> bool {
    forall|i: int| 0 <= i < p.len() ==> (#[trigger] p[i] == ' ' || p[i] == '\t')
}

/// The decoder's output after scanning `s` from `idx`, where `prev` records
/// that the last thing consumed was an encoded word and `out` is the text
/// produced so far (`None` before anything was written). Plain text is
/// copied; `=?` that starts a decodable word is replaced by the word's text;
/// white space between two decodable words is dropped; any other `=?` is
/// copied and scanning resumes after it. When text is first written to an
/// empty buffer after the start, everything before `idx` is copied first.
pub open spec fn words_from(s: Seq<char>, idx: int, prev: bool, out: Option<Seq<char>>) -> Option<Seq<char>>
    decreases s.len() - idx,
{
    if idx < 0 || idx >= s.len() {
        out
    } else {
        match find_pair(s, idx, '=', '?') {
            None => match out {
                Some(b) => Some(b + s.subrange(idx, s.len() as int)),
                None => None,
            },
            Some(st) => {
                if st < idx || st + 2 > s.len() {
                    out
                } else {
                    let plain = s.subrange(idx, st);
                    if prev && plain.len() > 0 && all_lwsp_chars(plain) && word_at(s, st) is Some {
                        words_from(s, st, prev, out)
                    } else {
                        let buf0 = match out {
                            Some(b) => b,
                            None => seq![],
                        };
                        let buf1 = if buf0.len() == 0 && idx > 0 {
                            buf0 + s.subrange(0, idx)
                        } else {
                            buf0
                        };
                        let buf2 = buf1 + plain;
                        match word_at(s, st) {
                            Some((d, c)) => if c >= 2 && st + c <= s.len() {
                                words_from(s, st + c, true, Some(buf2 + d))
                            } else {
                                out
                            },
                            None => words_from(s, st + 2, false, Some(buf2 + seq!['=', '?'])),
                        }
                    }
                }
            },
        }
    }
}

/// Header text with its RFC 2047 encoded words decoded.
pub open spec fn rfc2047_decoded(s: Seq<char>) -> Seq<char> {
    if find_pair(s, 0, '=', '?') is None {
        s
    } else {
        match words_from(s, 0, false, None) {
            Some(b) => b,
            None => s,
        }
    }
}

proof fn lemma_find_pair_first(s: Seq<char>, i: int, k: int, a: char, b: char)
    requires
        0 <= i <= k,
        k + 1 < s.len(),
        s[k] == a && s[k + 1] == b,
        forall|j: int| i <= j < k ==> !(s[j] == a && #[trigger] s[j + 1] == b),
    ensures
        find_pair(s, i, a, b) == Some(k),
    decreases k - i,
{
    if i < k {
        assert(!(s[i] == a && s[i + 1] == b));
        lemma_find_pair_first(s, i + 1, k, a, b);
    }
}

proof fn lemma_find_in_first(s: Seq<char>, c: char, lo: int, hi: int, k: int)
    requires
        lo <= k < hi,
        s[k] == c,
        forall|j: int| lo <= j < k ==> s[j] != c,
    ensures
        find_in(s, c, lo, hi) == Some(k),
    decreases k - lo,
{
    if lo < k {
        lemma_find_in_first(s, c, lo + 1, hi, k);
    }
}

/// A word written for `chunk` at `p` is read back as `chunk`, and `=?`
/// stands at `p`.
proof fn lemma_b64_word_at(w: Seq<char>, p: int, chunk: Seq<char>)
    requires
        0 <= p,
        chunk_codes_back(chunk),
        p + b64_word(chunk).len() <= w.len(),
        w.subrange(p, p + b64_word(chunk).len()) == b64_word(chunk),
    ensures
        word_at(w, p) == Some((chunk, b64_word(chunk).len() as int)),
        find_pair(w, p, '=', '?') == Some(p),
        b64_word(chunk).len() >= 12,
{
    broadcast use vstd::utf8::encode_utf8_valid_utf8, vstd::utf8::encode_utf8_decode_utf8;
    reveal_strlit("=?utf-8?B?");
    reveal_strlit("?=");
    reveal_strlit("utf-8");
    reveal_strlit("B");
    let e = base64_standard_encoding(encode_utf8(chunk));
    let word = b64_word(chunk);
    let n = word.len() as int;
    let m = e.len() as int;
    assert(n == 12 + m);
    assert forall|j: int| 0 <= j < n implies w[p + j] == #[trigger] word[j] by {
        assert(w.subrange(p, p + n)[j] == w[p + j]);
    }
    assert(word[0] == '=' && word[1] == '?' && word[2] == 'u' && word[3] == 't' && word[4] == 'f');
    assert(word[5] == '-' && word[6] == '8' && word[7] == '?' && word[8] == 'B' && word[9] == '?');
    assert(word[n - 2] == '?' && word[n - 1] == '=');
    assert forall|j: int| 0 <= j < m implies word[10 + j] == #[trigger] e[j] by {}
    assert(w[p] == word[0] && w[p + 1] == word[1]);
    assert(find_pair(w, p, '=', '?') == Some(p));
    // The first `?=` closes the word.
    let k = p + 10 + m;
    assert(w[k] == word[10 + m] && w[k + 1] == word[11 + m]);
    assert forall|j: int| p <= j < k implies !(w[j] == '?' && #[trigger] w[j + 1] == '=') by {
        let d = j - p;
        assert(w[j] == word[d]);
        assert(w[j + 1] == word[d + 1]);
        if d >= 10 {
            assert(word[d] == e[d - 10]);
            assert(is_base64_char(e[d - 10]));
        } else if d == 9 {
            if m > 0 {
                assert(word[10] == e[0]);
            } else {
                assert(word[10] == '?');
            }
        }
    }
    lemma_find_pair_first(w, p, k, '?', '=');
    assert(find_pair(w, p, '?', '=') == Some(k));
    // Inside the word: charset `utf-8`, encoding `B`, the base64 text.
    let hi = p + n;
    assert(w[p + 7] == '?');
    assert forall|j: int| p + 2 <= j < p + 7 implies w[j] != '?' by {
        assert(w[j] == word[j - p]);
    }
    lemma_find_in_first(w, '?', p + 2, hi - 2, p + 7);
    assert(w[p + 8] == 'B' && w[p + 9] == '?');
    lemma_find_in_first(w, '?', p + 8, hi - 2, p + 9);
    let charset = w.subrange(p + 2, p + 7);
    let enc = w.subrange(p + 8, p + 9);
    let text = w.subrange(p + 10, hi - 2);
    assert(charset =~= "utf-8"@);
    assert(enc =~= "B"@);
    assert(text =~= e);
    assert(eq_ignore_case(charset, "utf-8"@));
    assert(eq_ignore_case(enc, "B"@));
    assert(base64_standard_decoding(encode_utf8(text)) == Some(encode_utf8(chunk)));
    assert(charset_decoded(encode_utf8(chunk), charset) == Some(chunk));
    assert(decoded_word(w, p, hi) == Some(chunk));
}

/// Decoding the words written for `s` from chunk `i` on, starting at `p`
/// where the first of them stands, appends `s[i..]` to what was decoded.
proof fn lemma_b64_words_decode(s: Seq<char>, i: int, w: Seq<char>, p: int, prev: bool, out: Option<Seq<char>>)
    requires
        0 <= i < s.len(),
        words_code_back(s, i),
        0 <= p <= w.len(),
        w.subrange(p, w.len() as int) == b64_words_from(s, i),
        (out is None && p == 0 && !prev) || (out matches Some(b) && b.len() > 0),
    ensures
        words_from(w, p, prev, out) == Some(
            match out {
                Some(b) => b,
                None => seq![],
            } + s.subrange(i, s.len() as int),
        ),
    decreases s.len() - i,
{
    let e = chunk_end(s, i, 0);
    lemma_chunk_end(s, i, 0);
    let chunk = s.subrange(i, e);
    let word = b64_word(chunk);
    let n = word.len() as int;
    let rest = b64_words_from(s, i);
    assert(rest.subrange(0, n) =~= word);
    assert(w.subrange(p, p + n) =~= rest.subrange(0, n));
    lemma_b64_word_at(w, p, chunk);
    let prefix = match out {
        Some(b) => b,
        None => seq![],
    };
    assert(w.subrange(p, p) =~= Seq::<char>::empty());
    assert(prefix + Seq::<char>::empty() =~= prefix);
    let next = Some(prefix + chunk);
    assert(words_from(w, p, prev, out) == words_from(w, p + n, true, next));
    if e == s.len() {
        assert(chunk =~= s.subrange(i, s.len() as int));
    } else {
        let p2 = p + n + 1;
        assert(rest =~= word + seq![' '] + b64_words_from(s, e));
        assert(w[p + n] == rest[n]);
        assert(w.subrange(p2, w.len() as int) =~= rest.subrange(n + 1, rest.len() as int));
        assert(rest.subrange(n + 1, rest.len() as int) =~= b64_words_from(s, e));
        let e2 = chunk_end(s, e, 0);
        lemma_chunk_end(s, e, 0);
        assert(words_code_back(s, e));
        assert(chunk_codes_back(s.subrange(e, e2)));
        let word2 = b64_word(s.subrange(e, e2));
        let rest2 = b64_words_from(s, e);
        assert(rest2.subrange(0, word2.len() as int) =~= word2);
        assert(w.subrange(p2, p2 + word2.len()) =~= rest2.subrange(0, word2.len() as int));
        lemma_b64_word_at(w, p2, s.subrange(e, e2));
        assert(w[p + n] != '=');
        assert(find_pair(w, p + n, '=', '?') == Some(p2));
        let plain = w.subrange(p + n, p2);
        assert(plain =~= seq![' ']);
        assert(all_lwsp_chars(plain));
        assert(words_from(w, p + n, true, next) == words_from(w, p2, true, next));
        lemma_b64_words_decode(s, e, w, p2, true, next);
        assert(prefix + chunk + s.subrange(e, s.len() as int) =~= prefix + s.subrange(i, s.len() as int));
    }
}

/// Words written for a non-empty text decode back to that text.
pub proof fn lemma_b64_words_round_trip(s: Seq<char>)
    requires
        s.len() > 0,
        words_code_back(s, 0),
    ensures
        rfc2047_decoded(b64_words_from(s, 0)) == s,
{
    let w = b64_words_from(s, 0);
    let e = chunk_end(s, 0, 0);
    lemma_chunk_end(s, 0, 0);
    let word = b64_word(s.subrange(0, e));
    assert(w.subrange(0, word.len() as int) =~= word);
    lemma_b64_word_at(w, 0, s.subrange(0, e));
    assert(w.subrange(0, w.len() as int) =~= w);
    lemma_b64_words_decode(s, 0, w, 0, false, None);
    assert(Seq::<char>::empty() + s.subrange(0, s.len() as int) =~= s);
}

/// Decodes RFC 2047 encoded words in `input` (UTF-8, US-ASCII and
/// ISO-8859-1 charsets; other words are kept as written).
pub fn decode_rfc2047_phrase(input: &str) -> (r: String)
    ensures
        r@ == rfc2047_decoded(input@),
{
    decode_rfc2047_words(input)
}

fn push_window(out: &mut String, v: &Vec<char>, lo: usize, hi: usize)
    requires
        lo <= hi <= v@.len(),
    ensures
        final(out)@ == old(out)@ + v@.subrange(lo as int, hi as int),
{
    let mut i = lo;
    while i < hi
        invariant
            lo <= i <= hi <= v@.len(),
            out@ == old(out)@ + v@.subrange(lo as int, i as int),
        decreases hi - i,
    {
        push_char(out, v[i]);
        i = i + 1;
        assert(out@ =~= old(out)@ + v@.subrange(lo as int, i as int));
    }
}

fn lwsp_window(v: &Vec<char>, lo: usize, hi: usize) -> (r: bool)
    requires
        lo <= hi <= v@.len(),
    ensures
        r == all_lwsp_chars(v@.subrange(lo as int, hi as int)),
{
    let mut j = lo;
    while j < hi
        invariant
            lo <= j <= hi <= v@.len(),
            all_lwsp_chars(v@.subrange(lo as int, j as int)),
        decreases hi - j,
    {
        if !(v[j] == ' ' || v[j] == '\t') {
            assert(v@.subrange(lo as int, hi as int)[j - lo] == v@[j as int]);
            return false;
        }
        assert(all_lwsp_chars(v@.subrange(lo as int, j + 1))) by {
            let a = v@.subrange(lo as int, j + 1);
            assert forall|i: int| 0 <= i < a.len() implies (#[trigger] a[i] == ' ' || a[i] == '\t') by {
                if i < j - lo {
                    assert(a[i] == v@.subrange(lo as int, j as int)[i]);
                }
            }
        }
        j = j + 1;
    }
    true
}

pub fn decode_rfc2047_words(input: &str) -> (r: String)
    ensures
        r@ == rfc2047_decoded(input@),
{
    let v = str_chars(input);
    if find_pair_exec(&v, 0, '=', '?').is_none() {
        return input.to_owned();
    }
    let ghost s = v@;
    let mut out = String::new();
    let mut has_out = false;
    let mut idx: usize = 0;
    let mut prev = false;
    while idx < v.len()
        invariant
            v@ == s,
            s == input@,
            idx <= s.len(),
            !has_out ==> out@ == Seq::<char>::empty(),
            has_out || (idx == 0 && !prev),
            find_pair(s, 0, '=', '?') is Some,
            words_from(s, 0, false, None) == words_from(
                s,
                idx as int,
                prev,
                if has_out {
                    Some(out@)
                } else {
                    None
                },
            ),
        decreases s.len() - idx,
    {
        match find_pair_exec(&v, idx, '=', '?') {
            None => {
                let ghost old_out = out@;
                if has_out {
                    push_window(&mut out, &v, idx, v.len());
                }
                assert(words_from(s, idx as int, prev, if has_out { Some(old_out) } else { None }) == words_from(s, s.len() as int, prev, if has_out { Some(out@) } else { None }));
                idx = v.len();
            },
            Some(st) => {
                proof {
                    lemma_find_pair(s, idx as int, '=', '?');
                }
                let plain_lwsp = lwsp_window(&v, idx, st);
                let word = try_decode_rfc2047_word(&v, st);
                if prev && st > idx && plain_lwsp && word.is_some() {
                    assert(words_from(s, idx as int, prev, if has_out { Some(out@) } else { None }) == words_from(s, st as int, prev, if has_out { Some(out@) } else { None }));
                    idx = st;
                } else {
                    let ghost cur = if has_out { Some(out@) } else { None::<Seq<char>> };
                    has_out = true;
                    if out.as_str().is_empty() && idx > 0 {
                        push_window(&mut out, &v, 0, idx);
                    }
                    push_window(&mut out, &v, idx, st);
                    match word {
                        Some((d, c)) => {
                            push_str(&mut out, d.as_str());
                            assert(words_from(s, idx as int, prev, cur) == words_from(s, st + c, true, Some(out@)));
                            idx = st + c;
                            prev = true;
                        },
                        None => {
                            let ghost b2 = out@;
                            push_char(&mut out, '=');
                            push_char(&mut out, '?');
                            assert(out@ =~= b2 + seq!['=', '?']);
                            assert(words_from(s, idx as int, prev, cur) == words_from(s, st + 2, false, Some(out@)));
                            idx = st + 2;
                            prev = false;
                        },
                    }
                }
            },
        }
    }
    proof {
        lemma_find_pair(s, 0, '=', '?');
    }
    assert(has_out);
    out
}

} // verus!

verus! {

// ---------------------------------------------------------------------------
// Encoded words inside quoted strings
// ---------------------------------------------------------------------------

/// Scanning characters from `i` (inside quotes or not, after a backslash
/// or not), an `=?` turns up inside a quoted string.
pub open spec fn quoted_word_from(s: Seq<char>, i: int, in_q: bool, esc: bool) -> bool
    decreases s.len() - i,
{
    if i < 0 || i >= s.len() {
        false
    } else if esc {
        quoted_word_from(s, i + 1, in_q, false)
    } else if s[i] == '\\' && in_q {
        quoted_word_from(s, i + 1, in_q, true)
    } else if s[i] == '"' {
        quoted_word_from(s, i + 1, !in_q, false)
    } else if s[i] == '=' && in_q && i + 1 < s.len() && s[i + 1] == '?' {
        true
    } else {
        quoted_word_from(s, i + 1, in_q, false)
    }
}

/// The characters from `i`, with every `=` that starts `=?` inside a quoted
/// string written `\=`.
pub open spec fn escaped_from(s: Seq<char>, i: int, in_q: bool, esc: bool) -> Seq<char>
    decreases s.len() - i,
{
    if i < 0 || i >= s.len() {
        seq![]
    } else if esc {
        seq![s[i]] + escaped_from(s, i + 1, in_q, false)
    } else if in_q && s[i] == '=' && i + 1 < s.len() && s[i + 1] == '?' {
        seq!['\\', '='] + escaped_from(s, i + 1, in_q, false)
    } else if s[i] == '\\' && in_q {
        seq!['\\'] + escaped_from(s, i + 1, in_q, true)
    } else if s[i] == '"' {
        seq!['"'] + escaped_from(s, i + 1, !in_q, false)
    } else {
        seq![s[i]] + escaped_from(s, i + 1, in_q, false)
    }
}

/// An address header value with encoded-word lead-ins inside quoted strings
/// escaped (RFC 2047 forbids encoded words there); unchanged when there is
/// none. Every other character comes through as it was.
pub open spec fn quoted_words_escaped(s: Seq<char>) -> Seq<char> {
    if quoted_word_from(s, 0, false, false) {
        escaped_from(s, 0, false, false)
    } else {
        s
    }
}

pub fn escape_encoded_words_inside_quoted_strings(input: &str) -> (r: String)
    ensures
        r@ == quoted_words_escaped(input@),
{
    let v = crate::text::str_chars(input);
    let ghost c = v@;
    let mut needs_escape = false;
    let mut i: usize = 0;
    let mut in_quotes = false;
    let mut escaped_pair = false;
    while i < v.len() && !needs_escape
        invariant
            c == v@,
            c == input@,
            i <= c.len(),
            needs_escape ==> quoted_word_from(c, 0, false, false),
            !needs_escape ==> quoted_word_from(c, 0, false, false) == quoted_word_from(
                c,
                i as int,
                in_quotes,
                escaped_pair,
            ),
        decreases c.len() - i,
    {
        let ch = v[i];
        if escaped_pair {
            escaped_pair = false;
        } else if ch == '\\' && in_quotes {
            escaped_pair = true;
        } else if ch == '"' {
            in_quotes = !in_quotes;
        } else if ch == '=' && in_quotes && i + 1 < v.len() && v[i + 1] == '?' {
            needs_escape = true;
        }
        i = i + 1;
    }
    proof {
        if !needs_escape {
            assert(!quoted_word_from(c, 0, false, false));
        } else {
            assert(quoted_word_from(c, 0, false, false));
        }
    }
    if !needs_escape {
        return input.to_owned();
    }
    let mut out = String::new();
    in_quotes = false;
    escaped_pair = false;
    let mut idx: usize = 0;
    while idx < v.len()
        invariant
            c == v@,
            idx <= c.len(),
            escaped_from(c, 0, false, false) == out@ + escaped_from(c, idx as int, in_quotes, escaped_pair),
        decreases c.len() - idx,
    {
        let ghost before = out@;
        let ch = v[idx];
        if escaped_pair {
            escaped_pair = false;
            push_char(&mut out, ch);
        } else if in_quotes && ch == '=' && idx + 1 < v.len() && v[idx + 1] == '?' {
            push_char(&mut out, '\\');
            push_char(&mut out, '=');
        } else if ch == '\\' && in_quotes {
            escaped_pair = true;
            push_char(&mut out, '\\');
        } else if ch == '"' {
            in_quotes = !in_quotes;
            push_char(&mut out, '"');
        } else {
            push_char(&mut out, ch);
        }
        let ghost added = out@.subrange(before.len() as int, out@.len() as int);
        assert(out@ =~= before + added);
        idx = idx + 1;
    }
    assert(out@ + seq![] =~= out@);
    out
}

} // verus!
