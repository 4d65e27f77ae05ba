//! Character-level helpers shared by the parsers and renderers.
use vstd::prelude::*;

verus! {

/// `c` is a 7-bit ASCII character.
pub open spec fn is_ascii_char(c: char) -> bool {
    (c as u32) < 0x80
}

/// Every character of `s` is ASCII.
pub open spec fn all_ascii(s: Seq<char>) -> bool {
    forall|i: int| 0 <= i < s.len() ==> is_ascii_char(#[trigger] s[i])
}

/// ASCII control characters: `U+0000..=U+001F` and `U+007F`.
pub open spec fn is_ascii_control_char(c: char) -> bool {
    (c as u32) < 0x20 || (c as u32) == 0x7f
}

/// The ASCII lowercase mapping of one character (non-letters are unchanged).
pub open spec fn lower_char(c: char) -> char {
    if 'A' <= c && c <= 'Z' {
        ((c as u32) + 32) as char
    } else {
        c
    }
}

/// ASCII lowercase of a whole character sequence.
pub open spec fn ascii_lower(s: Seq<char>) -> Seq<char> {
    Seq::new(s.len(), |i: int| lower_char(s[i]))
}

/// ASCII case-insensitive equality.
pub open spec fn eq_ignore_case(a: Seq<char>, b: Seq<char>) -> bool {
    ascii_lower(a) == ascii_lower(b)
}

/// What `char::is_whitespace` returns: the Unicode `White_Space` property,
/// which holds of U+0009 to U+000D, U+0020, U+0085, U+00A0, U+1680, U+2000
/// to U+200A, U+2028, U+2029, U+202F, U+205F and U+3000.
pub open spec fn unicode_white_space(c: char) -> bool {
    let u = c as u32;
    ||| 0x09 <= u <= 0x0D
    ||| u == 0x20
    ||| u == 0x85
    ||| u == 0xA0
    ||| u == 0x1680
    ||| 0x2000 <= u <= 0x200A
    ||| u == 0x2028
    ||| u == 0x2029
    ||| u == 0x202F
    ||| u == 0x205F
    ||| u == 0x3000
}

/// Whether `c` is Unicode white space, as `char::is_whitespace` answers.
pub fn char_is_whitespace(c: char) -> (r: bool)
    ensures
        r == unicode_white_space(c),
        is_ascii_char(c) ==> (r <==> (c == ' ' || c == '\t' || c == '\n' || c == '\r'
            || c == '\x0B' || c == '\x0C')),
{
    let u = c as u32;
    (0x09 <= u && u <= 0x0D) || u == 0x20 || u == 0x85 || u == 0xA0 || u == 0x1680 || (0x2000 <= u && u
        <= 0x200A) || u == 0x2028 || u == 0x2029 || u == 0x202F || u == 0x205F || u == 0x3000
}

/// Calls `String::push`, which appends one character.
#[verifier::external_body]
pub fn push_char(s: &mut String, c: char)
    ensures
        final(s)@ == old(s)@.push(c),
{
    s.push(c);
}

/// Appends `t` to `s`.
pub fn push_str(s: &mut String, t: &str)
    ensures
        final(s)@ == old(s)@ + t@,
{
    s.append(t);
}

/// The characters of `s`, in order.
pub fn str_chars(s: &str) -> (r: Vec<char>)
    ensures
        r@ == s@,
{
    let mut out: Vec<char> = Vec::new();
    broadcast use vstd::string::axiom_spec_iter;
    for c in it: s.chars()
        invariant
            out@ == it.seq().take(it.index() as int),
    {
        out.push(c);
    }
    assert(out@ == s@);
    out
}

/// A `String` holding exactly the characters `v[from..to]`.
pub fn string_from_chars(v: &[char], from: usize, to: usize) -> (r: String)
    requires
        from <= to <= v@.len(),
    ensures
        r@ == v@.subrange(from as int, to as int),
{
    let mut out = String::new();
    let mut i = from;
    while i < to
        invariant
            from <= i <= to <= v@.len(),
            out@ == v@.subrange(from as int, i as int),
        decreases to - i,
    {
        push_char(&mut out, v[i]);
        i = i + 1;
        assert(out@ == v@.subrange(from as int, i as int));
    }
    out
}

/// ASCII lowercase of one character.
pub fn to_lower_char(c: char) -> (r: char)
    ensures
        r == lower_char(c),
{
    if 'A' <= c && c <= 'Z' {
        let b: u32 = (c as u32) + 32;
        assert(b < 0x80);
        char_from_ascii(b as u8)
    } else {
        c
    }
}

/// The character with ASCII code `b`.
pub fn char_from_ascii(b: u8) -> (r: char)
    requires
        b < 0x80,
    ensures
        r == (b as u32) as char,
        r as u32 == b as u32,
{
    b as char
}

/// ASCII lowercase of `v[from..to]` as a `String`.
pub fn lower_string(v: &[char], from: usize, to: usize) -> (r: String)
    requires
        from <= to <= v@.len(),
    ensures
        r@ == ascii_lower(v@.subrange(from as int, to as int)),
{
    let mut out = String::new();
    let mut i = from;
    while i < to
        invariant
            from <= i <= to <= v@.len(),
            out@ == ascii_lower(v@.subrange(from as int, i as int)),
        decreases to - i,
    {
        let c = to_lower_char(v[i]);
        push_char(&mut out, c);
        i = i + 1;
        assert(out@ == ascii_lower(v@.subrange(from as int, i as int)));
    }
    out
}

/// First index in `lo..hi` that is not white space (or `hi`).
pub open spec fn trim_lo(s: Seq<char>, lo: int, hi: int) -> int
    decreases hi - lo,
{
    if lo < hi && unicode_white_space(s[lo]) {
        trim_lo(s, lo + 1, hi)
    } else {
        lo
    }
}

/// One past the last index in `lo..hi` that is not white space (or `lo`).
pub open spec fn trim_hi(s: Seq<char>, lo: int, hi: int) -> int
    decreases hi - lo,
{
    if lo < hi && unicode_white_space(s[hi - 1]) {
        trim_hi(s, lo, hi - 1)
    } else {
        hi
    }
}

/// The window `lo..hi` with leading and trailing white space removed, as
/// `str::trim` does.
pub open spec fn trimmed(s: Seq<char>, lo: int, hi: int) -> (int, int) {
    let a = trim_lo(s, lo, hi);
    (a, trim_hi(s, a, hi))
}

/// The characters of a window.
pub open spec fn window(s: Seq<char>, w: (int, int)) -> Seq<char> {
    s.subrange(w.0, w.1)
}

/// `str::trim` of a whole sequence.
pub open spec fn trim(s: Seq<char>) -> Seq<char> {
    window(s, trimmed(s, 0, s.len() as int))
}

/// First index of `c` in `lo..hi`.
pub open spec fn find_in(s: Seq<char>, c: char, lo: int, hi: int) -> Option<int>
    decreases hi - lo,
{
    if lo >= hi {
        None
    } else if s[lo] == c {
        Some(lo)
    } else {
        find_in(s, c, lo + 1, hi)
    }
}

pub proof fn lemma_trim_lo_bounds(s: Seq<char>, lo: int, hi: int)
    requires
        lo <= hi,
    ensures
        lo <= trim_lo(s, lo, hi) <= hi,
        forall|i: int| lo <= i < trim_lo(s, lo, hi) ==> unicode_white_space(#[trigger] s[i]),
        trim_lo(s, lo, hi) < hi ==> !unicode_white_space(s[trim_lo(s, lo, hi)]),
    decreases hi - lo,
{
    if lo < hi && unicode_white_space(s[lo]) {
        lemma_trim_lo_bounds(s, lo + 1, hi);
    }
}

pub proof fn lemma_trim_hi_bounds(s: Seq<char>, lo: int, hi: int)
    requires
        lo <= hi,
    ensures
        lo <= trim_hi(s, lo, hi) <= hi,
        forall|i: int| trim_hi(s, lo, hi) <= i < hi ==> unicode_white_space(#[trigger] s[i]),
        trim_hi(s, lo, hi) > lo ==> !unicode_white_space(s[trim_hi(s, lo, hi) - 1]),
    decreases hi - lo,
{
    if lo < hi && unicode_white_space(s[hi - 1]) {
        lemma_trim_hi_bounds(s, lo, hi - 1);
    }
}

pub proof fn lemma_trimmed_bounds(s: Seq<char>, lo: int, hi: int)
    requires
        lo <= hi,
    ensures
        lo <= trimmed(s, lo, hi).0 <= trimmed(s, lo, hi).1 <= hi,
{
    lemma_trim_lo_bounds(s, lo, hi);
    lemma_trim_hi_bounds(s, trim_lo(s, lo, hi), hi);
}

pub proof fn lemma_find_in_bounds(s: Seq<char>, c: char, lo: int, hi: int)
    ensures
        find_in(s, c, lo, hi) matches Some(k) ==> lo <= k < hi && s[k] == c,
        find_in(s, c, lo, hi) matches Some(k) ==> forall|i: int| lo <= i < k ==> s[i] != c,
        find_in(s, c, lo, hi) is None ==> forall|i: int| lo <= i < hi ==> s[i] != c,
    decreases hi - lo,
{
    if lo < hi && s[lo] != c {
        lemma_find_in_bounds(s, c, lo + 1, hi);
    }
}

/// Executable `trimmed`.
pub fn trim_window(v: &Vec<char>, lo: usize, hi: usize) -> (r: (usize, usize))
    requires
        lo <= hi <= v@.len(),
    ensures
        r.0 as int == trimmed(v@, lo as int, hi as int).0,
        r.1 as int == trimmed(v@, lo as int, hi as int).1,
        lo <= r.0 <= r.1 <= hi,
{
    proof {
        lemma_trimmed_bounds(v@, lo as int, hi as int);
    }
    let mut a = lo;
    while a < hi && char_is_whitespace(v[a])
        invariant
            lo <= a <= hi <= v@.len(),
            trim_lo(v@, a as int, hi as int) == trim_lo(v@, lo as int, hi as int),
        decreases hi - a,
    {
        a = a + 1;
    }
    let mut b = hi;
    while b > a && char_is_whitespace(v[b - 1])
        invariant
            lo <= a <= b <= hi <= v@.len(),
            a as int == trim_lo(v@, lo as int, hi as int),
            trim_hi(v@, a as int, b as int) == trim_hi(v@, a as int, hi as int),
        decreases b - a,
    {
        b = b - 1;
    }
    (a, b)
}

/// Executable `find_in`.
pub fn find_char(v: &Vec<char>, c: char, lo: usize, hi: usize) -> (r: Option<usize>)
    requires
        lo <= hi <= v@.len(),
    ensures
        match r {
            Some(k) => find_in(v@, c, lo as int, hi as int) == Some(k as int),
            None => find_in(v@, c, lo as int, hi as int) is None,
        },
{
    let mut i = lo;
    while i < hi
        invariant
            lo <= i <= hi <= v@.len(),
            find_in(v@, c, i as int, hi as int) == find_in(v@, c, lo as int, hi as int),
        decreases hi - i,
    {
        if v[i] == c {
            return Some(i);
        }
        i = i + 1;
    }
    None
}

/// A copy of `v[from..to]`.
pub fn sub_chars(v: &Vec<char>, from: usize, to: usize) -> (r: Vec<char>)
    requires
        from <= to <= v@.len(),
    ensures
        r@ == v@.subrange(from as int, to as int),
{
    let mut out: Vec<char> = Vec::new();
    let mut i = from;
    while i < to
        invariant
            from <= i <= to <= v@.len(),
            out@ == v@.subrange(from as int, i as int),
        decreases to - i,
    {
        out.push(v[i]);
        i = i + 1;
    }
    out
}

/// `eq_ignore_case` of a window and a whole sequence.
pub fn window_eq_ignore_case(v: &Vec<char>, lo: usize, hi: usize, t: &Vec<char>) -> (r: bool)
    requires
        lo <= hi <= v@.len(),
    ensures
        r == eq_ignore_case(v@.subrange(lo as int, hi as int), t@),
{
    let ghost w = v@.subrange(lo as int, hi as int);
    if hi - lo != t.len() {
        proof {
            if eq_ignore_case(w, t@) {
                assert(ascii_lower(w).len() == ascii_lower(t@).len());
            }
        }
        return false;
    }
    let mut i: usize = 0;
    while i < t.len()
        invariant
            lo <= hi <= v@.len(),
            hi - lo == t@.len(),
            i <= t@.len(),
            w == v@.subrange(lo as int, hi as int),
            forall|j: int| 0 <= j < i ==> lower_char(w[j]) == lower_char(t@[j]),
        decreases t@.len() - i,
    {
        if to_lower_char(v[lo + i]) != to_lower_char(t[i]) {
            proof {
                assert(ascii_lower(w)[i as int] != ascii_lower(t@)[i as int]);
            }
            return false;
        }
        i = i + 1;
    }
    assert(ascii_lower(w) =~= ascii_lower(t@));
    true
}

/// ASCII case-insensitive equality of two strings, as
/// `str::eq_ignore_ascii_case` computes it.
pub fn str_eq_ignore_case(a: &str, b: &str) -> (r: bool)
    ensures
        r == eq_ignore_case(a@, b@),
{
    let va = str_chars(a);
    let vb = str_chars(b);
    let r = window_eq_ignore_case(&va, 0, va.len(), &vb);
    assert(va@.subrange(0, va@.len() as int) =~= va@);
    r
}

} // verus!

verus! {

/// Appends the bytes of `b` to `out`.
pub fn push_bytes(out: &mut Vec<u8>, b: &[u8])
    ensures
        final(out)@ == old(out)@ + b@,
{
    let mut i: usize = 0;
    while i < b.len()
        invariant
            i <= b@.len(),
            out@ == old(out)@ + b@.subrange(0, i as int),
        decreases b@.len() - i,
    {
        out.push(b[i]);
        i = i + 1;
        assert(out@ =~= old(out)@ + b@.subrange(0, i as int));
    }
    assert(b@.subrange(0, b@.len() as int) =~= b@);
}

/// `Some(s@)` for `Some(s)`.
pub open spec fn opt_view(o: Option<String>) -> Option<Seq<char>> {
    match o {
        Some(s) => Some(s@),
        None => None,
    }
}

/// Whether `s` contains a CR or LF.
pub open spec fn has_newline(s: Seq<char>) -> bool {
    exists|i: int| 0 <= i < s.len() && (s[i] == '\r' || s[i] == '\n')
}

pub fn contains_newline(s: &str) -> (r: bool)
    ensures
        r == has_newline(s@),
{
    let v = str_chars(s);
    let mut i: usize = 0;
    while i < v.len()
        invariant
            i <= v@.len(),
            v@ == s@,
            forall|j: int| 0 <= j < i ==> !(v@[j] == '\r' || v@[j] == '\n'),
        decreases v@.len() - i,
    {
        if v[i] == '\r' || v[i] == '\n' {
            return true;
        }
        i = i + 1;
    }
    false
}

} // verus!

verus! {

pub fn clone_opt_string_ref(o: &Option<String>) -> (r: Option<String>)
    ensures
        opt_view(r) == opt_view(*o),
{
    match o {
        Some(s) => Some(s.clone()),
        None => None,
    }
}

} // verus!

verus! {

/// Exact equality of two strings.
pub fn str_eq(a: &str, b: &str) -> (r: bool)
    ensures
        r == (a@ == b@),
{
    let va = str_chars(a);
    let vb = str_chars(b);
    if va.len() != vb.len() {
        return false;
    }
    let mut i: usize = 0;
    while i < va.len()
        invariant
            va@ == a@,
            vb@ == b@,
            va@.len() == vb@.len(),
            i <= va@.len(),
            forall|j: int| 0 <= j < i ==> va@[j] == vb@[j],
        decreases va@.len() - i,
    {
        if va[i] != vb[i] {
            return false;
        }
        i = i + 1;
    }
    assert(va@ =~= vb@);
    true
}

} // verus!

verus! {

/// Calls `std::str::from_utf8` and copies the result. The standard library
/// documents that it fails exactly on bytes that are not UTF-8; the contract
/// says so with vstd's `valid_utf8` and `decode_utf8`.
#[verifier::external_body]
pub fn utf8_to_string(b: &[u8]) -> (r: Option<String>)
    ensures
        r is Some <==> vstd::utf8::valid_utf8(b@),
        r matches Some(s) ==> s@ == vstd::utf8::decode_utf8(b@),
{
    match std::str::from_utf8(b) {
        Ok(s) => Some(s.to_owned()),
        Err(_) => None,
    }
}

/// What `String::from_utf8_lossy` gives for `b`: the text, with each invalid
/// sequence replaced by U+FFFD.
pub uninterp spec fn utf8_lossy(b: Seq<u8>) -> Seq<char>;

/// Calls `String::from_utf8_lossy`. Its documentation states that valid UTF-8
/// comes back as that text, which the contract says; for other input it
/// names the result.
#[verifier::external_body]
pub fn utf8_lossy_string(b: &[u8]) -> (r: String)
    ensures
        r@ == utf8_lossy(b@),
        vstd::utf8::valid_utf8(b@) ==> r@ == vstd::utf8::decode_utf8(b@),
{
    String::from_utf8_lossy(b).into_owned()
}

} // verus!
