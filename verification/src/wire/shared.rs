//! Limits and byte helpers shared by the RFC 822 parser and renderer.
use vstd::prelude::*;

verus! {

/// Largest input, in bytes, that `parse_rfc822` accepts (16 MiB).
pub const MAX_INPUT_BYTES: usize = 16777216;

/// Deepest `multipart/*` nesting that parsing and rendering accept.
pub const MAX_MULTIPART_DEPTH: usize = 100;

/// Most sibling parts that one multipart body may hold when parsed.
pub const MAX_MULTIPART_PARTS: usize = 1024;

/// RFC 5322 hard limit on the characters of one line, CRLF excluded.
pub const RFC5322_HARD_LINE_LEN: usize = 998;

/// The value of an ASCII hexadecimal digit (either case).
pub open spec fn hex_digit(b: u8) -> Option<u8> {
    if 0x30 <= b && b <= 0x39 {
        Some((b - 0x30) as u8)
    } else if 0x41 <= b && b <= 0x46 {
        Some((b - 0x41 + 10) as u8)
    } else if 0x61 <= b && b <= 0x66 {
        Some((b - 0x61 + 10) as u8)
    } else {
        None
    }
}

pub fn hex_val(b: u8) -> (r: Option<u8>)
    ensures
        r == hex_digit(b),
        r matches Some(v) ==> v < 16,
{
    if 0x30 <= b && b <= 0x39 {
        Some(b - 0x30)
    } else if 0x41 <= b && b <= 0x46 {
        Some(b - 0x41 + 10)
    } else if 0x61 <= b && b <= 0x66 {
        Some(b - 0x61 + 10)
    } else {
        None
    }
}

/// Space or horizontal tab.
pub open spec fn is_lwsp(b: u8) -> bool {
    b == 0x20 || b == 0x09
}

/// The end of `s[..end]` once trailing spaces and tabs are dropped.
pub open spec fn lwsp_trim_end(s: Seq<u8>, end: int) -> int
    decreases end,
{
    if end > 0 && is_lwsp(s[end - 1]) {
        lwsp_trim_end(s, end - 1)
    } else {
        end
    }
}

pub proof fn lemma_lwsp_trim_end_bounds(s: Seq<u8>, end: int)
    requires
        0 <= end,
    ensures
        0 <= lwsp_trim_end(s, end) <= end,
        lwsp_trim_end(s, end) > 0 ==> !is_lwsp(s[lwsp_trim_end(s, end) - 1]),
        forall|i: int| lwsp_trim_end(s, end) <= i < end ==> is_lwsp(#[trigger] s[i]),
    decreases end,
{
    if end > 0 && is_lwsp(s[end - 1]) {
        lemma_lwsp_trim_end_bounds(s, end - 1);
    }
}

/// The end of `v[lo..hi]` without its trailing spaces and tabs, as an index
/// into `v`.
pub fn trim_lwsp_end(v: &[u8], lo: usize, hi: usize) -> (r: usize)
    requires
        lo <= hi <= v@.len(),
    ensures
        r - lo == lwsp_trim_end(v@.subrange(lo as int, hi as int), hi - lo),
        lo <= r <= hi,
{
    let ghost w = v@.subrange(lo as int, hi as int);
    let mut end = hi;
    while end > lo && (v[end - 1] == 0x20 || v[end - 1] == 0x09)
        invariant
            lo <= end <= hi <= v@.len(),
            w == v@.subrange(lo as int, hi as int),
            lwsp_trim_end(w, end - lo) == lwsp_trim_end(w, hi - lo),
        decreases end,
    {
        assert(w[end - lo - 1] == v@[end - 1]);
        end = end - 1;
    }
    proof {
        if end > lo {
            assert(w[end - lo - 1] == v@[end - 1]);
        }
    }
    end
}

/// `s[lo..hi] == t`.
pub open spec fn window_is(s: Seq<u8>, lo: int, hi: int, t: Seq<u8>) -> bool {
    s.subrange(lo, hi) == t
}

/// Executable `window_is`.
pub fn bytes_window_eq(v: &[u8], lo: usize, hi: usize, t: &[u8]) -> (r: bool)
    requires
        lo <= hi <= v@.len(),
    ensures
        r == (v@.subrange(lo as int, hi as int) == t@),
{
    if hi - lo != t.len() {
        proof {
            if v@.subrange(lo as int, hi as int) == t@ {
                assert(v@.subrange(lo as int, hi as int).len() == t@.len());
            }
        }
        return false;
    }
    let mut i: usize = 0;
    while i < t.len()
        invariant
            lo <= hi <= v@.len(),
            hi - lo == t@.len(),
            i <= t@.len(),
            forall|j: int| 0 <= j < i ==> v@[lo + j] == t@[j],
        decreases t@.len() - i,
    {
        if v[lo + i] != t[i] {
            proof {
                assert(v@.subrange(lo as int, hi as int)[i as int] != t@[i as int]);
            }
            return false;
        }
        i = i + 1;
    }
    assert(v@.subrange(lo as int, hi as int) =~= t@);
    true
}

/// The ASCII characters spelled by `b` (each byte read as a code point).
pub open spec fn latin1_chars(b: Seq<u8>) -> Seq<char> {
    Seq::new(b.len(), |i: int| (b[i] as u32) as char)
}

/// The bytes of ASCII text, one per character.
pub open spec fn ascii_bytes(s: Seq<char>) -> Seq<u8> {
    Seq::new(s.len(), |i: int| (s[i] as u32) as u8)
}

/// Appends the character with code point `b` (0..=255) to `out`.
pub fn push_latin1(out: &mut String, b: u8)
    ensures
        final(out)@ == old(out)@.push((b as u32) as char),
{
    let c: char = b as char;
    assert(c as u32 == b as u32);
    crate::text::push_char(out, c);
}

/// The characters of `v[lo..hi]`, each byte read as a code point.
pub fn latin1_string(v: &[u8], lo: usize, hi: usize) -> (r: String)
    requires
        lo <= hi <= v@.len(),
    ensures
        r@ == latin1_chars(v@.subrange(lo as int, hi as int)),
{
    let mut out = String::new();
    let mut i = lo;
    while i < hi
        invariant
            lo <= i <= hi <= v@.len(),
            out@ == latin1_chars(v@.subrange(lo as int, i as int)),
        decreases hi - i,
    {
        push_latin1(&mut out, v[i]);
        i = i + 1;
        assert(out@ =~= latin1_chars(v@.subrange(lo as int, i as int)));
    }
    out
}

/// The bytes of ASCII text.
pub fn ascii_to_bytes(s: &str) -> (r: Vec<u8>)
    requires
        crate::text::all_ascii(s@),
    ensures
        r@ == ascii_bytes(s@),
{
    let chars = crate::text::str_chars(s);
    let mut out: Vec<u8> = Vec::new();
    let mut i: usize = 0;
    while i < chars.len()
        invariant
            i <= chars@.len(),
            chars@ == s@,
            crate::text::all_ascii(s@),
            out@ == ascii_bytes(s@.subrange(0, i as int)),
        decreases chars@.len() - i,
    {
        let c = chars[i];
        assert(crate::text::is_ascii_char(s@[i as int]));
        let b: u8 = (c as u32) as u8;
        out.push(b);
        i = i + 1;
        assert(out@ =~= ascii_bytes(s@.subrange(0, i as int)));
    }
    assert(s@.subrange(0, s@.len() as int) =~= s@);
    out
}

/// The decimal digits of `n`.
pub open spec fn decimal(n: nat) -> Seq<char>
    decreases n,
{
    if n < 10 {
        seq![((n + 0x30) as u32) as char]
    } else {
        decimal(n / 10).push((((n % 10) + 0x30) as u32) as char)
    }
}

/// Appends the decimal digits of `n` to `out`.
pub fn push_decimal(out: &mut String, n: usize)
    ensures
        final(out)@ == old(out)@ + decimal(n as nat),
    decreases n,
{
    if n >= 10 {
        push_decimal(out, n / 10);
    }
    let d: u8 = (n % 10) as u8;
    let c: char = (d + 0x30) as char;
    crate::text::push_char(out, c);
    proof {
        if n < 10 {
            assert(decimal(n as nat) == seq![((n + 0x30) as u32) as char]);
        }
    }
}

} // verus!
