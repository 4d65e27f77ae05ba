//! Validated RFC 5322 `addr-spec` email addresses.
use vstd::prelude::*;
use crate::text::{ascii_lower, lower_string, push_char, push_str, str_chars, string_from_chars};

verus! {

/// What `addr_spec::AddrSpec::from_str` yields for `input`, converted to
/// plain values: `None` when it fails, else whether the domain is an
/// address literal, and the local part and domain as parsed
/// (`AddrSpec::into_parts`).
pub uninterp spec fn addr_spec_parts(input: Seq<char>) -> Option<(bool, Seq<char>, Seq<char>)>;

#[verifier::external_type_specification]
#[verifier::external_body]
pub struct ExAddrSpecParseError(addr_spec::ParseError);

/// Runs the `addr_spec` parser (`AddrSpec::from_str`) and converts a
/// successful result into plain values with `AddrSpec::is_literal` and
/// `AddrSpec::into_parts`. The contract claims only that the outcome is the
/// named function of the input. A lone `"` is left out: the parser would
/// allocate a zero-sized buffer for the quoted string that follows it.
#[verifier::external_body]
fn parse_addr_spec(input: &str) -> (r: Result<(bool, String, String), addr_spec::ParseError>)
    requires
        input@ != seq!['"'],
    ensures
        r is Ok <==> addr_spec_parts(input@) is Some,
        r matches Ok((lit, local, domain)) ==> addr_spec_parts(input@) == Some((lit, local@, domain@)),
{
    match <addr_spec::AddrSpec as std::str::FromStr>::from_str(input) {
        Ok(parsed) => {
            let literal = parsed.is_literal();
            let (local, domain) = parsed.into_parts();
            Ok((literal, local, domain))
        },
        Err(error) => Err(error),
    }
}

/// A character outside RFC 5322 `atext` and `.`: an ASCII control, a
/// space, or one of `"(),:<>@[]\`.
pub open spec fn is_not_atext(c: char) -> bool {
    (c as u32) < 0x20 || (c as u32) == 0x7f || c == ' ' || c == '"' || c == '(' || c == ')' || c == ','
        || c == ':' || c == '<' || c == '>' || c == '@' || c == '[' || c == ']' || c == '\\'
}

/// Position `j` of a local part forces quoting: the character is outside
/// `atext`, or it is a dot that closes an empty dot-separated segment.
pub open spec fn forces_quoting_at(l: Seq<char>, j: int) -> bool {
    is_not_atext(l[j]) || (l[j] == '.' && (j == 0 || l[j - 1] == '.'))
}

/// Whether a local part is written quoted: some dot-separated segment is
/// empty or holds a character outside `atext`.
pub open spec fn needs_quoting(l: Seq<char>) -> bool {
    l.len() == 0 || l[l.len() - 1] == '.' || exists|j: int| 0 <= j < l.len() && forces_quoting_at(l, j)
}

/// A character that a quoted local part writes after a backslash.
pub open spec fn is_quoted_escape(c: char) -> bool {
    c == '\\' || c == '"' || c == ' ' || c == '\t'
}

/// The first `n` characters of a local part with a backslash before each
/// backslash, quote, space and tab.
pub open spec fn escaped_local(l: Seq<char>, n: int) -> Seq<char>
    decreases n,
{
    if n <= 0 {
        seq![]
    } else {
        escaped_local(l, n - 1) + if is_quoted_escape(l[n - 1]) {
            seq!['\\', l[n - 1]]
        } else {
            seq![l[n - 1]]
        }
    }
}

/// A local part as it is written in an address: in quotes, escaped, when it
/// needs quoting, else as it is.
pub open spec fn serialized_local(l: Seq<char>) -> Seq<char> {
    if needs_quoting(l) {
        seq!['"'] + escaped_local(l, l.len() as int) + seq!['"']
    } else {
        l
    }
}

/// A parsed `addr-spec` as plain values: whether the domain is a literal,
/// the written local part and the domain; `None` when it does not parse (a
/// lone `"` is an unclosed quoted local part).
pub open spec fn addr_spec_serialized(input: Seq<char>) -> Option<(bool, Seq<char>, Seq<char>)> {
    if input == seq!['"'] {
        None
    } else {
        match addr_spec_parts(input) {
            None => None,
            Some((lit, local, domain)) => Some((lit, serialized_local(local), domain)),
        }
    }
}

/// Writes a local part as an address holds it: quoted and escaped when
/// some dot-separated segment is empty or holds a character outside
/// `atext`.
pub fn serialize_local(local: &str) -> (r: String)
    ensures
        r@ == serialized_local(local@),
{
    let v = str_chars(local);
    let n = v.len();
    let mut quote = n == 0 || v[n - 1] == '.';
    let mut i: usize = 0;
    while i < n
        invariant
            v@ == local@,
            n == v@.len(),
            i <= n,
            quote == (n == 0 || v@[n - 1] == '.' || exists|j: int| 0 <= j < i && forces_quoting_at(v@, j)),
        decreases n - i,
    {
        let c = v[i];
        let u = c as u32;
        let not_atext = u < 0x20 || u == 0x7f || c == ' ' || c == '"' || c == '(' || c == ')' || c == ','
            || c == ':' || c == '<' || c == '>' || c == '@' || c == '[' || c == ']' || c == '\\';
        if not_atext || (c == '.' && (i == 0 || v[i - 1] == '.')) {
            assert(forces_quoting_at(v@, i as int));
            quote = true;
        }
        proof {
            if !quote {
                assert(!forces_quoting_at(v@, i as int));
            }
            assert((exists|j: int| 0 <= j < i + 1 && forces_quoting_at(v@, j)) == ((exists|j: int|
                0 <= j < i && forces_quoting_at(v@, j)) || forces_quoting_at(v@, i as int)));
        }
        i = i + 1;
    }
    if !quote {
        assert(v@.subrange(0, n as int) =~= v@);
        return string_from_chars(v.as_slice(), 0, n);
    }
    let mut out = String::new();
    push_char(&mut out, '"');
    let mut k: usize = 0;
    while k < n
        invariant
            v@ == local@,
            n == v@.len(),
            k <= n,
            out@ == seq!['"'] + escaped_local(v@, k as int),
        decreases n - k,
    {
        let c = v[k];
        if c == '\\' || c == '"' || c == ' ' || c == '\t' {
            push_char(&mut out, '\\');
        }
        push_char(&mut out, c);
        assert(out@ =~= seq!['"'] + escaped_local(v@, k + 1));
        k = k + 1;
    }
    push_char(&mut out, '"');
    out
}

/// The stored form of a parsed address: local part verbatim, `@`, and the
/// domain ASCII-lowercased unless it is an address literal.
pub open spec fn normalized_address(lit: bool, local: Seq<char>, domain: Seq<char>) -> Seq<char> {
    local + seq!['@'] + if lit {
        domain
    } else {
        ascii_lower(domain)
    }
}

/// The address that `EmailAddress::from_str` stores for `input`, if any.
pub open spec fn parsed_address(input: Seq<char>) -> Option<Seq<char>> {
    match addr_spec_serialized(input) {
        None => None,
        Some((lit, local, domain)) => Some(normalized_address(lit, local, domain)),
    }
}

/// A validated RFC 5322 `addr-spec` email address with a case-folded domain.
#[derive(Debug, PartialEq, Eq, Hash)]
pub struct EmailAddress {
    value: String,
}

impl View for EmailAddress {
    type V = Seq<char>;

    closed spec fn view(&self) -> Seq<char> {
        self.value@
    }
}

impl Clone for EmailAddress {
    fn clone(&self) -> (r: Self)
        ensures
            r@ == self@,
    {
        EmailAddress { value: self.value.clone() }
    }
}

/// Why an address failed `addr-spec` validation: the parser's error, or a
/// lone `"` (a quoted local part that is never closed).
#[derive(Debug)]
enum AddrSpecFailure {
    Parser(addr_spec::ParseError),
    UnclosedQuote,
}

/// Error returned when an address fails `addr-spec` validation.
#[derive(Debug)]
pub struct EmailAddressParseError {
    source: AddrSpecFailure,
}

/// Builds `local@domain`, lowercasing the domain unless it is a literal.
pub(crate) fn join_address(lit: bool, local: &str, domain: &str) -> (r: String)
    ensures
        r@ == normalized_address(lit, local@, domain@),
{
    let mut out = String::new();
    push_str(&mut out, local);
    push_char(&mut out, '@');
    if lit {
        push_str(&mut out, domain);
    } else {
        let d = str_chars(domain);
        let lowered = lower_string(d.as_slice(), 0, d.len());
        assert(d@.subrange(0, d@.len() as int) =~= d@);
        push_str(&mut out, lowered.as_str());
    }
    assert(out@ =~= normalized_address(lit, local@, domain@));
    out
}

/// Parses an `addr-spec` into whether its domain is a literal, its written
/// local part and its domain.
pub(crate) fn parse_addr_spec_checked(input: &str) -> (r: Result<(bool, String, String), EmailAddressParseError>)
    ensures
        r is Ok <==> addr_spec_serialized(input@) is Some,
        r matches Ok((lit, local, domain)) ==> addr_spec_serialized(input@) == Some((lit, local@, domain@)),
{
    let chars = str_chars(input);
    if chars.len() == 1 && chars[0] == '"' {
        assert(input@ =~= seq!['"']);
        return Err(EmailAddressParseError { source: AddrSpecFailure::UnclosedQuote });
    }
    match parse_addr_spec(input) {
        Ok((lit, local, domain)) => Ok((lit, serialize_local(local.as_str()), domain)),
        Err(source) => Err(EmailAddressParseError { source: AddrSpecFailure::Parser(source) }),
    }
}

impl EmailAddress {
    /// Parses and validates an address, case-folding a non-literal domain.
    pub fn from_str(s: &str) -> (r: Result<EmailAddress, EmailAddressParseError>)
        ensures
            r is Ok <==> parsed_address(s@) is Some,
            r matches Ok(e) ==> parsed_address(s@) == Some(e@),
    {
        match parse_addr_spec_checked(s) {
            Ok((lit, local, domain)) => Ok(EmailAddress { value: join_address(lit, local.as_str(), domain.as_str()) }),
            Err(e) => Err(e),
        }
    }

    /// Parses and validates an address from a string slice.
    pub fn try_from(s: &str) -> (r: Result<EmailAddress, EmailAddressParseError>)
        ensures
            r is Ok <==> parsed_address(s@) is Some,
            r matches Ok(e) ==> parsed_address(s@) == Some(e@),
    {
        Self::from_str(s)
    }

    /// The normalized address.
    pub fn as_str(&self) -> (r: &str)
        ensures
            r@ == self@,
    {
        self.value.as_str()
    }

    /// The normalized address, owned.
    pub fn to_string(&self) -> (r: String)
        ensures
            r@ == self@,
    {
        self.value.clone()
    }

    /// Consumes the address, returning the normalized string.
    pub fn into_string(self) -> (r: String)
        ensures
            r@ == self@,
    {
        self.value
    }
}

impl std::str::FromStr for EmailAddress {
    type Err = EmailAddressParseError;

    fn from_str(s: &str) -> (r: Result<EmailAddress, EmailAddressParseError>)
        ensures
            r is Ok <==> parsed_address(s@) is Some,
            r matches Ok(e) ==> parsed_address(s@) == Some(e@),
    {
        EmailAddress::from_str(s)
    }
}

} // verus!
