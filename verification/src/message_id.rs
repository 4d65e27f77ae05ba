//! Validated RFC 5322 `Message-ID` values.
use vstd::prelude::*;
use crate::email::{EmailAddressParseError, addr_spec_serialized, join_address, normalized_address};
use crate::text::{find_char, find_in, lemma_find_in_bounds, push_char, push_str, str_chars, string_from_chars, trim_window,
    trimmed, unicode_white_space, char_is_whitespace};

verus! {

/// A validated `Message-ID` field value, stored as `<local@domain>` with a
/// case-folded (non-literal) domain.
#[derive(Debug, PartialEq, Eq, Hash)]
pub struct MessageId(String);

impl View for MessageId {
    type V = Seq<char>;

    closed spec fn view(&self) -> Seq<char> {
        self.0@
    }
}

impl Clone for MessageId {
    fn clone(&self) -> (r: Self)
        ensures
            r@ == self@,
    {
        MessageId(self.0.clone())
    }
}

/// Reasons a string cannot be parsed as a `Message-ID`.
#[derive(Debug)]
pub enum MessageIdParseError {
    MissingBrackets,
    ContainsWhitespace,
    MissingLocal,
    MissingDomain,
    InvalidContent { source: EmailAddressParseError },
    ObsoleteIdLeftForm,
}

/// Structural defects found before the `addr-spec` check, in the order the
/// parser tests them.
pub enum MessageIdDefect {
    MissingBrackets,
    ContainsWhitespace,
    ObsoleteIdLeftForm,
    MissingLocal,
    MissingDomain,
}

/// The trimmed input.
pub open spec fn trimmed_id(s: Seq<char>) -> Seq<char> {
    s.subrange(trimmed(s, 0, s.len() as int).0, trimmed(s, 0, s.len() as int).1)
}

/// The text between the angle brackets.
pub open spec fn id_inner(s: Seq<char>) -> Seq<char> {
    let v = trimmed_id(s);
    v.subrange(1, v.len() - 1)
}

pub open spec fn has_white_space(v: Seq<char>) -> bool {
    exists|i: int| 0 <= i < v.len() && unicode_white_space(#[trigger] v[i])
}

/// The first structural defect of a candidate `Message-ID`, if any.
pub open spec fn message_id_defect(s: Seq<char>) -> Option<MessageIdDefect> {
    let v = trimmed_id(s);
    if !(v.len() >= 2 && v[0] == '<' && v[v.len() - 1] == '>') {
        Some(MessageIdDefect::MissingBrackets)
    } else if has_white_space(v) {
        Some(MessageIdDefect::ContainsWhitespace)
    } else {
        let inner = id_inner(s);
        if inner.len() > 0 && inner[0] == '"' {
            Some(MessageIdDefect::ObsoleteIdLeftForm)
        } else {
            match find_in(inner, '@', 0, inner.len() as int) {
                None => Some(MessageIdDefect::MissingDomain),
                Some(k) => if k == 0 {
                    Some(MessageIdDefect::MissingLocal)
                } else if k + 1 == inner.len() {
                    Some(MessageIdDefect::MissingDomain)
                } else {
                    None
                },
            }
        }
    }
}

/// The error value corresponds to the defect.
pub open spec fn defect_reported(e: MessageIdParseError, d: MessageIdDefect) -> bool {
    match d {
        MessageIdDefect::MissingBrackets => e is MissingBrackets,
        MessageIdDefect::ContainsWhitespace => e is ContainsWhitespace,
        MessageIdDefect::ObsoleteIdLeftForm => e is ObsoleteIdLeftForm,
        MessageIdDefect::MissingLocal => e is MissingLocal,
        MessageIdDefect::MissingDomain => e is MissingDomain,
    }
}

impl MessageId {
    /// Parses a `Message-ID`: brackets are required, white space and the
    /// obsolete quoted `id-left` are rejected, the inside must be a valid
    /// `addr-spec`, and the domain is case-folded unless it is a literal.
    #[verifier::loop_isolation(false)]
    pub fn from_str(s: &str) -> (r: Result<MessageId, MessageIdParseError>)
        ensures
            message_id_defect(s@) matches Some(d) ==> r matches Err(e) && defect_reported(e, d),
            message_id_defect(s@) is None ==> (r is Ok <==> addr_spec_serialized(id_inner(s@)) is Some),
            message_id_defect(s@) is None && addr_spec_serialized(id_inner(s@)) is None ==> r matches Err(
                MessageIdParseError::InvalidContent { .. }),
            r matches Ok(id) ==> addr_spec_serialized(id_inner(s@)) matches Some((lit, local, domain)) && id@ == seq!['<']
                + normalized_address(lit, local, domain) + seq!['>'],
    {
        let v = str_chars(s);
        let (a, b) = trim_window(&v, 0, v.len());
        let ghost t = v@.subrange(a as int, b as int);
        assert(t == trimmed_id(s@));
        if !(b - a >= 2 && v[a] == '<' && v[b - 1] == '>') {
            return Err(MessageIdParseError::MissingBrackets);
        }
        let mut i = a;
        while i < b
            invariant
                a <= i <= b <= v@.len(),
                t == v@.subrange(a as int, b as int),
                forall|j: int| 0 <= j < i - a ==> !unicode_white_space(#[trigger] t[j]),
            decreases b - i,
        {
            if char_is_whitespace(v[i]) {
                assert(unicode_white_space(t[i - a]));
                return Err(MessageIdParseError::ContainsWhitespace);
            }
            i = i + 1;
        }
        assert(!has_white_space(t));
        let inner = sub_window(&v, a + 1, b - 1);
        let ghost iv = id_inner(s@);
        assert(inner@ =~= iv);
        if inner.len() > 0 && inner[0] == '"' {
            return Err(MessageIdParseError::ObsoleteIdLeftForm);
        }
        proof {
            lemma_find_in_bounds(inner@, '@', 0, inner@.len() as int);
        }
        match find_char(&inner, '@', 0, inner.len()) {
            None => {
                return Err(MessageIdParseError::MissingDomain);
            },
            Some(k) => {
                if k == 0 {
                    return Err(MessageIdParseError::MissingLocal);
                }
                if k + 1 == inner.len() {
                    return Err(MessageIdParseError::MissingDomain);
                }
            },
        }
        let inner_str = string_from_chars(inner.as_slice(), 0, inner.len());
        assert(inner@.subrange(0, inner@.len() as int) =~= inner@);
        match crate::email::parse_addr_spec_checked(inner_str.as_str()) {
            Err(source) => Err(MessageIdParseError::InvalidContent { source }),
            Ok((lit, local, domain)) => {
                let mut out = String::new();
                push_char(&mut out, '<');
                let joined = join_address(lit, local.as_str(), domain.as_str());
                push_str(&mut out, joined.as_str());
                push_char(&mut out, '>');
                Ok(MessageId(out))
            },
        }
    }

    /// Parses a `Message-ID` from a string slice.
    pub fn try_from(s: &str) -> (r: Result<MessageId, MessageIdParseError>)
        ensures
            message_id_defect(s@) matches Some(d) ==> r matches Err(e) && defect_reported(e, d),
            message_id_defect(s@) is None ==> (r is Ok <==> addr_spec_serialized(id_inner(s@)) is Some),
            r matches Ok(id) ==> addr_spec_serialized(id_inner(s@)) matches Some((lit, local, domain)) && id@ == seq!['<']
                + normalized_address(lit, local, domain) + seq!['>'],
    {
        Self::from_str(s)
    }

    /// The bracketed value.
    pub fn as_str(&self) -> (r: &str)
        ensures
            r@ == self@,
    {
        self.0.as_str()
    }

    /// The bracketed value, owned.
    pub fn to_string(&self) -> (r: String)
        ensures
            r@ == self@,
    {
        self.0.clone()
    }

    /// Consumes the value, returning the bracketed string.
    pub fn into_string(self) -> (r: String)
        ensures
            r@ == self@,
    {
        self.0
    }
}

fn sub_window(v: &Vec<char>, from: usize, to: usize) -> (r: Vec<char>)
    requires
        from <= to <= v@.len(),
    ensures
        r@ == v@.subrange(from as int, to as int),
{
    crate::text::sub_chars(v, from, to)
}

impl MessageIdParseError {
    /// Variants compare by tag, ignoring the `addr-spec` error carried by
    /// `InvalidContent`.
    pub fn same_kind(&self, other: &MessageIdParseError) -> (r: bool)
        ensures
            r == ((self is MissingBrackets && other is MissingBrackets) || (self is ContainsWhitespace
                && other is ContainsWhitespace) || (self is MissingLocal && other is MissingLocal) || (
            self is MissingDomain && other is MissingDomain) || (self is InvalidContent && other is InvalidContent)
                || (self is ObsoleteIdLeftForm && other is ObsoleteIdLeftForm)),
    {
        match (self, other) {
            (MessageIdParseError::MissingBrackets, MessageIdParseError::MissingBrackets) => true,
            (MessageIdParseError::ContainsWhitespace, MessageIdParseError::ContainsWhitespace) => true,
            (MessageIdParseError::MissingLocal, MessageIdParseError::MissingLocal) => true,
            (MessageIdParseError::MissingDomain, MessageIdParseError::MissingDomain) => true,
            (MessageIdParseError::InvalidContent { .. }, MessageIdParseError::InvalidContent { .. }) => true,
            (MessageIdParseError::ObsoleteIdLeftForm, MessageIdParseError::ObsoleteIdLeftForm) => true,
            _ => false,
        }
    }
}

impl std::str::FromStr for MessageId {
    type Err = MessageIdParseError;

    fn from_str(s: &str) -> (r: Result<MessageId, MessageIdParseError>)
        ensures
            message_id_defect(s@) matches Some(d) ==> r matches Err(e) && defect_reported(e, d),
            message_id_defect(s@) is None ==> (r is Ok <==> addr_spec_serialized(id_inner(s@)) is Some),
            message_id_defect(s@) is None && addr_spec_serialized(id_inner(s@)) is None ==> r matches Err(
                MessageIdParseError::InvalidContent { .. }),
            r matches Ok(id) ==> addr_spec_serialized(id_inner(s@)) matches Some((lit, local, domain)) && id@ == seq!['<']
                + normalized_address(lit, local, domain) + seq!['>'],
    {
        MessageId::from_str(s)
    }
}

impl PartialEq for MessageIdParseError {
    fn eq(&self, other: &MessageIdParseError) -> (r: bool) {
        self.same_kind(other)
    }
}

impl vstd::std_specs::cmp::PartialEqSpecImpl for MessageIdParseError {
    open spec fn obeys_eq_spec() -> bool {
        true
    }

    open spec fn eq_spec(&self, other: &MessageIdParseError) -> bool {
        (self is MissingBrackets && other is MissingBrackets) || (self is ContainsWhitespace
            && other is ContainsWhitespace) || (self is MissingLocal && other is MissingLocal) || (
        self is MissingDomain && other is MissingDomain) || (self is InvalidContent && other is InvalidContent)
            || (self is ObsoleteIdLeftForm && other is ObsoleteIdLeftForm)
    }
}

impl Eq for MessageIdParseError {}

} // verus!
