//! Resolution building blocks: an in-memory resolver keyed by reference, the
//! routing table of a scheme router, and the fallback decision.
use vstd::prelude::*;
use crate::keyed::{holds_key, key_position, keyed_insert, keyed_map, keys_unique, lemma_keyed_lookup};
use crate::attachment::{AttachmentResolveError, ResolveErrorKind, ResolveErrorView, ResolvedAttachment};
use crate::message::AttachmentReference;
use crate::text::{ascii_lower, lower_char, find_char, find_in, lower_string, push_str, str_chars, str_eq, string_from_chars};

verus! {

// ---------------------------------------------------------------------------
// In-memory resolver
// ---------------------------------------------------------------------------

/// The bytes of each entry, by reference.
pub open spec fn entries_map(s: Seq<(String, Vec<u8>)>) -> Map<Seq<char>, Seq<u8>> {
    keyed_map(s).map_values(|b: Vec<u8>| b@)
}


/// In-memory resolver for plain-string references and static assets.
#[derive(Debug)]
pub struct MapResolver {
    entries: Vec<(String, Vec<u8>)>,
}

impl View for MapResolver {
    type V = Map<Seq<char>, Seq<u8>>;

    closed spec fn view(&self) -> Map<Seq<char>, Seq<u8>> {
        entries_map(self.entries@)
    }
}

/// The error reported for a reference that a map does not hold.
pub open spec fn not_found_message(reference: Seq<char>) -> Seq<char> {
    "attachment reference `"@ + reference + "` was not found"@
}

impl MapResolver {
    #[verifier::type_invariant]
    spec fn unique_keys(self) -> bool {
        keys_unique(self.entries@)
    }

    /// An empty resolver.
    pub fn new() -> (r: MapResolver)
        ensures
            r@ == Map::<Seq<char>, Seq<u8>>::empty(),
    {
        let r = MapResolver { entries: Vec::new() };
        assert(r@ =~= Map::<Seq<char>, Seq<u8>>::empty());
        r
    }

    /// Inserts a reference and its bytes, returning the bytes it replaced.
    pub fn insert(&mut self, reference: &str, bytes: Vec<u8>) -> (r: Option<Vec<u8>>)
        ensures
            final(self)@ == old(self)@.insert(reference@, bytes@),
            match r {
                Some(previous) => old(self)@.contains_key(reference@) && previous@ == old(self)@[reference@],
                None => !old(self)@.contains_key(reference@),
            },
    {
        proof {
            use_type_invariant(&*self);
        }
        let ghost s = self.entries@;
        let ghost b = bytes@;
        let mut entries = Vec::new();
        std::mem::swap(&mut entries, &mut self.entries);
        let r = keyed_insert(&mut entries, reference, bytes);
        self.entries = entries;
        assert(entries_map(self.entries@) =~= entries_map(s).insert(reference@, b));
        r
    }

    /// Adds a reference and its bytes, builder style.
    pub fn with_entry(self, reference: &str, bytes: Vec<u8>) -> (r: MapResolver)
        ensures
            r@ == self@.insert(reference@, bytes@),
    {
        let mut s = self;
        s.insert(reference, bytes);
        s
    }

    /// Looks `reference` up: its bytes, or `NotFound`.
    pub fn resolve(&self, reference: &AttachmentReference) -> (r: Result<ResolvedAttachment, AttachmentResolveError>)
        ensures
            self@.contains_key(reference@) ==> (r matches Ok(a) && a.bytes@ == self@[reference@]),
            !self@.contains_key(reference@) ==> (r matches Err(e) && e@ == (ResolveErrorView {
                kind: ResolveErrorKind::NotFound,
                message: not_found_message(reference@),
                source: None,
            })),
    {
        proof {
            use_type_invariant(self);
        }
        match key_position(&self.entries, reference.as_str()) {
            Some(i) => {
                proof {
                    lemma_keyed_lookup(self.entries@, reference@, i as int);
                }
                Ok(ResolvedAttachment::new(self.entries[i].1.clone()))
            },
            None => {
                let mut message = String::new();
                push_str(&mut message, "attachment reference `");
                push_str(&mut message, reference.as_str());
                push_str(&mut message, "` was not found");
                Err(AttachmentResolveError::with_message(ResolveErrorKind::NotFound, message))
            },
        }
    }
}

impl Clone for MapResolver {
    fn clone(&self) -> (r: MapResolver)
        ensures
            r@ == self@,
    {
        proof {
            use_type_invariant(self);
        }
        let mut entries: Vec<(String, Vec<u8>)> = Vec::new();
        let mut i: usize = 0;
        while i < self.entries.len()
            invariant
                i <= self.entries@.len(),
                keys_unique(self.entries@),
                entries@.len() == i,
                forall|j: int| 0 <= j < i ==> entries@[j].0@ == self.entries@[j].0@ && entries@[j].1@
                    == self.entries@[j].1@,
            decreases self.entries@.len() - i,
        {
            let key = self.entries[i].0.clone();
            let bytes = self.entries[i].1.clone();
            entries.push((key, bytes));
            i = i + 1;
        }
        let r = MapResolver { entries };
        assert forall|k: Seq<char>| #[trigger] r@.contains_key(k) == self@.contains_key(k) by {
            if exists|j: int| holds_key(entries@, k, j) {
                let j = choose|j: int| holds_key(entries@, k, j);
                assert(holds_key(self.entries@, k, j));
            }
            if exists|j: int| holds_key(self.entries@, k, j) {
                let j = choose|j: int| holds_key(self.entries@, k, j);
                assert(holds_key(entries@, k, j));
            }
        }
        assert forall|k: Seq<char>| #[trigger] r@.contains_key(k) implies r@[k] == self@[k] by {
            let j = choose|j: int| holds_key(entries@, k, j);
            assert(holds_key(self.entries@, k, j));
            lemma_keyed_lookup(entries@, k, j);
            lemma_keyed_lookup(self.entries@, k, j);
        }
        assert(r@ =~= self@);
        r
    }
}

impl Default for MapResolver {
    fn default() -> (r: MapResolver)
        ensures
            r@ == Map::<Seq<char>, Seq<u8>>::empty(),
    {
        MapResolver::new()
    }
}

// ---------------------------------------------------------------------------
// Scheme routing
// ---------------------------------------------------------------------------

/// How a scheme router presents a routed reference to the selected resolver.
#[derive(Clone, Copy, Debug, PartialEq, Eq, Structural)]
#[non_exhaustive]
pub enum SchemeDispatch {
    /// Pass only the value after `scheme:`, with an optional `//` stripped.
    StrippedValue,
    /// Pass the original reference through unchanged, scheme included.
    FullReference,
}

impl Default for SchemeDispatch {
    fn default() -> (r: SchemeDispatch)
        ensures
            r == SchemeDispatch::StrippedValue,
    {
        SchemeDispatch::StrippedValue
    }
}

pub open spec fn ascii_alpha(c: char) -> bool {
    ('a' <= c && c <= 'z') || ('A' <= c && c <= 'Z')
}

pub open spec fn ascii_digit(c: char) -> bool {
    '0' <= c && c <= '9'
}

/// A character allowed after the first one of a scheme.
pub open spec fn scheme_char(c: char) -> bool {
    ascii_alpha(c) || ascii_digit(c) || c == '+' || c == '-' || c == '.'
}

/// A scheme token: a letter followed by letters, digits, `+`, `-`, or `.`.
pub open spec fn valid_scheme(s: Seq<char>) -> bool {
    &&& s.len() > 0
    &&& ascii_alpha(s[0])
    &&& forall|i: int| 1 <= i < s.len() ==> scheme_char(#[trigger] s[i])
}

/// Whether `scheme` is a valid scheme token.
pub fn is_valid_scheme(scheme: &str) -> (r: bool)
    ensures
        r == valid_scheme(scheme@),
{
    let v = str_chars(scheme);
    if v.len() == 0 {
        return false;
    }
    let first = v[0];
    if !(('a' <= first && first <= 'z') || ('A' <= first && first <= 'Z')) {
        return false;
    }
    let mut i: usize = 1;
    while i < v.len()
        invariant
            v@ == scheme@,
            1 <= i <= v@.len(),
            forall|j: int| 1 <= j < i ==> scheme_char(#[trigger] v@[j]),
        decreases v@.len() - i,
    {
        let c = v[i];
        if !(('a' <= c && c <= 'z') || ('A' <= c && c <= 'Z') || ('0' <= c && c <= '9') || c == '+' || c == '-'
            || c == '.') {
            return false;
        }
        i = i + 1;
    }
    true
}

/// Where `s` ends once every trailing `:` and `/` is cut off.
pub open spec fn trailing_cut(s: Seq<char>) -> nat
    decreases s.len(),
{
    if s.len() > 0 && (s.last() == ':' || s.last() == '/') {
        trailing_cut(s.drop_last())
    } else {
        s.len()
    }
}

/// A scheme as registered: trailing `:` and `/` removed, ASCII-lowercased.
pub open spec fn normalized_scheme(s: Seq<char>) -> Seq<char> {
    ascii_lower(s.subrange(0, trailing_cut(s) as int))
}

proof fn lemma_trailing_cut_bound(s: Seq<char>)
    ensures
        trailing_cut(s) <= s.len(),
    decreases s.len(),
{
    if s.len() > 0 && (s.last() == ':' || s.last() == '/') {
        lemma_trailing_cut_bound(s.drop_last());
    }
}

/// Removes trailing `:` and `/` from `scheme` and lowercases it.
pub fn normalize_scheme(scheme: &str) -> (r: String)
    ensures
        r@ == normalized_scheme(scheme@),
{
    let v = str_chars(scheme);
    let mut end: usize = v.len();
    assert(v@.subrange(0, v@.len() as int) =~= v@);
    while end > 0 && (v[end - 1] == ':' || v[end - 1] == '/')
        invariant
            v@ == scheme@,
            end <= v@.len(),
            trailing_cut(v@.subrange(0, end as int)) == trailing_cut(v@),
        decreases end,
    {
        assert(v@.subrange(0, end as int).drop_last() =~= v@.subrange(0, end - 1));
        end = end - 1;
    }
    assert(trailing_cut(v@.subrange(0, end as int)) == end);
    lower_string(v.as_slice(), 0, end)
}

/// `v` without a leading `//`.
pub open spec fn strip_slashes(v: Seq<char>) -> Seq<char> {
    if v.len() >= 2 && v[0] == '/' && v[1] == '/' {
        v.subrange(2, v.len() as int)
    } else {
        v
    }
}

/// The first registered route for `key`.
pub open spec fn route_of(routes: Seq<(Seq<char>, SchemeDispatch)>, key: Seq<char>, from: int) -> Option<int>
    decreases routes.len() - from,
{
    if from >= routes.len() || from < 0 {
        None
    } else if routes[from].0 == key {
        Some(from)
    } else {
        route_of(routes, key, from + 1)
    }
}

/// Where a router sends `reference`: the route registered for the
/// case-folded scheme before the first `:`, and the reference it hands to
/// that route's resolver; `None` without a valid, registered scheme.
pub open spec fn scheme_route(routes: Seq<(Seq<char>, SchemeDispatch)>, reference: Seq<char>) -> Option<(int, Seq<char>)> {
    match find_in(reference, ':', 0, reference.len() as int) {
        None => None,
        Some(c) => {
            let scheme = reference.subrange(0, c);
            let value = reference.subrange(c + 1, reference.len() as int);
            if !valid_scheme(scheme) {
                None
            } else {
                match route_of(routes, ascii_lower(scheme), 0) {
                    None => None,
                    Some(i) => Some(
                        (
                            i,
                            match routes[i].1 {
                                SchemeDispatch::StrippedValue => strip_slashes(value),
                                SchemeDispatch::FullReference => reference,
                            },
                        ),
                    ),
                }
            }
        },
    }
}

/// The error reported for a reference that no route claims.
pub open spec fn unrouted_message(reference: Seq<char>) -> Seq<char> {
    "no attachment resolver is registered for reference `"@ + reference + "`"@
}

/// The routing table of a scheme router: normalized schemes, each with its
/// dispatch mode, in registration order. The resolver registered for the
/// route at position `i` is kept by the router at the same position.
#[derive(Debug)]
pub struct SchemeRoutes {
    routes: Vec<(String, SchemeDispatch)>,
}

pub open spec fn route_views(s: Seq<(String, SchemeDispatch)>) -> Seq<(Seq<char>, SchemeDispatch)> {
    Seq::new(s.len(), |i: int| (s[i].0@, s[i].1))
}

impl View for SchemeRoutes {
    type V = Seq<(Seq<char>, SchemeDispatch)>;

    closed spec fn view(&self) -> Seq<(Seq<char>, SchemeDispatch)> {
        route_views(self.routes@)
    }
}

proof fn lemma_route_of_bounds(routes: Seq<(Seq<char>, SchemeDispatch)>, key: Seq<char>, from: int)
    requires
        0 <= from,
    ensures
        route_of(routes, key, from) matches Some(i) ==> from <= i < routes.len() && routes[i].0 == key,
        route_of(routes, key, from) is None ==> forall|j: int| from <= j < routes.len() ==> routes[j].0 != key,
        route_of(routes, key, from) matches Some(i) ==> forall|j: int| from <= j < i ==> routes[j].0 != key,
    decreases routes.len() - from,
{
    if from < routes.len() && routes[from].0 != key {
        lemma_route_of_bounds(routes, key, from + 1);
    }
}

impl SchemeRoutes {
    /// A table without routes.
    pub fn new() -> (r: SchemeRoutes)
        ensures
            r@ == Seq::<(Seq<char>, SchemeDispatch)>::empty(),
    {
        let r = SchemeRoutes { routes: Vec::new() };
        assert(r@ =~= Seq::<(Seq<char>, SchemeDispatch)>::empty());
        r
    }

    /// The number of routes.
    pub fn len(&self) -> (r: usize)
        ensures
            r == self@.len(),
    {
        self.routes.len()
    }

    /// The position of the route registered for `key`, if any.
    fn find(&self, key: &str) -> (r: Option<usize>)
        ensures
            match r {
                Some(i) => route_of(self@, key@, 0) == Some(i as int),
                None => route_of(self@, key@, 0) is None,
            },
    {
        proof {
            lemma_route_of_bounds(self@, key@, 0);
        }
        let mut i: usize = 0;
        while i < self.routes.len()
            invariant
                i <= self.routes@.len(),
                self@ == route_views(self.routes@),
                route_of(self@, key@, i as int) == route_of(self@, key@, 0),
            decreases self.routes@.len() - i,
        {
            if str_eq(self.routes[i].0.as_str(), key) {
                return Some(i);
            }
            i = i + 1;
        }
        None
    }

    /// Registers `dispatch` for `scheme`, normalized: a scheme registered
    /// before keeps its position and gets the new mode, a new one is added
    /// at the end. Returns the route's position.
    pub fn register(&mut self, scheme: &str, dispatch: SchemeDispatch) -> (slot: usize)
        requires
            valid_scheme(normalized_scheme(scheme@)),
        ensures
            match route_of(old(self)@, normalized_scheme(scheme@), 0) {
                Some(i) => slot == i && final(self)@ == old(self)@.update(i, (normalized_scheme(scheme@), dispatch)),
                None => slot == old(self)@.len() && final(self)@ == old(self)@.push(
                    (normalized_scheme(scheme@), dispatch),
                ),
            },
    {
        let key = normalize_scheme(scheme);
        proof {
            lemma_route_of_bounds(self@, key@, 0);
        }
        match self.find(key.as_str()) {
            Some(i) => {
                let ghost before = self.routes@;
                self.routes.set(i, (key, dispatch));
                assert(route_views(self.routes@) =~= route_views(before).update(
                    i as int,
                    (normalized_scheme(scheme@), dispatch),
                ));
                i
            },
            None => {
                let ghost before = self.routes@;
                let slot = self.routes.len();
                self.routes.push((key, dispatch));
                assert(route_views(self.routes@) =~= route_views(before).push((normalized_scheme(scheme@), dispatch)));
                slot
            },
        }
    }

    /// Routes `reference`: the position of the route for its scheme and the
    /// reference to hand to that route's resolver.
    pub fn route(&self, reference: &str) -> (r: Option<(usize, String)>)
        ensures
            match scheme_route(self@, reference@) {
                None => r is None,
                Some((i, passed)) => r matches Some((j, p)) && j == i && p@ == passed,
            },
    {
        let v = str_chars(reference);
        let colon = match find_char(&v, ':', 0, v.len()) {
            Some(c) => c,
            None => return None,
        };
        proof {
            crate::text::lemma_find_in_bounds(v@, ':', 0, v@.len() as int);
        }
        let scheme = string_from_chars(v.as_slice(), 0, colon);
        if !is_valid_scheme(scheme.as_str()) {
            return None;
        }
        let key = lower_string(v.as_slice(), 0, colon);
        let i = match self.find(key.as_str()) {
            Some(i) => i,
            None => return None,
        };
        proof {
            lemma_route_of_bounds(self@, key@, 0);
        }
        match self.routes[i].1 {
            SchemeDispatch::FullReference => Some((i, reference.to_owned())),
            SchemeDispatch::StrippedValue => {
                let start = if v.len() - colon > 2 && v[colon + 1] == '/' && v[colon + 2] == '/' {
                    colon + 3
                } else {
                    colon + 1
                };
                proof {
                    let value = v@.subrange(colon + 1, v@.len() as int);
                    if value.len() >= 2 && value[0] == '/' && value[1] == '/' {
                        assert(v@[colon + 1] == '/' && v@[colon + 2] == '/');
                    }
                    assert(strip_slashes(value) =~= v@.subrange(start as int, v@.len() as int));
                }
                Some((i, string_from_chars(v.as_slice(), start, v.len())))
            },
        }
    }
}

/// The error a router reports for a reference that no route claims.
pub fn unrouted_reference(reference: &AttachmentReference) -> (r: AttachmentResolveError)
    ensures
        r@ == (ResolveErrorView {
            kind: ResolveErrorKind::UnsupportedReference,
            message: unrouted_message(reference@),
            source: None,
        }),
{
    let mut message = String::new();
    push_str(&mut message, "no attachment resolver is registered for reference `");
    push_str(&mut message, reference.as_str());
    push_str(&mut message, "`");
    AttachmentResolveError::with_message(ResolveErrorKind::UnsupportedReference, message)
}

// ---------------------------------------------------------------------------
// Fallback
// ---------------------------------------------------------------------------

/// Resolver combinator that consults a fallback for unsupported references.
///
/// The fallback runs only when the primary fails with
/// `ResolveErrorKind::UnsupportedReference`; every other outcome of the
/// primary, success or failure, is final.
#[derive(Clone, Copy, Debug, Default)]
pub struct FallbackResolver<P, F> {
    primary: P,
    fallback: F,
}

impl<P, F> FallbackResolver<P, F> {
    pub closed spec fn primary_spec(&self) -> P {
        self.primary
    }

    pub closed spec fn fallback_spec(&self) -> F {
        self.fallback
    }

    /// Combines `primary` with `fallback`.
    pub fn new(primary: P, fallback: F) -> (r: FallbackResolver<P, F>)
        ensures
            r.primary_spec() == primary,
            r.fallback_spec() == fallback,
    {
        FallbackResolver { primary, fallback }
    }

    /// The primary resolver.
    pub fn primary(&self) -> (r: &P)
        ensures
            *r == self.primary_spec(),
    {
        &self.primary
    }

    /// The fallback resolver.
    pub fn fallback(&self) -> (r: &F)
        ensures
            *r == self.fallback_spec(),
    {
        &self.fallback
    }
}

/// Whether the primary's `outcome` hands the reference on to the fallback:
/// exactly when the primary could not interpret the reference at all.
pub fn consults_fallback(outcome: &Result<ResolvedAttachment, AttachmentResolveError>) -> (r: bool)
    ensures
        r == (outcome matches Err(e) && e@.kind == ResolveErrorKind::UnsupportedReference),
{
    match outcome {
        Err(e) => e.kind == ResolveErrorKind::UnsupportedReference,
        Ok(_) => false,
    }
}

/// What a fallback resolver does with the primary's outcome: it is the
/// answer, or the reference goes to the fallback, whose answer is then the
/// answer.
pub enum FallbackStep {
    Settled(Result<ResolvedAttachment, AttachmentResolveError>),
    AskFallback,
}

/// What a fallback combinator does with the primary's outcome: only a
/// reference the primary could not interpret goes on to the fallback.
pub open spec fn fallback_decision(outcome: Result<ResolvedAttachment, AttachmentResolveError>) -> FallbackStep {
    if outcome matches Err(e) && e@.kind == ResolveErrorKind::UnsupportedReference {
        FallbackStep::AskFallback
    } else {
        FallbackStep::Settled(outcome)
    }
}

/// The answer of a fallback combinator: the primary's outcome as it stands,
/// or, when the decision asks the fallback, the fallback's outcome.
pub open spec fn fallback_answer(
    primary: Result<ResolvedAttachment, AttachmentResolveError>,
    fallback: Result<ResolvedAttachment, AttachmentResolveError>,
) -> Result<ResolvedAttachment, AttachmentResolveError> {
    match fallback_decision(primary) {
        FallbackStep::Settled(answer) => answer,
        FallbackStep::AskFallback => fallback,
    }
}

/// Decides on the primary's outcome: only a reference the primary could not
/// interpret goes on to the fallback; any other outcome, a success or a
/// `NotFound`, `Denied`, `TooLarge`, `Transient` or `Internal` failure, is
/// the answer as it stands.
pub fn fallback_step(outcome: Result<ResolvedAttachment, AttachmentResolveError>) -> (r: FallbackStep)
    ensures
        r == fallback_decision(outcome),
        (outcome matches Err(e) && e@.kind == ResolveErrorKind::UnsupportedReference) ==> r is AskFallback,
        !(outcome matches Err(e) && e@.kind == ResolveErrorKind::UnsupportedReference) ==> r == FallbackStep::Settled(
            outcome,
        ),
{
    if consults_fallback(&outcome) {
        FallbackStep::AskFallback
    } else {
        FallbackStep::Settled(outcome)
    }
}

// ---------------------------------------------------------------------------
// Laws
// ---------------------------------------------------------------------------

/// A fallback combinator consults its fallback only for references the
/// primary could not interpret, and then answers with the fallback's
/// outcome; every other outcome of the primary, successes and `NotFound`,
/// `Denied`, `TooLarge`, `Transient` and `Internal` failures, is the answer
/// unchanged, with the fallback never asked.
pub proof fn law_fallback_only_for_unsupported(
    primary: Result<ResolvedAttachment, AttachmentResolveError>,
    fallback: Result<ResolvedAttachment, AttachmentResolveError>,
)
    ensures
        (primary matches Err(e) && e@.kind == ResolveErrorKind::UnsupportedReference) ==> fallback_decision(
            primary,
        ) is AskFallback && fallback_answer(primary, fallback) == fallback,
        !(primary matches Err(e) && e@.kind == ResolveErrorKind::UnsupportedReference) ==> fallback_decision(
            primary,
        ) is Settled && fallback_answer(primary, fallback) == primary,
{
}

/// Reading back what was written: once `reference` is inserted with
/// `bytes`, it resolves to `bytes`, and every other reference resolves as it
/// did before.
pub proof fn law_map_resolver_read_after_write(
    before: MapResolver,
    after: MapResolver,
    reference: Seq<char>,
    bytes: Seq<u8>,
)
    requires
        after@ == before@.insert(reference, bytes),
    ensures
        after@.contains_key(reference),
        after@[reference] == bytes,
        forall|k: Seq<char>| k != reference ==> (#[trigger] after@.contains_key(k) == before@.contains_key(k)),
        forall|k: Seq<char>| k != reference && before@.contains_key(k) ==> #[trigger] after@[k] == before@[k],
{
}

proof fn lemma_lower_char_classes(x: char, y: char)
    requires
        lower_char(x) == lower_char(y),
    ensures
        ascii_alpha(x) == ascii_alpha(y),
        scheme_char(x) == scheme_char(y),
        (x == ':') == (y == ':'),
{
    let a = x as u32;
    let b = y as u32;
    assert(('A' <= x && x <= 'Z') == (65 <= a && a <= 90));
    assert(('A' <= y && y <= 'Z') == (65 <= b && b <= 90));
    assert(('a' <= x && x <= 'z') == (97 <= a && a <= 122));
    assert(('a' <= y && y <= 'z') == (97 <= b && b <= 122));
    assert(('0' <= x && x <= '9') == (48 <= a && a <= 57));
    assert(('0' <= y && y <= '9') == (48 <= b && b <= 57));
    assert((x == ':') == (a == 58));
    assert((y == ':') == (b == 58));
    assert((x == '+') == (a == 43) && (x == '-') == (a == 45) && (x == '.') == (a == 46));
    assert((y == '+') == (b == 43) && (y == '-') == (b == 45) && (y == '.') == (b == 46));
    if 65 <= a && a <= 90 {
        assert(lower_char(x) as u32 == a + 32);
    } else {
        assert(lower_char(x) as u32 == a);
    }
    if 65 <= b && b <= 90 {
        assert(lower_char(y) as u32 == b + 32);
    } else {
        assert(lower_char(y) as u32 == b);
    }
}

proof fn lemma_find_colon_same(r1: Seq<char>, r2: Seq<char>, c: int, from: int)
    requires
        r1.len() == r2.len(),
        0 <= from <= c < r1.len(),
        forall|i: int| 0 <= i < c ==> lower_char(#[trigger] r1[i]) == lower_char(r2[i]),
        r1[c] == ':',
        r2[c] == ':',
        find_in(r1, ':', from, r1.len() as int) == Some(c),
    ensures
        find_in(r2, ':', from, r2.len() as int) == Some(c),
    decreases c - from,
{
    if from < c {
        lemma_lower_char_classes(r1[from], r2[from]);
        lemma_find_colon_same(r1, r2, c, from + 1);
    }
}

/// The case of a scheme does not matter: two references that differ only in
/// the case of the letters before their first `:` go to the same route, and
/// a route that strips the scheme hands its resolver the same value for
/// both.
pub proof fn law_scheme_route_ignores_scheme_case(
    routes: Seq<(Seq<char>, SchemeDispatch)>,
    r1: Seq<char>,
    r2: Seq<char>,
    c: int,
)
    requires
        r1.len() == r2.len(),
        find_in(r1, ':', 0, r1.len() as int) == Some(c),
        forall|i: int| 0 <= i < c ==> lower_char(#[trigger] r1[i]) == lower_char(r2[i]),
        forall|i: int| c <= i < r1.len() ==> #[trigger] r1[i] == r2[i],
    ensures
        scheme_route(routes, r1) is Some <==> scheme_route(routes, r2) is Some,
        scheme_route(routes, r1) matches Some((i1, p1)) ==> (scheme_route(routes, r2) matches Some((i2, p2)) && i1 == i2
            && (routes[i1].1 == SchemeDispatch::StrippedValue ==> p1 == p2)),
{
    crate::text::lemma_find_in_bounds(r1, ':', 0, r1.len() as int);
    lemma_find_colon_same(r1, r2, c, 0);
    let s1 = r1.subrange(0, c);
    let s2 = r2.subrange(0, c);
    assert forall|i: int| 0 <= i < c implies ascii_alpha(#[trigger] s1[i]) == ascii_alpha(s2[i]) && scheme_char(s1[i]) == scheme_char(s2[i]) by {
        lemma_lower_char_classes(r1[i], r2[i]);
    }
    if c > 0 {
        assert(ascii_alpha(s1[0]) == ascii_alpha(s2[0]));
    }
    if valid_scheme(s1) {
        assert forall|i: int| 1 <= i < s2.len() implies scheme_char(#[trigger] s2[i]) by {
            assert(scheme_char(s1[i]));
        }
    }
    if valid_scheme(s2) {
        assert forall|i: int| 1 <= i < s1.len() implies scheme_char(#[trigger] s1[i]) by {
            assert(scheme_char(s2[i]));
        }
    }
    assert(valid_scheme(s1) == valid_scheme(s2));
    assert(ascii_lower(s1) =~= ascii_lower(s2));
    assert(r1.subrange(c + 1, r1.len() as int) =~= r2.subrange(c + 1, r2.len() as int));
}

} // verus!
