//! The policy of resolving attachment paths against a configured storage
//! root: which references name a path inside the root, when stored
//! content is too large, and how backend failures are classified.
use vstd::prelude::*;
use crate::attachment::{AttachmentResolveError, ResolveErrorKind, ResolveErrorView};
use crate::message::AttachmentReference;
use crate::text::{push_str, str_chars, string_from_chars, trim, trim_window, window, trimmed};
use crate::wire::shared::{decimal, push_decimal};

verus! {

pub open spec fn path_separator(c: char) -> bool {
    c == '/' || c == '\\'
}

/// `..` is a whole segment of `s` at position `i`.
pub open spec fn parent_segment_at(s: Seq<char>, i: int) -> bool {
    &&& 0 <= i
    &&& i + 2 <= s.len()
    &&& s[i] == '.'
    &&& s[i + 1] == '.'
    &&& (i == 0 || path_separator(s[i - 1]))
    &&& (i + 2 == s.len() || path_separator(s[i + 2]))
}

/// A path that stays inside the store root: non-empty, not absolute, free
/// of NUL, and without a `..` segment (segments split on `/` and `\`).
pub open spec fn relative_within_root(s: Seq<char>) -> bool {
    &&& s.len() > 0
    &&& !path_separator(s[0])
    &&& forall|i: int| 0 <= i < s.len() ==> s[i] != '\0'
    &&& forall|i: int| !parent_segment_at(s, i)
}

/// Whether `path` stays inside the store root.
pub fn is_relative_path_within_root(path: &str) -> (r: bool)
    ensures
        r == relative_within_root(path@),
{
    let v = str_chars(path);
    if v.len() == 0 {
        return false;
    }
    if v[0] == '/' || v[0] == '\\' {
        return false;
    }
    let mut i: usize = 0;
    while i < v.len()
        invariant
            v@ == path@,
            i <= v@.len(),
            forall|j: int| 0 <= j < i ==> v@[j] != '\0',
            forall|j: int| 0 <= j < i ==> !parent_segment_at(v@, j),
        decreases v@.len() - i,
    {
        if v[i] == '\0' {
            return false;
        }
        if v.len() - i >= 2 && v[i] == '.' && v[i + 1] == '.' && (i == 0 || v[i - 1] == '/' || v[i - 1] == '\\')
            && (v.len() - i == 2 || v[i + 2] == '/' || v[i + 2] == '\\') {
            assert(parent_segment_at(v@, i as int));
            return false;
        }
        i = i + 1;
    }
    assert forall|j: int| !parent_segment_at(v@, j) by {
        if 0 <= j < v@.len() {
        }
    }
    true
}

/// The error for a reference that does not name a path inside the root.
pub open spec fn outside_root_message(path: Seq<char>) -> Seq<char> {
    "attachment path `"@ + path + "` is not relative to the configured store root"@
}

/// The store path a reference names: the reference with surrounding white
/// space trimmed, if it stays inside the store root.
pub fn store_path(reference: &AttachmentReference) -> (r: Result<String, AttachmentResolveError>)
    ensures
        relative_within_root(trim(reference@)) ==> (r matches Ok(p) && p@ == trim(reference@)),
        !relative_within_root(trim(reference@)) ==> (r matches Err(e) && e@ == (ResolveErrorView {
            kind: ResolveErrorKind::UnsupportedReference,
            message: outside_root_message(trim(reference@)),
            source: None,
        })),
{
    let v = str_chars(reference.uri());
    let (lo, hi) = trim_window(&v, 0, v.len());
    let path = string_from_chars(v.as_slice(), lo, hi);
    assert(path@ == trim(reference@));
    if !is_relative_path_within_root(path.as_str()) {
        let mut message = String::new();
        push_str(&mut message, "attachment path `");
        push_str(&mut message, path.as_str());
        push_str(&mut message, "` is not relative to the configured store root");
        return Err(AttachmentResolveError::with_message(ResolveErrorKind::UnsupportedReference, message));
    }
    Ok(path)
}

/// The error for stored content over the limit.
pub open spec fn too_large_message(path: Seq<char>, max_bytes: nat) -> Seq<char> {
    "attachment `"@ + path + "` exceeds the configured limit of "@ + decimal(max_bytes) + " bytes"@
}

/// The error for content at `path` that is over `max_bytes`.
pub fn too_large(path: &str, max_bytes: usize) -> (r: AttachmentResolveError)
    ensures
        r@ == (ResolveErrorView {
            kind: ResolveErrorKind::TooLarge,
            message: too_large_message(path@, max_bytes as nat),
            source: None,
        }),
{
    let mut message = String::new();
    push_str(&mut message, "attachment `");
    push_str(&mut message, path);
    push_str(&mut message, "` exceeds the configured limit of ");
    push_decimal(&mut message, max_bytes);
    push_str(&mut message, " bytes");
    AttachmentResolveError::with_message(ResolveErrorKind::TooLarge, message)
}

/// Holds `length` bytes of content at `path` to the limit `max_bytes`.
pub fn admit_stored_length(path: &str, length: u64, max_bytes: usize) -> (r: Result<(), AttachmentResolveError>)
    ensures
        length <= max_bytes ==> r is Ok,
        length > max_bytes ==> (r matches Err(e) && e@ == (ResolveErrorView {
            kind: ResolveErrorKind::TooLarge,
            message: too_large_message(path@, max_bytes as nat),
            source: None,
        })),
{
    if length as u128 > max_bytes as u128 {
        return Err(too_large(path, max_bytes));
    }
    Ok(())
}

/// The categories of storage-backend failure that the classification
/// distinguishes; every other category is `Other`.
#[derive(Clone, Copy, Debug, PartialEq, Eq, Structural)]
pub enum StoreErrorKind {
    NotFound,
    PermissionDenied,
    RateLimited,
    Unsupported,
    IsADirectory,
    NotADirectory,
    Other,
}

/// A storage-backend failure as plain values: its category and whether the
/// backend marks it temporary.
#[derive(Clone, Copy, Debug, PartialEq, Eq, Structural)]
pub struct StoreFailure {
    pub kind: StoreErrorKind,
    pub temporary: bool,
}

/// The categories of I/O failure that the classification distinguishes.
#[derive(Clone, Copy, Debug, PartialEq, Eq, Structural)]
pub enum IoErrorKind {
    NotFound,
    PermissionDenied,
    InvalidInput,
    Unsupported,
    Interrupted,
    TimedOut,
    WouldBlock,
    Other,
}

/// The resolution category of a backend failure: temporary and rate-limited
/// failures are transient; missing content, denied access and paths that do
/// not name a readable object keep their meaning; anything else is internal.
pub open spec fn store_failure_kind(f: StoreFailure) -> ResolveErrorKind {
    if f.temporary || f.kind == StoreErrorKind::RateLimited {
        ResolveErrorKind::Transient
    } else {
        match f.kind {
            StoreErrorKind::NotFound => ResolveErrorKind::NotFound,
            StoreErrorKind::PermissionDenied => ResolveErrorKind::Denied,
            StoreErrorKind::Unsupported | StoreErrorKind::IsADirectory | StoreErrorKind::NotADirectory => {
                ResolveErrorKind::UnsupportedReference
            },
            _ => ResolveErrorKind::Internal,
        }
    }
}

/// The resolution category of a failure while reading content: the backend
/// failure it carries, if any, decides; otherwise the I/O category.
pub open spec fn read_failure_kind(backend: Option<StoreFailure>, kind: IoErrorKind) -> ResolveErrorKind {
    match backend {
        Some(f) => store_failure_kind(f),
        None => match kind {
            IoErrorKind::NotFound => ResolveErrorKind::NotFound,
            IoErrorKind::PermissionDenied => ResolveErrorKind::Denied,
            IoErrorKind::InvalidInput | IoErrorKind::Unsupported => ResolveErrorKind::UnsupportedReference,
            IoErrorKind::Interrupted | IoErrorKind::TimedOut | IoErrorKind::WouldBlock => ResolveErrorKind::Transient,
            IoErrorKind::Other => ResolveErrorKind::Internal,
        },
    }
}

/// Classifies a storage-backend failure.
pub fn classify_store_failure(f: StoreFailure) -> (r: ResolveErrorKind)
    ensures
        r == store_failure_kind(f),
{
    if f.temporary {
        return ResolveErrorKind::Transient;
    }
    match f.kind {
        StoreErrorKind::RateLimited => ResolveErrorKind::Transient,
        StoreErrorKind::NotFound => ResolveErrorKind::NotFound,
        StoreErrorKind::PermissionDenied => ResolveErrorKind::Denied,
        StoreErrorKind::Unsupported | StoreErrorKind::IsADirectory | StoreErrorKind::NotADirectory => {
            ResolveErrorKind::UnsupportedReference
        },
        StoreErrorKind::Other => ResolveErrorKind::Internal,
    }
}

/// The error for a backend failure while resolving; `source` describes it.
pub fn store_failure_error(f: StoreFailure, source: &str) -> (r: AttachmentResolveError)
    ensures
        r@ == (ResolveErrorView {
            kind: store_failure_kind(f),
            message: "OpenDAL failed to resolve the attachment"@,
            source: Some(source@),
        }),
{
    AttachmentResolveError::new(classify_store_failure(f), "OpenDAL failed to resolve the attachment").with_source(source)
}

/// The error for a failure while reading content; `source` describes it.
pub fn read_failure_error(backend: Option<StoreFailure>, kind: IoErrorKind, source: &str) -> (r: AttachmentResolveError)
    ensures
        r@ == (ResolveErrorView {
            kind: read_failure_kind(backend, kind),
            message: "OpenDAL failed while reading the attachment"@,
            source: Some(source@),
        }),
{
    let category = match backend {
        Some(f) => classify_store_failure(f),
        None => match kind {
            IoErrorKind::NotFound => ResolveErrorKind::NotFound,
            IoErrorKind::PermissionDenied => ResolveErrorKind::Denied,
            IoErrorKind::InvalidInput | IoErrorKind::Unsupported => ResolveErrorKind::UnsupportedReference,
            IoErrorKind::Interrupted | IoErrorKind::TimedOut | IoErrorKind::WouldBlock => ResolveErrorKind::Transient,
            IoErrorKind::Other => ResolveErrorKind::Internal,
        },
    };
    AttachmentResolveError::new(category, "OpenDAL failed while reading the attachment").with_source(source)
}

} // verus!
