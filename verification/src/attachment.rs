//! Attachment materialization policy: size limits, resolution errors, an
//! in-memory resolver, scheme routing and fallback decisions, and the
//! step-by-step preparation of reference-backed attachments.
use vstd::prelude::*;
use crate::message::{AttachmentBody, AttachmentBodyView, AttachmentReference, AttachmentView};
use crate::delivery::{DeliveryError, DeliveryErrorKind, DeliveryErrorView};
use crate::text::push_str;
use crate::wire::shared::{decimal, push_decimal};

pub mod resolver;
pub mod preparation;
pub mod store;


verus! {

// ---------------------------------------------------------------------------
// Size policy
// ---------------------------------------------------------------------------

/// Size policy applied while materializing attachment references.
///
/// The default is unlimited. Deployments opt into limits according to their
/// storage, memory, and provider constraints.
#[derive(Clone, Copy, Debug, PartialEq, Eq, Structural)]
#[non_exhaustive]
pub struct PreparationLimits {
    /// Maximum bytes allowed for one attachment.
    pub max_attachment_bytes: Option<usize>,
    /// Maximum bytes allowed across all attachments in the message.
    pub max_total_bytes: Option<usize>,
}

/// The size policy under its shorter name.
pub type AttachmentLimits = PreparationLimits;

impl PreparationLimits {
    /// An unlimited preparation policy.
    pub fn new() -> (r: PreparationLimits)
        ensures
            r.max_attachment_bytes is None,
            r.max_total_bytes is None,
    {
        PreparationLimits { max_attachment_bytes: None, max_total_bytes: None }
    }

    /// Sets the per-attachment byte limit.
    pub fn with_max_attachment_bytes(self, limit: Option<usize>) -> (r: PreparationLimits)
        ensures
            r == (PreparationLimits { max_attachment_bytes: limit, ..self }),
    {
        PreparationLimits { max_attachment_bytes: limit, ..self }
    }

    /// Sets the total attachment byte limit.
    pub fn with_max_total_bytes(self, limit: Option<usize>) -> (r: PreparationLimits)
        ensures
            r == (PreparationLimits { max_total_bytes: limit, ..self }),
    {
        PreparationLimits { max_total_bytes: limit, ..self }
    }
}

impl Default for PreparationLimits {
    fn default() -> (r: PreparationLimits)
        ensures
            r.max_attachment_bytes is None,
            r.max_total_bytes is None,
    {
        PreparationLimits::new()
    }
}

// ---------------------------------------------------------------------------
// Resolution results and errors
// ---------------------------------------------------------------------------

/// Resolved attachment content.
#[derive(Clone, Debug, PartialEq, Eq)]
#[non_exhaustive]
pub struct ResolvedAttachment {
    /// Materialized attachment bytes.
    pub bytes: Vec<u8>,
}

impl ResolvedAttachment {
    /// Resolved content holding `bytes`.
    pub fn new(bytes: Vec<u8>) -> (r: ResolvedAttachment)
        ensures
            r.bytes@ == bytes@,
    {
        ResolvedAttachment { bytes }
    }
}

impl From<Vec<u8>> for ResolvedAttachment {
    fn from(bytes: Vec<u8>) -> (r: ResolvedAttachment) {
        ResolvedAttachment { bytes }
    }
}

impl vstd::std_specs::convert::FromSpecImpl<Vec<u8>> for ResolvedAttachment {
    open spec fn obeys_from_spec() -> bool {
        true
    }

    open spec fn from_spec(bytes: Vec<u8>) -> ResolvedAttachment {
        ResolvedAttachment { bytes }
    }
}

/// Canonical category for an attachment resolution failure.
#[derive(Clone, Copy, Debug, PartialEq, Eq, Structural)]
#[non_exhaustive]
pub enum ResolveErrorKind {
    /// The resolver does not recognize the reference's addressing or format.
    UnsupportedReference,
    /// The backing store reports that the referenced content does not exist.
    NotFound,
    /// Access to the backing store was denied.
    Denied,
    /// The content exceeds a configured size limit.
    TooLarge,
    /// A transient store or network failure occurred and is safe to retry.
    Transient,
    /// A resolver bug or invariant violation occurred.
    Internal,
}

/// The label of a failure category.
pub open spec fn kind_label(kind: ResolveErrorKind) -> Seq<char> {
    match kind {
        ResolveErrorKind::UnsupportedReference => "unsupported-reference"@,
        ResolveErrorKind::NotFound => "not-found"@,
        ResolveErrorKind::Denied => "denied"@,
        ResolveErrorKind::TooLarge => "too-large"@,
        ResolveErrorKind::Transient => "transient"@,
        ResolveErrorKind::Internal => "internal"@,
    }
}

impl ResolveErrorKind {
    /// The kebab-case label of the category (`not-found`, `too-large`, ...).
    pub fn as_str(&self) -> (r: &'static str)
        ensures
            r@ == kind_label(*self),
    {
        match self {
            ResolveErrorKind::UnsupportedReference => "unsupported-reference",
            ResolveErrorKind::NotFound => "not-found",
            ResolveErrorKind::Denied => "denied",
            ResolveErrorKind::TooLarge => "too-large",
            ResolveErrorKind::Transient => "transient",
            ResolveErrorKind::Internal => "internal",
        }
    }

    /// The label as an owned string.
    pub fn to_string(&self) -> (r: String)
        ensures
            r@ == kind_label(*self),
    {
        self.as_str().to_owned()
    }
}

/// A resolution failure as plain values.
pub struct ResolveErrorView {
    pub kind: ResolveErrorKind,
    pub message: Seq<char>,
    pub source: Option<Seq<char>>,
}

/// Classified attachment resolution failure: its category, a human-readable
/// description, and the description of the underlying failure that caused
/// it, if one was attached.
#[derive(Clone, Debug, PartialEq, Eq)]
pub struct AttachmentResolveError {
    /// Resolution failure category.
    pub kind: ResolveErrorKind,
    message: String,
    source: Option<String>,
}

impl View for AttachmentResolveError {
    type V = ResolveErrorView;

    closed spec fn view(&self) -> ResolveErrorView {
        ResolveErrorView {
            kind: self.kind,
            message: self.message@,
            source: match self.source {
                Some(s) => Some(s@),
                None => None,
            },
        }
    }
}

/// The delivery category of a resolution failure: unsupported references
/// are an unsupported feature, missing or oversized content a validation
/// failure, denied access and resolver faults internal, transient faults
/// transient.
pub open spec fn delivery_kind_of(kind: ResolveErrorKind) -> DeliveryErrorKind {
    match kind {
        ResolveErrorKind::UnsupportedReference => DeliveryErrorKind::UnsupportedFeature,
        ResolveErrorKind::NotFound | ResolveErrorKind::TooLarge => DeliveryErrorKind::Validation,
        ResolveErrorKind::Denied | ResolveErrorKind::Internal => DeliveryErrorKind::Internal,
        ResolveErrorKind::Transient => DeliveryErrorKind::TransientProvider,
    }
}

/// A resolution failure as a delivery failure: the delivery category of its
/// kind and its message.
impl From<AttachmentResolveError> for DeliveryError {
    fn from(error: AttachmentResolveError) -> (r: DeliveryError)
        ensures
            r@ == (DeliveryErrorView {
                kind: delivery_kind_of(error@.kind),
                message: error@.message,
                provider_error_code: None,
                source: Some(kind_label(error@.kind) + ": "@ + error@.message),
                http_status: None,
                retry_after_secs: None,
            }),
    {
        let kind = match error.kind {
            ResolveErrorKind::UnsupportedReference => DeliveryErrorKind::UnsupportedFeature,
            ResolveErrorKind::NotFound | ResolveErrorKind::TooLarge => DeliveryErrorKind::Validation,
            ResolveErrorKind::Denied | ResolveErrorKind::Internal => DeliveryErrorKind::Internal,
            ResolveErrorKind::Transient => DeliveryErrorKind::TransientProvider,
        };
        let source = error.to_string();
        DeliveryError { kind, message: error.message, provider_error_code: None, source: Some(source), http_status: None, retry_after_secs: None }
    }
}

impl vstd::std_specs::convert::FromSpecImpl<AttachmentResolveError> for DeliveryError {
    open spec fn obeys_from_spec() -> bool {
        false
    }

    closed spec fn from_spec(error: AttachmentResolveError) -> DeliveryError {
        DeliveryError { kind: delivery_kind_of(error.kind), message: error.message, provider_error_code: None, source: None, http_status: None, retry_after_secs: None }
    }
}

impl AttachmentResolveError {
    /// A resolution error without an underlying source.
    pub fn new(kind: ResolveErrorKind, message: &str) -> (r: AttachmentResolveError)
        ensures
            r@ == (ResolveErrorView { kind, message: message@, source: None }),
    {
        AttachmentResolveError { kind, message: message.to_owned(), source: None }
    }

    /// A resolution error whose message is already an owned string.
    pub fn with_message(kind: ResolveErrorKind, message: String) -> (r: AttachmentResolveError)
        ensures
            r@ == (ResolveErrorView { kind, message: message@, source: None }),
    {
        AttachmentResolveError { kind, message, source: None }
    }

    /// The failure category.
    pub fn kind(&self) -> (r: ResolveErrorKind)
        ensures
            r == self@.kind,
    {
        self.kind
    }

    /// The human-readable failure description.
    pub fn message(&self) -> (r: &str)
        ensures
            r@ == self@.message,
    {
        self.message.as_str()
    }

    /// Attaches the description of the backing store or resolver failure
    /// that caused this one.
    pub fn with_source(self, source: &str) -> (r: AttachmentResolveError)
        ensures
            r@ == (ResolveErrorView { source: Some(source@), ..self@ }),
    {
        AttachmentResolveError { source: Some(source.to_owned()), ..self }
    }

    /// The description of the underlying failure, if one was attached.
    pub fn source(&self) -> (r: Option<&str>)
        ensures
            match r {
                Some(s) => self@.source == Some(s@),
                None => self@.source is None,
            },
    {
        match &self.source {
            Some(s) => Some(s.as_str()),
            None => None,
        }
    }

    /// `<category>: <message>`.
    pub fn to_string(&self) -> (r: String)
        ensures
            r@ == kind_label(self@.kind) + ": "@ + self@.message,
    {
        let mut out = self.kind.to_string();
        push_str(&mut out, ": ");
        push_str(&mut out, self.message.as_str());
        out
    }
}

// ---------------------------------------------------------------------------
// Limit checks
// ---------------------------------------------------------------------------

/// Which limit a size check broke.
pub enum LimitBreach {
    /// One attachment of this many bytes is over the per-attachment limit.
    Attachment(nat),
    /// The running total no longer fits in `usize`.
    Overflow,
    /// The running total reached this many bytes, over the total limit.
    Total(nat),
}

/// The text of the error reported for a broken limit.
pub open spec fn breach_message(b: LimitBreach) -> Seq<char> {
    match b {
        LimitBreach::Attachment(n) => "attachment size "@ + decimal(n)
            + " exceeds the configured per-attachment limit"@,
        LimitBreach::Overflow => "total attachment size overflowed"@,
        LimitBreach::Total(n) => "total attachment size "@ + decimal(n) + " exceeds the configured limit"@,
    }
}

/// `e` is the error reported for breach `b`.
pub open spec fn breach_reported(e: ResolveErrorView, b: LimitBreach) -> bool {
    &&& e.kind == ResolveErrorKind::TooLarge
    &&& e.message == breach_message(b)
    &&& e.source is None
}

/// Adding an attachment of `n` bytes to a running total of `total`: the
/// per-attachment limit is checked first, then the sum's range, then the
/// total limit.
pub open spec fn size_step(total: nat, n: nat, limits: PreparationLimits) -> Result<nat, LimitBreach> {
    if limits.max_attachment_bytes matches Some(l) && n > l {
        Err(LimitBreach::Attachment(n))
    } else if total + n > usize::MAX {
        Err(LimitBreach::Overflow)
    } else if limits.max_total_bytes matches Some(l) && total + n > l {
        Err(LimitBreach::Total(total + n))
    } else {
        Ok(total + n)
    }
}

/// Checks one attachment's size against the per-attachment limit.
pub fn enforce_attachment_limit(bytes: usize, limits: &PreparationLimits) -> (r: Result<(), AttachmentResolveError>)
    ensures
        match limits.max_attachment_bytes {
            Some(l) if bytes > l => r matches Err(e) && breach_reported(e@, LimitBreach::Attachment(bytes as nat)),
            _ => r is Ok,
        },
{
    if let Some(limit) = limits.max_attachment_bytes {
        if bytes > limit {
            let mut message = String::new();
            push_str(&mut message, "attachment size ");
            push_decimal(&mut message, bytes);
            push_str(&mut message, " exceeds the configured per-attachment limit");
            return Err(AttachmentResolveError::with_message(ResolveErrorKind::TooLarge, message));
        }
    }
    Ok(())
}

/// Adds `additional` bytes to the running total `current`, checking that the
/// sum fits in `usize` and stays within the total limit.
pub fn checked_total(current: usize, additional: usize, limits: &PreparationLimits) -> (r: Result<usize, AttachmentResolveError>)
    ensures
        current + additional > usize::MAX ==> (r matches Err(e) && breach_reported(e@, LimitBreach::Overflow)),
        current + additional <= usize::MAX ==> match limits.max_total_bytes {
            Some(l) if current + additional > l => r matches Err(e) && breach_reported(
                e@,
                LimitBreach::Total((current + additional) as nat),
            ),
            _ => r == Ok::<usize, AttachmentResolveError>((current + additional) as usize),
        },
{
    let total = match current.checked_add(additional) {
        Some(t) => t,
        None => {
            return Err(AttachmentResolveError::new(ResolveErrorKind::TooLarge, "total attachment size overflowed"));
        },
    };
    if let Some(limit) = limits.max_total_bytes {
        if total > limit {
            let mut message = String::new();
            push_str(&mut message, "total attachment size ");
            push_decimal(&mut message, total);
            push_str(&mut message, " exceeds the configured limit");
            return Err(AttachmentResolveError::with_message(ResolveErrorKind::TooLarge, message));
        }
    }
    Ok(total)
}

/// Both checks that adding an attachment of `bytes` bytes to the running
/// total `current` makes, in order.
pub fn admit_size(current: usize, bytes: usize, limits: &PreparationLimits) -> (r: Result<usize, AttachmentResolveError>)
    ensures
        match size_step(current as nat, bytes as nat, *limits) {
            Ok(t) => r == Ok::<usize, AttachmentResolveError>(t as usize),
            Err(b) => r matches Err(e) && breach_reported(e@, b),
        },
{
    match enforce_attachment_limit(bytes, limits) {
        Err(e) => Err(e),
        Ok(()) => checked_total(current, bytes, limits),
    }
}

} // verus!
