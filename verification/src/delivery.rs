//! Classified delivery failures, as the provider adapters report them.
use vstd::prelude::*;

verus! {

/// The category of a delivery failure, which decides whether a caller may
/// retry it.
#[derive(Clone, Copy, Debug, PartialEq, Eq, Structural)]
#[non_exhaustive]
pub enum DeliveryErrorKind {
    /// The message or request was rejected as invalid.
    Validation,
    /// The credentials were rejected.
    Authentication,
    /// The sender or a recipient is not permitted.
    Authorization,
    /// The provider throttled the request; retry later.
    RateLimited,
    /// The provider failed in a way that is safe to retry.
    TransientProvider,
    /// The provider failed in a way that is not worth retrying.
    PermanentProvider,
    /// The network failed in a way that is safe to retry.
    TransientNetwork,
    /// The attempt ran out of time.
    Timeout,
    /// The message uses a feature that this delivery path does not support.
    UnsupportedFeature,
    /// A bug or invariant violation.
    Internal,
}

/// The categories that are safe to retry: throttling, transient provider
/// and network failures, and timeouts.
pub open spec fn retryable_kind(kind: DeliveryErrorKind) -> bool {
    kind == DeliveryErrorKind::RateLimited || kind == DeliveryErrorKind::TransientProvider || kind
        == DeliveryErrorKind::TransientNetwork || kind == DeliveryErrorKind::Timeout
}

impl DeliveryErrorKind {
    /// Whether a failure of this category may be retried.
    pub fn is_retryable(&self) -> (r: bool)
        ensures
            r == retryable_kind(*self),
    {
        match self {
            DeliveryErrorKind::RateLimited | DeliveryErrorKind::TransientProvider | DeliveryErrorKind::TransientNetwork
            | DeliveryErrorKind::Timeout => true,
            _ => false,
        }
    }
}

/// A delivery failure as plain values.
pub struct DeliveryErrorView {
    pub kind: DeliveryErrorKind,
    pub message: Seq<char>,
    pub provider_error_code: Option<Seq<char>>,
    pub source: Option<Seq<char>>,
    pub http_status: Option<u16>,
    pub retry_after_secs: Option<u64>,
}

/// A classified delivery failure: its category, a human-readable
/// description, the provider's own error code where it gave one, the
/// description of the underlying failure that caused it, if one was kept,
/// the HTTP status the provider answered with, and how many seconds to wait
/// before a retry, where the provider said.
#[derive(Clone, Debug, PartialEq, Eq)]
pub struct DeliveryError {
    pub kind: DeliveryErrorKind,
    pub message: String,
    pub provider_error_code: Option<String>,
    pub source: Option<String>,
    pub http_status: Option<u16>,
    pub retry_after_secs: Option<u64>,
}

impl View for DeliveryError {
    type V = DeliveryErrorView;

    open spec fn view(&self) -> DeliveryErrorView {
        DeliveryErrorView {
            kind: self.kind,
            message: self.message@,
            provider_error_code: match self.provider_error_code {
                Some(c) => Some(c@),
                None => None,
            },
            source: match self.source {
                Some(c) => Some(c@),
                None => None,
            },
            http_status: self.http_status,
            retry_after_secs: self.retry_after_secs,
        }
    }
}

impl DeliveryError {
    /// A failure of `kind` described by `message`, without a provider code.
    pub fn new(kind: DeliveryErrorKind, message: &str) -> (r: DeliveryError)
        ensures
            r@ == (DeliveryErrorView { kind, message: message@, provider_error_code: None, source: None, http_status: None, retry_after_secs: None }),
    {
        DeliveryError { kind, message: message.to_owned(), provider_error_code: None, source: None, http_status: None, retry_after_secs: None }
    }

    /// Whether the failure may be retried.
    pub fn is_retryable(&self) -> (r: bool)
        ensures
            r == retryable_kind(self.kind),
    {
        self.kind.is_retryable()
    }

    /// Whether the failure is final: not worth retrying.
    pub fn is_terminal(&self) -> (r: bool)
        ensures
            r == !retryable_kind(self.kind),
    {
        !self.kind.is_retryable()
    }

    /// Records the provider's error code.
    pub fn with_provider_error_code(self, code: &str) -> (r: DeliveryError)
        ensures
            r@ == (DeliveryErrorView { provider_error_code: Some(code@), ..self@ }),
    {
        DeliveryError { provider_error_code: Some(code.to_owned()), ..self }
    }

    /// Records the description of the underlying failure.
    pub fn with_source(self, source: &str) -> (r: DeliveryError)
        ensures
            r@ == (DeliveryErrorView { source: Some(source@), ..self@ }),
    {
        DeliveryError { source: Some(source.to_owned()), ..self }
    }

    /// Records the HTTP status the provider answered with.
    pub fn with_http_status(self, status: u16) -> (r: DeliveryError)
        ensures
            r@ == (DeliveryErrorView { http_status: Some(status), ..self@ }),
    {
        DeliveryError { http_status: Some(status), ..self }
    }

    /// Records how many seconds to wait before a retry.
    pub fn with_retry_after_secs(self, secs: u64) -> (r: DeliveryError)
        ensures
            r@ == (DeliveryErrorView { retry_after_secs: Some(secs), ..self@ }),
    {
        DeliveryError { retry_after_secs: Some(secs), ..self }
    }
}

} // verus!
