//! How SMTP delivery failures are classified.
use vstd::prelude::*;
use crate::delivery::{DeliveryError, DeliveryErrorKind, DeliveryErrorView};
use crate::wire::shared::{decimal, push_decimal};
use crate::wire::MessageRenderError;

verus! {

/// What is known of a failed SMTP delivery: the client's own flags and the
/// server's reply code, if it sent one.
#[derive(Clone, Copy, Debug, Default, PartialEq, Eq, Structural)]
pub struct SmtpFailureFacts {
    pub timeout: bool,
    pub transient: bool,
    pub permanent: bool,
    pub response: bool,
    pub client: bool,
    pub shutdown: bool,
    pub tls: bool,
    pub status: Option<u16>,
}

/// The retry policy for an SMTP failure, first matching rule wins: a timeout;
/// reply 535 (authentication); 534 or 538 (a mechanism the server requires);
/// a transient reply; a permanent reply or a TLS failure; any other reply; a
/// client-side error; a shut-down transport; else the network.
pub open spec fn smtp_kind(f: SmtpFailureFacts) -> DeliveryErrorKind {
    if f.timeout {
        DeliveryErrorKind::Timeout
    } else if f.status == Some(535u16) {
        DeliveryErrorKind::Authentication
    } else if f.status == Some(534u16) || f.status == Some(538u16) {
        DeliveryErrorKind::UnsupportedFeature
    } else if f.transient {
        DeliveryErrorKind::TransientProvider
    } else if f.permanent || f.tls {
        DeliveryErrorKind::PermanentProvider
    } else if f.response {
        DeliveryErrorKind::TransientProvider
    } else if f.client {
        DeliveryErrorKind::UnsupportedFeature
    } else if f.shutdown {
        DeliveryErrorKind::Internal
    } else {
        DeliveryErrorKind::TransientNetwork
    }
}

/// Classifies an SMTP failure.
pub fn classify_smtp_facts(facts: SmtpFailureFacts) -> (r: DeliveryErrorKind)
    ensures
        r == smtp_kind(facts),
{
    if facts.timeout {
        DeliveryErrorKind::Timeout
    } else if matches!(facts.status, Some(535)) {
        DeliveryErrorKind::Authentication
    } else if matches!(facts.status, Some(534) | Some(538)) {
        DeliveryErrorKind::UnsupportedFeature
    } else if facts.transient {
        DeliveryErrorKind::TransientProvider
    } else if facts.permanent || facts.tls {
        DeliveryErrorKind::PermanentProvider
    } else if facts.response {
        DeliveryErrorKind::TransientProvider
    } else if facts.client {
        DeliveryErrorKind::UnsupportedFeature
    } else if facts.shutdown {
        DeliveryErrorKind::Internal
    } else {
        DeliveryErrorKind::TransientNetwork
    }
}

/// The error for a failed SMTP delivery described by `message`: classified
/// by the facts, carrying the server's reply code, if any, as the provider
/// error code.
pub fn smtp_failure_error(facts: SmtpFailureFacts, message: &str) -> (r: DeliveryError)
    ensures
        r@ == (DeliveryErrorView {
            kind: smtp_kind(facts),
            message: message@,
            provider_error_code: match facts.status {
                Some(code) => Some(decimal(code as nat)),
                None => None,
            },
            source: None,
            http_status: None,
            retry_after_secs: None,
        }),
{
    let error = DeliveryError::new(classify_smtp_facts(facts), message);
    match facts.status {
        Some(code) => {
            let mut text = String::new();
            push_decimal(&mut text, code as usize);
            assert(text@ =~= decimal(code as nat));
            error.with_provider_error_code(text.as_str())
        },
        None => error,
    }
}

/// The category of a render failure: an attachment reference or an
/// unsupported body is an unsupported feature, anything else invalid input.
pub fn render_error_kind(error: &MessageRenderError) -> (r: DeliveryErrorKind)
    ensures
        r == match *error {
            MessageRenderError::UnsupportedAttachmentBody | MessageRenderError::UnsupportedBody => DeliveryErrorKind::UnsupportedFeature,
            _ => DeliveryErrorKind::Validation,
        },
{
    match error {
        MessageRenderError::UnsupportedAttachmentBody | MessageRenderError::UnsupportedBody => DeliveryErrorKind::UnsupportedFeature,
        _ => DeliveryErrorKind::Validation,
    }
}

} // verus!
