use email_kit::attachment::preparation::{
    Preparation, ResolvingTransport, SendPlan, delivery_error_kind, enforce_limits, has_attachment_references,
    plan_send,
};
use email_kit::attachment::resolver::{
    FallbackResolver, MapResolver, SchemeDispatch, SchemeRoutes, consults_fallback, is_valid_scheme,
    normalize_scheme, unrouted_reference, FallbackStep, fallback_step};
use email_kit::attachment::store::{
    IoErrorKind, StoreErrorKind, StoreFailure, admit_stored_length, classify_store_failure, is_relative_path_within_root,
    read_failure_error, store_failure_error, store_path, too_large,
};
use email_kit::attachment::{
    AttachmentResolveError, PreparationLimits, ResolveErrorKind, ResolvedAttachment, checked_total,
    enforce_attachment_limit,
};
use email_kit::delivery::{DeliveryError, DeliveryErrorKind};
use email_kit::{
    Address, Attachment, AttachmentBody, AttachmentReference, Body, ContentType, Disposition, Message,
    OutboundMessage,
};

fn message_with(attachments: Vec<Attachment>) -> OutboundMessage {
    Message::builder(Body::text("hello"))
        .from_mailbox("sender@example.com".parse().expect("sender parses"))
        .to(vec![Address::Mailbox("recipient@example.com".parse().expect("recipient parses"))])
        .attachments(attachments)
        .build_outbound()
        .expect("message validates")
}

fn content_type() -> ContentType {
    ContentType::try_from("application/octet-stream").expect("content type parses")
}

/// Runs a preparation to the end against an in-memory resolver.
fn prepare(
    message: OutboundMessage,
    resolver: &MapResolver,
    limits: PreparationLimits,
) -> Result<OutboundMessage, AttachmentResolveError> {
    let mut preparation = Preparation::begin(message, limits)?;
    while let Some(reference) = preparation.next_reference() {
        preparation.supply(resolver.resolve(&reference))?;
    }
    Ok(preparation.finish())
}

#[test]
fn resolved_attachment_converts_from_bytes() {
    let resolved = ResolvedAttachment::from(b"pdf bytes".to_vec());

    assert_eq!(resolved, ResolvedAttachment::new(b"pdf bytes".to_vec()));
    assert_eq!(resolved.bytes, b"pdf bytes");
}

#[test]
fn limits_default_to_unlimited_and_builders_set_each_limit() {
    let limits = PreparationLimits::default();
    assert_eq!(limits, PreparationLimits::new());
    assert_eq!(limits.max_attachment_bytes, None);
    assert_eq!(limits.max_total_bytes, None);

    let limits = limits.with_max_attachment_bytes(Some(3)).with_max_total_bytes(Some(7));
    assert_eq!(limits.max_attachment_bytes, Some(3));
    assert_eq!(limits.max_total_bytes, Some(7));
}

#[test]
fn per_attachment_limit_reports_the_size() {
    let limits = PreparationLimits::new().with_max_attachment_bytes(Some(3));
    assert!(enforce_attachment_limit(3, &limits).is_ok());
    let error = enforce_attachment_limit(4, &limits).expect_err("four bytes is over three");
    assert_eq!(error.kind, ResolveErrorKind::TooLarge);
    assert_eq!(error.message(), "attachment size 4 exceeds the configured per-attachment limit");
    assert_eq!(error.to_string(), "too-large: attachment size 4 exceeds the configured per-attachment limit");
}

#[test]
fn running_total_checks_overflow_and_total_limit() {
    let limits = PreparationLimits::new().with_max_total_bytes(Some(7));
    assert_eq!(checked_total(3, 4, &limits).expect("seven fits"), 7);
    let error = checked_total(4, 4, &limits).expect_err("eight is over seven");
    assert_eq!(error.message(), "total attachment size 8 exceeds the configured limit");
    let error = checked_total(usize::MAX, 1, &PreparationLimits::new()).expect_err("sum overflows");
    assert_eq!(error.kind, ResolveErrorKind::TooLarge);
    assert_eq!(error.message(), "total attachment size overflowed");
}

#[test]
fn resolve_error_keeps_kind_message_and_source() {
    let error = AttachmentResolveError::new(ResolveErrorKind::Denied, "no access").with_source("403 from store");
    assert_eq!(error.kind(), ResolveErrorKind::Denied);
    assert_eq!(error.message(), "no access");
    assert_eq!(error.source(), Some("403 from store"));
    assert_eq!(ResolveErrorKind::UnsupportedReference.as_str(), "unsupported-reference");
    assert_eq!(ResolveErrorKind::Transient.to_string(), "transient");
}

#[test]
fn map_resolver_resolves_known_and_reports_missing_references() {
    let resolver = MapResolver::new().with_entry("invoice-42", b"pdf bytes".to_vec());

    let resolved = resolver.resolve(&AttachmentReference::new("invoice-42")).expect("known reference resolves");
    assert_eq!(resolved.bytes, b"pdf bytes");

    let error = resolver.resolve(&AttachmentReference::new("missing")).expect_err("unknown reference fails");
    assert_eq!(error.kind, ResolveErrorKind::NotFound);
    assert_eq!(error.message(), "attachment reference `missing` was not found");
}

#[test]
fn map_resolver_insert_replaces_and_returns_previous_bytes() {
    let mut resolver = MapResolver::default();
    assert_eq!(resolver.insert("key", b"first".to_vec()), None);
    assert_eq!(resolver.insert("key", b"second".to_vec()), Some(b"first".to_vec()));
    let copy = resolver.clone();
    assert_eq!(copy.resolve(&AttachmentReference::new("key")).expect("key resolves").bytes, b"second");
}

#[test]
fn scheme_validity_and_normalization() {
    assert!(is_valid_scheme("asset"));
    assert!(is_valid_scheme("s3+v2.beta-1"));
    for invalid in ["", "1st", "not a scheme", "a_b"] {
        assert!(!is_valid_scheme(invalid), "{invalid}");
    }
    assert_eq!(normalize_scheme("HTTPS://"), "https");
    assert_eq!(normalize_scheme("Asset:"), "asset");
}

#[test]
fn scheme_routes_dispatch_colon_slash_and_full_references() {
    let mut routes = SchemeRoutes::new();
    assert_eq!(routes.register("asset", SchemeDispatch::default()), 0);
    assert_eq!(routes.register("https", SchemeDispatch::FullReference), 1);

    assert_eq!(routes.route("asset:logo"), Some((0, "logo".to_owned())));
    assert_eq!(routes.route("asset://logo"), Some((0, "logo".to_owned())));
    assert_eq!(routes.route("ASSET:logo"), Some((0, "logo".to_owned())));
    assert_eq!(
        routes.route("https://example.com/logo.png"),
        Some((1, "https://example.com/logo.png".to_owned()))
    );
    for unrouted in ["other:key", "plain-key", "not a scheme:value", "1st:value", ":value"] {
        assert_eq!(routes.route(unrouted), None, "{unrouted}");
    }

    assert_eq!(routes.register("ASSET:", SchemeDispatch::FullReference), 0);
    assert_eq!(routes.len(), 2);
    assert_eq!(routes.route("asset:logo"), Some((0, "asset:logo".to_owned())));

    let error = unrouted_reference(&AttachmentReference::new("plain-key"));
    assert_eq!(error.kind, ResolveErrorKind::UnsupportedReference);
    assert_eq!(error.message(), "no attachment resolver is registered for reference `plain-key`");
}

#[test]
fn fallback_is_consulted_only_for_unsupported_references() {
    let combined = FallbackResolver::new(MapResolver::new(), MapResolver::new().with_entry("k", b"v".to_vec()));
    assert!(combined.fallback().resolve(&AttachmentReference::new("k")).is_ok());
    assert!(combined.primary().resolve(&AttachmentReference::new("k")).is_err());

    let unsupported: Result<ResolvedAttachment, AttachmentResolveError> =
        Err(AttachmentResolveError::new(ResolveErrorKind::UnsupportedReference, "no route"));
    let missing: Result<ResolvedAttachment, AttachmentResolveError> =
        Err(AttachmentResolveError::new(ResolveErrorKind::NotFound, "missing"));
    let found: Result<ResolvedAttachment, AttachmentResolveError> = Ok(ResolvedAttachment::new(vec![1]));
    assert!(consults_fallback(&unsupported));
    assert!(!consults_fallback(&missing));
    assert!(!consults_fallback(&found));
}

#[test]
fn stepwise_preparation_materializes_references_and_preserves_attachment_metadata() {
    let byte_attachment = Attachment::bytes(content_type(), b"existing".to_vec()).with_filename("old.bin");
    let reference_attachment = Attachment::reference(content_type(), AttachmentReference::new("document-key"))
        .with_filename("document.bin")
        .with_content_id("document")
        .with_disposition(Disposition::Inline);
    let second_reference = Attachment::reference(content_type(), AttachmentReference::new("second-document-key"));
    let resolver = MapResolver::new()
        .with_entry("document-key", b"resolved".to_vec())
        .with_entry("second-document-key", b"also resolved".to_vec());

    let message = message_with(vec![byte_attachment.clone(), reference_attachment, second_reference]);
    assert!(has_attachment_references(&message));
    let prepared = prepare(message, &resolver, PreparationLimits::default()).expect("preparation succeeds");

    assert!(!has_attachment_references(&prepared));
    let attachments = prepared.as_message().attachments();
    assert_eq!(attachments[0], byte_attachment);
    assert_eq!(attachments[1].filename(), Some("document.bin"));
    assert_eq!(attachments[1].content_id(), Some("document"));
    assert_eq!(attachments[1].disposition(), Disposition::Inline);
    assert_eq!(attachments[1].body(), &AttachmentBody::Bytes(b"resolved".to_vec()));
    assert_eq!(attachments[2].body(), &AttachmentBody::Bytes(b"also resolved".to_vec()));
}

#[test]
fn stepwise_preparation_returns_byte_only_messages_unchanged() {
    let message = message_with(vec![Attachment::bytes(content_type(), b"existing".to_vec())]);
    let prepared = prepare(message.clone(), &MapResolver::new(), PreparationLimits::default())
        .expect("byte-only message passes through");
    assert_eq!(prepared, message);
}

#[test]
fn stepwise_preparation_enforces_limits_on_byte_only_messages() {
    let limits = PreparationLimits::new().with_max_total_bytes(Some(7));
    let message = message_with(vec![
        Attachment::bytes(content_type(), b"four".to_vec()),
        Attachment::bytes(content_type(), b"more".to_vec()),
    ]);
    let error = prepare(message, &MapResolver::new(), limits).expect_err("held to the limits");
    assert_eq!(error.kind, ResolveErrorKind::TooLarge);
}

#[test]
fn stepwise_preparation_enforces_per_attachment_limit() {
    let limits = PreparationLimits::new().with_max_attachment_bytes(Some(3));
    let message = message_with(vec![Attachment::reference(content_type(), AttachmentReference::new("large"))]);
    let error = prepare(message, &MapResolver::new().with_entry("large", b"four".to_vec()), limits)
        .expect_err("oversized attachment fails");
    assert_eq!(error.kind, ResolveErrorKind::TooLarge);
}

#[test]
fn stepwise_preparation_enforces_total_limit_across_existing_and_resolved_bytes() {
    let limits = PreparationLimits::new().with_max_total_bytes(Some(7));
    let message = message_with(vec![
        Attachment::bytes(content_type(), b"four".to_vec()),
        Attachment::reference(content_type(), AttachmentReference::new("another-four")),
    ]);
    let error = prepare(message, &MapResolver::new().with_entry("another-four", b"more".to_vec()), limits)
        .expect_err("oversized total fails");
    assert_eq!(error.kind, ResolveErrorKind::TooLarge);
    assert_eq!(error.message(), "total attachment size 8 exceeds the configured limit");
}

#[test]
fn stepwise_preparation_passes_resolver_failures_on() {
    let message = message_with(vec![Attachment::reference(content_type(), AttachmentReference::new("gone"))]);
    let error = prepare(message, &MapResolver::new(), PreparationLimits::default()).expect_err("missing fails");
    assert_eq!(error.kind, ResolveErrorKind::NotFound);
}

#[test]
fn send_plan_passes_byte_only_messages_through_under_the_limits() {
    let bytes_only = message_with(vec![Attachment::bytes(content_type(), b"four".to_vec())]);
    let with_reference = message_with(vec![Attachment::reference(content_type(), AttachmentReference::new("x"))]);
    let tight = PreparationLimits::new().with_max_total_bytes(Some(3));

    assert_eq!(plan_send(&bytes_only, &PreparationLimits::new()), Ok(SendPlan::PassThrough));
    assert!(enforce_limits(&bytes_only, &tight).is_err());
    assert_eq!(plan_send(&bytes_only, &tight).expect_err("too large").kind, ResolveErrorKind::TooLarge);
    assert_eq!(plan_send(&with_reference, &tight), Ok(SendPlan::Prepare));
}

#[test]
fn resolution_errors_map_to_transport_retry_classification() {
    let cases = [
        (ResolveErrorKind::UnsupportedReference, DeliveryErrorKind::UnsupportedFeature, false),
        (ResolveErrorKind::NotFound, DeliveryErrorKind::Validation, false),
        (ResolveErrorKind::TooLarge, DeliveryErrorKind::Validation, false),
        (ResolveErrorKind::Denied, DeliveryErrorKind::Internal, false),
        (ResolveErrorKind::Transient, DeliveryErrorKind::TransientProvider, true),
        (ResolveErrorKind::Internal, DeliveryErrorKind::Internal, false),
    ];
    for (resolve_kind, transport_kind, retryable) in cases {
        let error = DeliveryError::from(AttachmentResolveError::new(resolve_kind, "failed"));
        assert_eq!(error.kind, transport_kind);
        assert_eq!(error.message, "failed");
        assert_eq!(error.is_retryable(), retryable);
        assert_eq!(error.is_terminal(), !retryable);
        assert!(error.source.is_some());
        assert_eq!(error.source.as_deref(), Some(format!("{}: failed", resolve_kind.to_string()).as_str()));
        assert_eq!(delivery_error_kind(resolve_kind), transport_kind);
    }
}

#[test]
fn resolving_transport_keeps_its_parts() {
    let transport = ResolvingTransport::new("inner", MapResolver::new());
    assert_eq!(*transport.limits(), PreparationLimits::new());
    let limits = PreparationLimits::new().with_max_attachment_bytes(Some(10));
    let transport = transport.with_limits(limits);
    assert_eq!(*transport.limits(), limits);
    assert_eq!(*transport.inner(), "inner");
    assert!(transport.resolver().resolve(&AttachmentReference::new("x")).is_err());
    assert_eq!(transport.into_inner(), "inner");
}

#[test]
fn store_paths_stay_inside_the_root() {
    for valid in ["reports/weekly.pdf", "a..b/c", "file", ".hidden/x"] {
        assert!(is_relative_path_within_root(valid), "{valid}");
    }
    for invalid in ["", "/etc/passwd", "\\share", "a/../b", "..", "a\\..", "nul\0byte"] {
        assert!(!is_relative_path_within_root(invalid), "{invalid:?}");
    }
    assert_eq!(store_path(&AttachmentReference::new("  reports/weekly.pdf \n")), Ok("reports/weekly.pdf".to_owned()));
    let error = store_path(&AttachmentReference::new(" ../secret ")).expect_err("escapes the root");
    assert_eq!(error.kind, ResolveErrorKind::UnsupportedReference);
    assert_eq!(error.message(), "attachment path `../secret` is not relative to the configured store root");
}

#[test]
fn stored_content_over_the_limit_is_too_large() {
    assert!(admit_stored_length("a.pdf", 1024, 1024).is_ok());
    let error = admit_stored_length("a.pdf", 1025, 1024).expect_err("over the limit");
    assert_eq!(error, too_large("a.pdf", 1024));
    assert_eq!(error.message(), "attachment `a.pdf` exceeds the configured limit of 1024 bytes");
}

#[test]
fn store_failures_are_classified_by_retry_policy() {
    let cases = [
        (StoreErrorKind::PermissionDenied, false, ResolveErrorKind::Denied),
        (StoreErrorKind::RateLimited, false, ResolveErrorKind::Transient),
        (StoreErrorKind::Other, true, ResolveErrorKind::Transient),
        (StoreErrorKind::Unsupported, false, ResolveErrorKind::UnsupportedReference),
        (StoreErrorKind::IsADirectory, false, ResolveErrorKind::UnsupportedReference),
        (StoreErrorKind::NotADirectory, false, ResolveErrorKind::UnsupportedReference),
        (StoreErrorKind::NotFound, false, ResolveErrorKind::NotFound),
        (StoreErrorKind::NotFound, true, ResolveErrorKind::Transient),
        (StoreErrorKind::Other, false, ResolveErrorKind::Internal),
    ];
    for (kind, temporary, expected) in cases {
        let failure = StoreFailure { kind, temporary };
        assert_eq!(classify_store_failure(failure), expected, "{kind:?} temporary={temporary}");
        let error = store_failure_error(failure, "backend said no");
        assert_eq!(error.kind(), expected);
        assert_eq!(error.message(), "OpenDAL failed to resolve the attachment");
        assert_eq!(error.source(), Some("backend said no"));
    }
}

#[test]
fn read_failures_use_the_backend_failure_first() {
    let cases = [
        (IoErrorKind::NotFound, ResolveErrorKind::NotFound),
        (IoErrorKind::PermissionDenied, ResolveErrorKind::Denied),
        (IoErrorKind::InvalidInput, ResolveErrorKind::UnsupportedReference),
        (IoErrorKind::Unsupported, ResolveErrorKind::UnsupportedReference),
        (IoErrorKind::Interrupted, ResolveErrorKind::Transient),
        (IoErrorKind::TimedOut, ResolveErrorKind::Transient),
        (IoErrorKind::WouldBlock, ResolveErrorKind::Transient),
        (IoErrorKind::Other, ResolveErrorKind::Internal),
    ];
    for (kind, expected) in cases {
        let error = read_failure_error(None, kind, "read failed");
        assert_eq!(error.kind(), expected, "{kind:?}");
        assert_eq!(error.message(), "OpenDAL failed while reading the attachment");
    }
    let backend = StoreFailure { kind: StoreErrorKind::PermissionDenied, temporary: false };
    assert_eq!(read_failure_error(Some(backend), IoErrorKind::TimedOut, "x").kind(), ResolveErrorKind::Denied);
}

#[test]
fn fallback_step_passes_on_only_unsupported_references() {
    let unsupported = Err(AttachmentResolveError::new(ResolveErrorKind::UnsupportedReference, "no scheme"));
    assert!(matches!(fallback_step(unsupported), FallbackStep::AskFallback));
    for kind in [
        ResolveErrorKind::NotFound,
        ResolveErrorKind::Denied,
        ResolveErrorKind::TooLarge,
        ResolveErrorKind::Transient,
        ResolveErrorKind::Internal,
    ] {
        match fallback_step(Err(AttachmentResolveError::new(kind, "failed"))) {
            FallbackStep::Settled(Err(e)) => assert_eq!(e.kind(), kind),
            _ => panic!("{kind:?} must be the answer"),
        }
    }
    match fallback_step(Ok(ResolvedAttachment::new(vec![1, 2]))) {
        FallbackStep::Settled(Ok(a)) => assert_eq!(a.bytes, vec![1, 2]),
        _ => panic!("a success is the answer"),
    }
}

#[test]
fn delivery_errors_keep_a_source_description() {
    let error = DeliveryError::new(DeliveryErrorKind::Internal, "boom").with_source("disk on fire");
    assert_eq!(error.source.as_deref(), Some("disk on fire"));
    assert_eq!(DeliveryError::new(DeliveryErrorKind::Internal, "boom").source, None);
}
