use email_kit::delivery::{DeliveryError, DeliveryErrorKind};
use email_kit::resend::{ResendTag, check_content, collect_mailboxes, map_attachment, map_body};
use email_kit::smtp::{SmtpFailureFacts, classify_smtp_facts, render_error_kind, smtp_failure_error};
use email_kit::wire::render_rfc822;
use email_kit::{Address, Attachment, AttachmentReference, Body, ContentType, Message, MimePart};

#[test]
fn unsupported_render_variants_map_to_unsupported_feature() {
    let message = Message::builder(Body::text("body"))
        .from_mailbox("sender@example.com".parse().expect("sender parses"))
        .to(vec![Address::Mailbox("recipient@example.com".parse().expect("recipient parses"))])
        .add_attachment(Attachment::reference(
            ContentType::try_from("application/pdf").expect("content type parses"),
            AttachmentReference::new("s3://bucket/key"),
        ))
        .build_outbound()
        .expect("message validates");

    let render_error = render_rfc822(message.as_message()).expect_err("reference cannot render");
    let kind = render_error_kind(&render_error);

    assert_eq!(kind, DeliveryErrorKind::UnsupportedFeature);
}

#[test]
fn smtp_classification_matrix_matches_retry_policy() {
    let cases = [
        (
            classify_smtp_facts(SmtpFailureFacts {
                timeout: true,
                transient: true,
                status: Some(451),
                ..SmtpFailureFacts::default()
            }),
            DeliveryErrorKind::Timeout,
        ),
        (
            classify_smtp_facts(SmtpFailureFacts { permanent: true, status: Some(530), ..SmtpFailureFacts::default() }),
            DeliveryErrorKind::PermanentProvider,
        ),
        (
            classify_smtp_facts(SmtpFailureFacts { permanent: true, status: Some(535), ..SmtpFailureFacts::default() }),
            DeliveryErrorKind::Authentication,
        ),
        (
            classify_smtp_facts(SmtpFailureFacts { permanent: true, status: Some(538), ..SmtpFailureFacts::default() }),
            DeliveryErrorKind::UnsupportedFeature,
        ),
        (
            classify_smtp_facts(SmtpFailureFacts { transient: true, status: Some(451), ..SmtpFailureFacts::default() }),
            DeliveryErrorKind::TransientProvider,
        ),
        (
            classify_smtp_facts(SmtpFailureFacts { permanent: true, status: Some(550), ..SmtpFailureFacts::default() }),
            DeliveryErrorKind::PermanentProvider,
        ),
        (
            classify_smtp_facts(SmtpFailureFacts { response: true, ..SmtpFailureFacts::default() }),
            DeliveryErrorKind::TransientProvider,
        ),
        (
            classify_smtp_facts(SmtpFailureFacts { client: true, ..SmtpFailureFacts::default() }),
            DeliveryErrorKind::UnsupportedFeature,
        ),
        (
            classify_smtp_facts(SmtpFailureFacts { shutdown: true, ..SmtpFailureFacts::default() }),
            DeliveryErrorKind::Internal,
        ),
        (
            classify_smtp_facts(SmtpFailureFacts { tls: true, ..SmtpFailureFacts::default() }),
            DeliveryErrorKind::PermanentProvider,
        ),
        (classify_smtp_facts(SmtpFailureFacts::default()), DeliveryErrorKind::TransientNetwork),
    ];

    for (actual, expected) in cases {
        assert_eq!(actual, expected);
    }
}

#[test]
fn retry_policy_by_kind() {
    for kind in [
        DeliveryErrorKind::RateLimited,
        DeliveryErrorKind::TransientProvider,
        DeliveryErrorKind::TransientNetwork,
        DeliveryErrorKind::Timeout,
    ] {
        assert!(kind.is_retryable(), "{kind:?}");
    }
    for kind in [
        DeliveryErrorKind::Validation,
        DeliveryErrorKind::Authentication,
        DeliveryErrorKind::Authorization,
        DeliveryErrorKind::PermanentProvider,
        DeliveryErrorKind::UnsupportedFeature,
        DeliveryErrorKind::Internal,
    ] {
        assert!(!kind.is_retryable(), "{kind:?}");
    }
    let error = DeliveryError::new(DeliveryErrorKind::Timeout, "late").with_provider_error_code("T1");
    assert!(error.is_retryable());
    assert!(!error.is_terminal());
    assert_eq!(error.provider_error_code.as_deref(), Some("T1"));
}

#[test]
fn resend_tags_keep_name_and_value() {
    let tag = ResendTag::new("env", "prod");
    assert_eq!(tag.name, "env");
    assert_eq!(tag.value, "prod");
    assert_eq!(ResendTag::from(("env".to_owned(), "prod".to_owned())), tag);
}

#[test]
fn resend_recipients_are_displayed_mailboxes_with_groups_flattened() {
    let to = vec![
        "Friends: Ada <a@example.com>, b@example.com;".parse::<Address>().expect("valid group"),
        "Mary Smith <mary@x.test>".parse::<Address>().expect("valid mailbox"),
    ];
    assert_eq!(
        collect_mailboxes(&to),
        vec!["\"Ada\" <a@example.com>".to_owned(), "b@example.com".to_owned(), "\"Mary Smith\" <mary@x.test>".to_owned()]
    );
}

#[test]
fn resend_body_parts_and_content_rules() {
    assert_eq!(map_body(&Body::text("Plain")).expect("text maps"), (Some("Plain".to_owned()), None));
    assert_eq!(map_body(&Body::text_and_html("", "<p>x</p>")).expect("maps"), (None, Some("<p>x</p>".to_owned())));
    let mime = Body::Mime(MimePart::Leaf {
        content_type: ContentType::try_from("text/plain").expect("content type parses"),
        content_transfer_encoding: None,
        content_disposition: None,
        body: b"Body".to_vec(),
    });
    let error = map_body(&mime).expect_err("mime is unsupported");
    assert_eq!(error.kind, DeliveryErrorKind::UnsupportedFeature);
    assert!(check_content(false, true).is_ok());
    assert!(check_content(true, false).is_ok());
    assert_eq!(check_content(false, false).expect_err("nothing to send").message, "resend requires text/html body or template");
}

#[test]
fn resend_attachments_keep_metadata_and_refuse_references() {
    let attachment = Attachment::bytes(ContentType::try_from("image/png").expect("parses"), vec![1, 2])
        .with_filename("logo.png")
        .with_content_id("logo");
    let mapped = map_attachment(&attachment).expect("bytes map");
    assert_eq!(mapped.content, vec![1, 2]);
    assert_eq!(mapped.content_type, "image/png");
    assert_eq!(mapped.filename.as_deref(), Some("logo.png"));
    assert_eq!(mapped.content_id.as_deref(), Some("logo"));

    let reference = Attachment::reference(
        ContentType::try_from("application/pdf").expect("parses"),
        AttachmentReference::new("s3://bucket/key"),
    );
    let error = map_attachment(&reference).expect_err("references are refused");
    assert_eq!(error.kind, DeliveryErrorKind::UnsupportedFeature);
    assert!(error.message.contains("email_attachment::prepare_attachments"));
}

#[test]
fn smtp_failures_carry_the_reply_code_as_provider_code() {
    let rejected = SmtpFailureFacts { permanent: true, response: true, status: Some(550), ..SmtpFailureFacts::default() };
    let error = smtp_failure_error(rejected, "permanent error (550): mailbox unavailable");
    assert_eq!(error.kind, DeliveryErrorKind::PermanentProvider);
    assert_eq!(error.message, "permanent error (550): mailbox unavailable");
    assert_eq!(error.provider_error_code.as_deref(), Some("550"));

    let timeout = SmtpFailureFacts { timeout: true, ..SmtpFailureFacts::default() };
    let error = smtp_failure_error(timeout, "timed out");
    assert_eq!(error.kind, DeliveryErrorKind::Timeout);
    assert_eq!(error.provider_error_code, None);
    assert!(error.is_retryable());
}
