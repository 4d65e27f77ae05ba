use email_kit::cloudflare::{
    EmailPayload, PROVIDER, PayloadAddress, PayloadDisposition, build_payload, classify, map_binding_error,
};
use email_kit::delivery::{DeliveryError, DeliveryErrorKind};
use email_kit::message::DateTime;
use email_kit::{
    Address, Attachment, AttachmentReference, Body, ContentType, Disposition, Header, Mailbox, Message, MimePart,
    OutboundMessage,
};

#[test]
fn provider_constant_is_stable() {
    assert_eq!(PROVIDER, "cloudflare");
}

#[test]
fn codes_are_classified_by_table() {
    let cases: &[(&str, DeliveryErrorKind, bool)] = &[
        ("E_VALIDATION_ERROR", DeliveryErrorKind::Validation, false),
        ("E_FIELD_MISSING", DeliveryErrorKind::Validation, false),
        ("E_TOO_MANY_RECIPIENTS", DeliveryErrorKind::Validation, false),
        ("E_TOO_MANY_ATTACHMENTS", DeliveryErrorKind::Validation, false),
        ("E_CONTENT_TOO_LARGE", DeliveryErrorKind::Validation, false),
        ("E_HEADER_NOT_ALLOWED", DeliveryErrorKind::Validation, false),
        ("E_HEADER_USE_API_FIELD", DeliveryErrorKind::Validation, false),
        ("E_HEADER_VALUE_INVALID", DeliveryErrorKind::Validation, false),
        ("E_HEADER_VALUE_TOO_LONG", DeliveryErrorKind::Validation, false),
        ("E_HEADER_NAME_INVALID", DeliveryErrorKind::Validation, false),
        ("E_HEADERS_TOO_LARGE", DeliveryErrorKind::Validation, false),
        ("E_HEADERS_TOO_MANY", DeliveryErrorKind::Validation, false),
        ("E_SENDER_NOT_VERIFIED", DeliveryErrorKind::Authorization, false),
        ("E_SENDER_DOMAIN_NOT_AVAILABLE", DeliveryErrorKind::Authorization, false),
        ("E_RECIPIENT_NOT_ALLOWED", DeliveryErrorKind::Authorization, false),
        ("RCPT_NOT_ALLOWED", DeliveryErrorKind::Authorization, false),
        ("E_RECIPIENT_SUPPRESSED", DeliveryErrorKind::PermanentProvider, false),
        ("E_RATE_LIMIT_EXCEEDED", DeliveryErrorKind::RateLimited, true),
        ("E_DAILY_LIMIT_EXCEEDED", DeliveryErrorKind::RateLimited, true),
        ("E_INTERNAL_SERVER_ERROR", DeliveryErrorKind::TransientProvider, true),
        ("E_DELIVERY_FAILED", DeliveryErrorKind::PermanentProvider, false),
        ("E_SOMETHING_NEW", DeliveryErrorKind::PermanentProvider, false),
    ];

    for (code, kind, retryable) in cases {
        let error = map_binding_error(Some(code), "platform says no");

        assert_eq!(error.kind, *kind, "{code}: kind");
        assert_eq!(classify(code), *kind, "{code}: classify");
        assert_eq!(error.is_retryable(), *retryable, "{code}: retryable");
        assert_eq!(error.provider_error_code.as_deref(), Some(*code), "{code}: code");
        assert_eq!(error.message, "platform says no", "{code}: message");
    }
}

#[test]
fn missing_code_is_internal() {
    let error = map_binding_error(None, "TypeError: boom");

    assert_eq!(error.kind, DeliveryErrorKind::Internal);
    assert_eq!(error.provider_error_code, None);
    assert_eq!(error.message, "TypeError: boom");
    assert!(!error.is_retryable());
}

fn mailbox(input: &str) -> Mailbox {
    input.parse().expect("valid mailbox fixture")
}

fn address(name: Option<&str>, email: &str) -> PayloadAddress {
    PayloadAddress {
        name: name.map(str::to_owned),
        email: email.to_owned(),
    }
}

fn message_with(body: Body) -> OutboundMessage {
    Message::builder(body)
        .from_mailbox(mailbox("sender@example.com"))
        .to(vec![Address::Mailbox(mailbox("recipient@example.com"))])
        .subject("Hello")
        .build_outbound()
        .expect("message should validate")
}

fn minimal_message() -> OutboundMessage {
    message_with(Body::text("Body"))
}

fn message_with_attachment(attachment: Attachment) -> OutboundMessage {
    Message::builder(Body::text("Body"))
        .from_mailbox(mailbox("sender@example.com"))
        .to(vec![Address::Mailbox(mailbox("recipient@example.com"))])
        .subject("Hello")
        .add_attachment(attachment)
        .build_outbound()
        .expect("message should validate")
}

fn payload_for(message: &OutboundMessage) -> EmailPayload {
    build_payload(message.as_message()).expect("message should map to a payload")
}

fn error_for(message: &OutboundMessage) -> DeliveryError {
    build_payload(message.as_message()).expect_err("message should be rejected")
}

// --- addresses --------------------------------------------------------

#[test]
fn display_names_are_preserved_on_every_address_field() {
    let message = Message::builder(Body::text("Body"))
        .from_mailbox(mailbox("Sender <sender@example.com>"))
        .to(vec![Address::Mailbox(mailbox("To <to@example.com>"))])
        .cc(vec![Address::Mailbox(mailbox("Cc <cc@example.com>"))])
        .bcc(vec![Address::Mailbox(mailbox("Bcc <bcc@example.com>"))])
        .reply_to(vec![Address::Mailbox(mailbox("Reply <reply@example.com>"))])
        .build_outbound()
        .expect("message should validate");

    let payload = payload_for(&message);

    assert_eq!(payload.from, address(Some("Sender"), "sender@example.com"));
    assert_eq!(payload.to, vec![address(Some("To"), "to@example.com")]);
    assert_eq!(payload.cc, vec![address(Some("Cc"), "cc@example.com")]);
    assert_eq!(payload.bcc, vec![address(Some("Bcc"), "bcc@example.com")]);
    assert_eq!(
        payload.reply_to,
        Some(address(Some("Reply"), "reply@example.com"))
    );
}

#[test]
fn groups_are_flattened_to_member_mailboxes() {
    let message = Message::builder(Body::text("Body"))
        .from_mailbox(mailbox("sender@example.com"))
        .to(vec![
            "Friends: Ada <a@example.com>, b@example.com;"
                .parse::<Address>()
                .expect("valid group address"),
        ])
        .build_outbound()
        .expect("message should validate");

    let payload = payload_for(&message);

    assert_eq!(
        payload.to,
        vec![
            address(Some("Ada"), "a@example.com"),
            address(None, "b@example.com")
        ]
    );
}

#[test]
fn cc_only_message_is_accepted() {
    let message = Message::builder(Body::text("Body"))
        .from_mailbox(mailbox("sender@example.com"))
        .cc(vec![Address::Mailbox(mailbox("cc@example.com"))])
        .build_outbound()
        .expect("message should validate");

    let payload = payload_for(&message);

    assert!(payload.to.is_empty());
    assert_eq!(payload.cc, vec![address(None, "cc@example.com")]);
}

#[test]
fn bcc_only_message_is_accepted() {
    let message = Message::builder(Body::text("Body"))
        .from_mailbox(mailbox("sender@example.com"))
        .bcc(vec![Address::Mailbox(mailbox("hidden@example.com"))])
        .build_outbound()
        .expect("message should validate");

    let payload = payload_for(&message);

    assert!(payload.to.is_empty());
    assert_eq!(payload.bcc, vec![address(None, "hidden@example.com")]);
}

#[test]
fn empty_group_with_no_other_recipients_fails_validation() {
    // An empty group satisfies `OutboundMessage`'s recipient check (the
    // `to` list is non-empty) but flattens to zero mailboxes, so this is
    // the one way a message with no recipients reaches the transport.
    let message = Message::builder(Body::text("Body"))
        .from_mailbox(mailbox("sender@example.com"))
        .to(vec![
            "Undisclosed recipients:;"
                .parse::<Address>()
                .expect("valid empty group address"),
        ])
        .build_outbound()
        .expect("an empty group passes message validation");

    let error = error_for(&message);

    assert_eq!(error.kind, DeliveryErrorKind::Validation);
    assert!(error.message.contains("recipient"));
}

#[test]
fn missing_from_fails_validation() {
    let message = Message::builder(Body::text("Body"))
        .to(vec![Address::Mailbox(mailbox("recipient@example.com"))])
        .build_unchecked();

    let error = build_payload(&message).expect_err("missing From should be rejected");

    assert_eq!(error.kind, DeliveryErrorKind::Validation);
    assert!(error.message.contains("From"));
}

#[test]
fn multiple_reply_to_mailboxes_are_unsupported() {
    let message = Message::builder(Body::text("Body"))
        .from_mailbox(mailbox("sender@example.com"))
        .to(vec![Address::Mailbox(mailbox("recipient@example.com"))])
        .reply_to(vec![
            Address::Mailbox(mailbox("a@example.com")),
            Address::Mailbox(mailbox("b@example.com")),
        ])
        .build_outbound()
        .expect("message should validate");

    let error = error_for(&message);

    assert_eq!(error.kind, DeliveryErrorKind::UnsupportedFeature);
    assert!(error.message.contains("Reply-To"));
}

#[test]
fn absent_reply_to_is_omitted() {
    assert_eq!(payload_for(&minimal_message()).reply_to, None);
}

// --- subject and body -------------------------------------------------

#[test]
fn missing_subject_is_sent_as_empty_string() {
    let message = Message::builder(Body::text("Body"))
        .from_mailbox(mailbox("sender@example.com"))
        .to(vec![Address::Mailbox(mailbox("recipient@example.com"))])
        .build_outbound()
        .expect("message should validate");

    assert_eq!(payload_for(&message).subject, "");
}

#[test]
fn text_body_maps_to_text() {
    let payload = payload_for(&message_with(Body::text("Plain")));

    assert_eq!(payload.text.as_deref(), Some("Plain"));
    assert_eq!(payload.html, None);
}

#[test]
fn html_body_maps_to_html() {
    let payload = payload_for(&message_with(Body::html("<p>Rich</p>")));

    assert_eq!(payload.text, None);
    assert_eq!(payload.html.as_deref(), Some("<p>Rich</p>"));
}

#[test]
fn text_and_html_body_maps_to_both() {
    let payload = payload_for(&message_with(Body::text_and_html("Plain", "<p>Rich</p>")));

    assert_eq!(payload.text.as_deref(), Some("Plain"));
    assert_eq!(payload.html.as_deref(), Some("<p>Rich</p>"));
}

#[test]
fn empty_text_in_text_and_html_is_dropped() {
    let payload = payload_for(&message_with(Body::text_and_html("", "<p>Rich</p>")));

    assert_eq!(payload.text, None);
    assert_eq!(payload.html.as_deref(), Some("<p>Rich</p>"));
}

#[test]
fn empty_body_fails_validation() {
    let error = error_for(&message_with(Body::text("")));

    assert_eq!(error.kind, DeliveryErrorKind::Validation);
    assert!(error.message.contains("body"));
}

#[test]
fn mime_body_is_unsupported() {
    let body = Body::Mime(MimePart::Leaf {
        content_type: ContentType::try_from("text/plain").expect("content type parses"),
        content_transfer_encoding: None,
        content_disposition: None,
        body: b"Body".to_vec(),
    });

    let error = error_for(&message_with(body));

    assert_eq!(error.kind, DeliveryErrorKind::UnsupportedFeature);
}

// --- headers ----------------------------------------------------------

#[test]
fn custom_headers_are_forwarded() {
    let message = Message::builder(Body::text("Body"))
        .from_mailbox(mailbox("sender@example.com"))
        .to(vec![Address::Mailbox(mailbox("recipient@example.com"))])
        .add_header(Header::new("X-Campaign", "spring").expect("header validates"))
        .add_header(
            Header::new("List-Unsubscribe", "<mailto:unsub@example.com>")
                .expect("header validates"),
        )
        .add_header(
            Header::new("In-Reply-To", "<parent@example.com>").expect("header validates"),
        )
        .build_outbound()
        .expect("message should validate");

    let payload = payload_for(&message);

    assert_eq!(payload.headers.len(), 3);
    assert_eq!(payload.header("X-Campaign"), Some("spring"));
    assert_eq!(payload.header("List-Unsubscribe"), Some("<mailto:unsub@example.com>"));
    assert_eq!(payload.header("In-Reply-To"), Some("<parent@example.com>"));
}

#[test]
fn header_names_fold_case_insensitively_keeping_first_spelling_and_last_value() {
    let message = Message::builder(Body::text("Body"))
        .from_mailbox(mailbox("sender@example.com"))
        .to(vec![Address::Mailbox(mailbox("recipient@example.com"))])
        .add_header(Header::new("X-Campaign", "spring").expect("header validates"))
        .add_header(Header::new("x-campaign", "summer").expect("header validates"))
        .add_header(Header::new("X-CAMPAIGN", "autumn").expect("header validates"))
        .add_header(Header::new("X-Other", "kept").expect("header validates"))
        .build_outbound()
        .expect("message should validate");

    let payload = payload_for(&message);

    assert_eq!(payload.headers.len(), 2, "headers: {:?}", payload.headers);
    assert_eq!(payload.header("X-Campaign"), Some("autumn"));
    assert_eq!(payload.header("X-Other"), Some("kept"));
}

#[test]
fn date_message_id_and_sender_are_never_emitted() {
    let message = Message::builder(Body::text("Body"))
        .from_mailbox(mailbox("sender@example.com"))
        .sender(mailbox("bounce@example.com"))
        .to(vec![Address::Mailbox(mailbox("recipient@example.com"))])
        .date(DateTime { unix_timestamp: 0, nanosecond: 0, offset_seconds: 0 })
        .message_id("<mine@example.com>".parse().expect("message id parses"))
        .build_outbound()
        .expect("message should validate");

    let payload = payload_for(&message);

    assert!(payload.headers.is_empty(), "headers: {:?}", payload.headers);
}

// --- attachments ------------------------------------------------------

#[test]
fn byte_attachment_carries_metadata_and_binary_content() {
    let content = b"hello\xff\0world";
    let message = message_with_attachment(
        Attachment::bytes(
            ContentType::try_from("application/octet-stream").expect("content type parses"),
            content.to_vec(),
        )
        .with_filename("report.bin"),
    );

    let payload = payload_for(&message);

    assert_eq!(payload.attachments.len(), 1);
    let attachment = &payload.attachments[0];
    assert_eq!(attachment.filename, "report.bin");
    assert_eq!(attachment.content_type, "application/octet-stream");
    assert_eq!(attachment.disposition, PayloadDisposition::Attachment);
    assert_eq!(attachment.content, content);
}

#[test]
fn inline_attachment_carries_content_id_and_disposition() {
    let message = message_with_attachment(
        Attachment::bytes(
            ContentType::try_from("image/png").expect("content type parses"),
            vec![0x89, b'P', b'N', b'G'],
        )
        .with_filename("logo.png")
        .with_content_id("logo")
        .with_disposition(Disposition::Inline),
    );

    let payload = payload_for(&message);

    let attachment = &payload.attachments[0];
    assert_eq!(attachment.filename, "logo.png");
    assert_eq!(attachment.content_type, "image/png");
    assert_eq!(
        attachment.disposition,
        PayloadDisposition::Inline {
            content_id: String::from("logo")
        }
    );
}

#[test]
fn regular_attachment_without_filename_is_named_by_position() {
    let pdf = ContentType::try_from("application/pdf").expect("content type parses");
    let message = Message::builder(Body::text("Body"))
        .from_mailbox(mailbox("sender@example.com"))
        .to(vec![Address::Mailbox(mailbox("recipient@example.com"))])
        .add_attachment(Attachment::bytes(pdf.clone(), b"%PDF-1".to_vec()))
        .add_attachment(
            Attachment::bytes(pdf.clone(), b"%PDF-2".to_vec()).with_filename("named.pdf"),
        )
        .add_attachment(Attachment::bytes(pdf, b"%PDF-3".to_vec()))
        .build_outbound()
        .expect("message should validate");

    let payload = payload_for(&message);

    let filenames: Vec<&str> = payload
        .attachments
        .iter()
        .map(|attachment| attachment.filename.as_str())
        .collect();
    assert_eq!(filenames, vec!["attachment-1", "named.pdf", "attachment-3"]);
}

#[test]
fn inline_attachment_without_filename_is_named_by_content_id() {
    let message = message_with_attachment(
        Attachment::bytes(
            ContentType::try_from("image/png").expect("content type parses"),
            vec![0x89, b'P', b'N', b'G'],
        )
        .with_content_id("logo@example.com")
        .with_disposition(Disposition::Inline),
    );

    assert_eq!(
        payload_for(&message).attachments[0].filename,
        "logo@example.com"
    );
}

#[test]
fn inline_attachment_without_content_id_fails_validation() {
    let message = message_with_attachment(
        Attachment::bytes(
            ContentType::try_from("image/png").expect("content type parses"),
            vec![0x89, b'P', b'N', b'G'],
        )
        .with_filename("logo.png")
        .with_disposition(Disposition::Inline),
    );

    let error = error_for(&message);

    assert_eq!(error.kind, DeliveryErrorKind::Validation);
    assert!(error.message.contains("content id"));
}

#[test]
fn content_id_on_regular_attachment_is_dropped() {
    let message = message_with_attachment(
        Attachment::bytes(
            ContentType::try_from("application/pdf").expect("content type parses"),
            b"%PDF".to_vec(),
        )
        .with_filename("report.pdf")
        .with_content_id("report"),
    );

    assert_eq!(
        payload_for(&message).attachments[0].disposition,
        PayloadDisposition::Attachment
    );
}

#[test]
fn attachment_reference_is_unsupported_with_preparation_hint() {
    let message = message_with_attachment(Attachment::reference(
        ContentType::try_from("application/pdf").expect("content type parses"),
        AttachmentReference::new("s3://bucket/key"),
    ));

    let error = error_for(&message);

    assert_eq!(error.kind, DeliveryErrorKind::UnsupportedFeature);
    assert!(
        error
            .message
            .contains("email_attachment::AttachmentResolvingTransport")
            && error
                .message
                .contains("email_attachment::prepare_attachments"),
        "error should point at attachment preparation: {error:?}"
    );
}
