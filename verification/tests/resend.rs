use email_kit::delivery::DeliveryErrorKind;
use email_kit::resend::{
    ResendEmail, ResendFailure, ResendSendOptions, ResendTag, ResendTemplate, build_email_options, map_resend_error,
};
use email_kit::{Address, Attachment, AttachmentReference, Body, ContentType, Header, Mailbox, Message, OutboundMessage};
use serde_json::Value;

fn mailbox(input: &str) -> Mailbox {
    input.parse().expect("valid mailbox fixture")
}

fn message_with(body: Body) -> OutboundMessage {
    Message::builder(body)
        .from_mailbox(mailbox("sender@example.com"))
        .to(vec![Address::Mailbox(mailbox("recipient@example.com"))])
        .subject("Hello")
        .build_outbound()
        .expect("message should validate")
}

fn message_with_attachment(body: Body, attachment: Attachment) -> OutboundMessage {
    Message::builder(body)
        .from_mailbox(mailbox("sender@example.com"))
        .to(vec![Address::Mailbox(mailbox("recipient@example.com"))])
        .subject("Hello")
        .add_attachment(attachment)
        .build_outbound()
        .expect("message should validate")
}

fn build(message: &Message) -> ResendEmail {
    build_email_options(message, None, &[]).expect("payload should build")
}

fn header<'a>(email: &'a ResendEmail, name: &str) -> Option<&'a str> {
    email.headers.iter().find(|(n, _)| n == name).map(|(_, v)| v.as_str())
}

fn variable<'a>(template: &'a ResendTemplate, name: &str) -> Option<&'a Value> {
    template.variables()?.iter().find(|(n, _)| n == name).map(|(_, v)| v)
}

#[test]
fn build_payload_maps_text_body() {
    let message = message_with(Body::Text(String::from("Plain body")));

    let built = build(message.as_message());

    assert_eq!(built.text.as_deref(), Some("Plain body"));
    assert_eq!(built.html, None);
}

#[test]
fn build_payload_maps_html_body() {
    let message = message_with(Body::Html(String::from("<p>HTML body</p>")));

    let built = build(message.as_message());

    assert_eq!(built.html.as_deref(), Some("<p>HTML body</p>"));
    assert_eq!(built.text, None);
}

#[test]
fn build_payload_maps_byte_attachment() {
    let content = b"hello\xff\0world";
    let message = message_with_attachment(
        Body::Text(String::from("Body")),
        Attachment::bytes(
            ContentType::try_from("application/octet-stream").expect("content type parses"),
            content.to_vec(),
        )
        .with_filename("report.bin")
        .with_content_id("report"),
    );

    let built = build(message.as_message());

    assert_eq!(built.attachments.len(), 1);
    let attachment = &built.attachments[0];
    assert_eq!(attachment.content, content.to_vec());
    assert_eq!(attachment.content_id.as_deref(), Some("report"));
    assert_eq!(attachment.content_type, "application/octet-stream");
    assert_eq!(attachment.filename.as_deref(), Some("report.bin"));
}

#[test]
fn build_payload_rejects_unresolved_attachment_reference() {
    let message = message_with_attachment(
        Body::Text(String::from("Body")),
        Attachment::reference(
            ContentType::try_from("application/pdf").expect("content type parses"),
            AttachmentReference::new("s3://bucket/key"),
        ),
    );

    let error = build_email_options(message.as_message(), None, &[])
        .expect_err("unresolved reference should be rejected");

    assert_eq!(error.kind, DeliveryErrorKind::UnsupportedFeature);
    assert!(
        error.message.contains("email_attachment::ResolvingTransport")
            && error.message.contains("email_attachment::prepare_attachments"),
        "error should point at attachment preparation: {}",
        error.message
    );
}

#[test]
fn build_payload_flattens_groups() {
    let message = Message::builder(Body::Text(String::from("Body")))
        .from_mailbox(mailbox("sender@example.com"))
        .to(vec!["Friends: a@example.com;".parse::<Address>().expect("valid group address")])
        .subject("Hello")
        .build_outbound()
        .expect("message should validate");

    let built = build(message.as_message());

    assert_eq!(built.to[0], "a@example.com");
}

#[test]
fn build_payload_rejects_missing_recipients() {
    let message = Message::builder(Body::Text(String::from("Body")))
        .from_mailbox(mailbox("sender@example.com"))
        .subject("Hello")
        .build_unchecked();

    let error = build_email_options(&message, None, &[]).expect_err("missing recipients should be rejected");

    assert_eq!(error.kind, DeliveryErrorKind::Validation);
}

#[test]
fn build_payload_accepts_template_without_body() {
    let message = message_with(Body::Html(String::new()));

    let options = ResendSendOptions::new().with_template(ResendTemplate::new("tmpl_123"));

    let built = build_email_options(message.as_message(), Some(options), &[]);
    assert!(built.is_ok(), "template-only payload should be accepted");
}

#[test]
fn build_payload_maps_typed_options() {
    let message = message_with(Body::Text(String::from("Body")));

    let options = ResendSendOptions::new().with_tag("env", "test").with_template(
        ResendTemplate::new("tmpl_123").with_variables(vec![("name".to_owned(), Value::String(String::from("Mark")))]),
    );

    let built = build_email_options(message.as_message(), Some(options), &[]).expect("payload should build");

    assert_eq!(built.tags[0].name, "env");
    let template = built.template.as_ref().expect("template is set");
    assert_eq!(template.id(), "tmpl_123");
    assert_eq!(variable(template, "name"), Some(&Value::String(String::from("Mark"))));
}

#[test]
fn build_payload_includes_typed_standard_headers() {
    let message = Message::builder(Body::Text(String::from("Body")))
        .from_mailbox(mailbox("sender@example.com"))
        .sender(mailbox("bounce@example.com"))
        .to(vec![Address::Mailbox(mailbox("recipient@example.com"))])
        .message_id("<resend@example.com>".parse().expect("message id should parse"))
        .subject("Hello")
        .build_outbound()
        .expect("message should validate");
    let standard = vec![
        Header::new("Sender", "bounce@example.com").expect("valid header"),
        Header::new("Date", "Thu, 01 Jan 1970 00:00:00 +0000").expect("valid header"),
        Header::new("Message-ID", "<resend@example.com>").expect("valid header"),
    ];

    let built = build_email_options(message.as_message(), None, &standard).expect("payload should build");

    assert_eq!(header(&built, "Sender"), Some("bounce@example.com"));
    assert!(header(&built, "Date").is_some());
    assert_eq!(header(&built, "Message-ID"), Some("<resend@example.com>"));
}

#[test]
fn message_headers_replace_standard_headers_and_come_out_by_name() {
    let message = Message::builder(Body::text("Body"))
        .from_mailbox(mailbox("sender@example.com"))
        .to(vec![Address::Mailbox(mailbox("recipient@example.com"))])
        .add_header(Header::new("X-Tenant", "acme").expect("valid header"))
        .add_header(Header::new("Date", "Fri, 02 Jan 1970 00:00:00 +0000").expect("valid header"))
        .add_header(Header::new("X-Tenant", "globex").expect("valid header"))
        .build_unchecked();
    let standard = vec![Header::new("Date", "Thu, 01 Jan 1970 00:00:00 +0000").expect("valid header")];

    let built = build_email_options(&message, None, &standard).expect("payload should build");

    assert_eq!(
        built.headers,
        vec![
            ("Date".to_owned(), "Fri, 02 Jan 1970 00:00:00 +0000".to_owned()),
            ("X-Tenant".to_owned(), "globex".to_owned()),
        ]
    );
}

#[test]
fn each_defect_is_reported_in_order() {
    let no_from = Message::builder(Body::text("Body"))
        .to(vec![Address::Mailbox(mailbox("recipient@example.com"))])
        .build_unchecked();
    let error = build_email_options(&no_from, None, &[]).expect_err("From is required");
    assert_eq!(error.kind, DeliveryErrorKind::Validation);
    assert_eq!(error.message, "missing From mailbox");

    let empty = message_with(Body::text(""));
    let error = build_email_options(empty.as_message(), None, &[]).expect_err("content is required");
    assert_eq!(error.kind, DeliveryErrorKind::Validation);
    assert_eq!(error.message, "resend requires text/html body or template");

    let tags_only = ResendSendOptions::new().with_tag("env", "test");
    let error =
        build_email_options(empty.as_message(), Some(tags_only), &[]).expect_err("tags are no content");
    assert_eq!(error.message, "resend requires text/html body or template");
}

#[test]
fn reply_to_subject_and_recipients_are_copied() {
    let message = Message::builder(Body::text("Body"))
        .from_mailbox(mailbox("Ada <ada@example.com>"))
        .to(vec![Address::Mailbox(mailbox("to@example.com"))])
        .cc(vec![Address::Mailbox(mailbox("cc@example.com"))])
        .bcc(vec![Address::Mailbox(mailbox("bcc@example.com"))])
        .reply_to(vec![Address::Mailbox(mailbox("reply@example.com"))])
        .build_outbound()
        .expect("message should validate");

    let built = build(message.as_message());

    assert_eq!(built.from, "\"Ada\" <ada@example.com>");
    assert_eq!(built.to, vec!["to@example.com".to_owned()]);
    assert_eq!(built.cc, vec!["cc@example.com".to_owned()]);
    assert_eq!(built.bcc, vec!["bcc@example.com".to_owned()]);
    assert_eq!(built.reply_to, vec!["reply@example.com".to_owned()]);
    assert_eq!(built.subject, "");
    assert!(built.tags.is_empty());
    assert!(built.template.is_none());
}

#[test]
fn template_variables_insert_or_replace_and_the_last_pair_wins() {
    let template = ResendTemplate::new("tmpl_1")
        .with_variable("name", Value::from("Ada"))
        .with_variable("plan", Value::from("free"))
        .with_variable("name", Value::from("Grace"));
    assert_eq!(variable(&template, "name"), Some(&Value::from("Grace")));
    assert_eq!(variable(&template, "plan"), Some(&Value::from("free")));
    assert_eq!(template.variables().expect("variables are set").len(), 2);

    let template = template.with_variables(vec![
        ("plan".to_owned(), Value::from("pro")),
        ("seats".to_owned(), Value::from(3)),
        ("plan".to_owned(), Value::from("team")),
    ]);
    assert_eq!(variable(&template, "plan"), Some(&Value::from("team")));
    assert_eq!(variable(&template, "seats"), Some(&Value::from(3)));
    assert_eq!(variable(&template, "name"), Some(&Value::from("Grace")));

    assert!(ResendTemplate::new("tmpl_2").variables().is_none());
    let empty = ResendTemplate::new("tmpl_2").with_variables(Vec::new());
    assert_eq!(empty.variables().map(<[_]>::len), Some(0));
}

#[test]
fn send_options_collect_tags_in_order() {
    let options = ResendSendOptions::new()
        .with_tag("env", "test")
        .with_tags(vec![ResendTag::new("tenant", "acme"), ResendTag::new("tier", "gold")]);
    assert_eq!(
        options.tags.iter().map(|t| (t.name.as_str(), t.value.as_str())).collect::<Vec<_>>(),
        vec![("env", "test"), ("tenant", "acme"), ("tier", "gold")]
    );
    assert!(!options.is_empty());
    assert!(ResendSendOptions::new().is_empty());
    assert!(ResendSendOptions::default().is_empty());
    assert!(!ResendSendOptions::new().with_template(ResendTemplate::new("t")).is_empty());
}

#[test]
fn map_resend_error_classifies_rate_limit() {
    let error = map_resend_error(
        ResendFailure::RateLimit { reset_secs: Some(42) },
        DeliveryErrorKind::Internal,
        "rate limited: 10 requests, 0 remaining",
    );

    assert_eq!(error.kind, DeliveryErrorKind::RateLimited);
    assert_eq!(error.http_status, Some(429));
    assert_eq!(error.retry_after_secs, Some(42));
    assert_eq!(error.provider_error_code.as_deref(), Some("rate_limit_exceeded"));
}

#[test]
fn map_resend_error_does_not_surface_success_status_from_error_body() {
    let error = map_resend_error(
        ResendFailure::Api {
            status_code: 200,
            name: String::from("internal_error"),
            message: String::from("provider misbehavior"),
        },
        DeliveryErrorKind::Internal,
        "internal_error: provider misbehavior",
    );

    assert_eq!(error.kind, DeliveryErrorKind::TransientProvider);
    assert_eq!(error.http_status, None);
    assert_eq!(error.provider_error_code.as_deref(), Some("internal_error"));
}

#[test]
fn map_resend_error_keeps_error_statuses_and_the_source() {
    let error = map_resend_error(
        ResendFailure::Api {
            status_code: 422,
            name: String::from("validation_error"),
            message: String::from("bad from"),
        },
        DeliveryErrorKind::Validation,
        "validation_error: bad from",
    );
    assert_eq!(error.kind, DeliveryErrorKind::Validation);
    assert_eq!(error.http_status, Some(422));
    assert_eq!(error.message, "bad from");
    assert_eq!(error.source.as_deref(), Some("validation_error: bad from"));

    let timeout = map_resend_error(
        ResendFailure::Http { timeout: true, builder: false, message: String::from("timed out") },
        DeliveryErrorKind::Internal,
        "timed out",
    );
    assert_eq!(timeout.kind, DeliveryErrorKind::Timeout);
    assert!(timeout.is_retryable());
    let other = map_resend_error(ResendFailure::Other { message: String::from("boom") }, DeliveryErrorKind::Internal, "boom");
    assert_eq!(other.kind, DeliveryErrorKind::Internal);
    assert!(other.is_terminal());
}
