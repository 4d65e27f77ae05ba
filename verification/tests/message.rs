use email_kit::address::{Address, Mailbox};
use email_kit::email::EmailAddress;
use email_kit::message::{
    Attachment, AttachmentReference, Body, DateTime, Header, Message, MessageValidationError,
};
use email_kit::message_id::MessageId;
use email_kit::mime_types::ContentType;

fn mailbox(input: &str) -> Mailbox {
    input.parse::<Mailbox>().expect("mailbox should parse")
}

fn address(input: &str) -> Address {
    input.parse::<Address>().expect("address should parse")
}

#[test]
fn body_convenience_constructors_create_expected_variants() {
    assert_eq!(Body::text("hello"), Body::Text("hello".to_owned()));
    assert_eq!(Body::html("<p>hello</p>"), Body::Html("<p>hello</p>".to_owned()));
    assert_eq!(
        Body::text_and_html("hello", "<p>hello</p>"),
        Body::TextAndHtml { text: "hello".to_owned(), html: "<p>hello</p>".to_owned() }
    );
}

#[test]
fn attachment_reference_constructor_preserves_uri() {
    let reference = AttachmentReference::new("s3://bucket/path/report.pdf");
    assert_eq!(reference.uri(), "s3://bucket/path/report.pdf");
}

#[test]
fn validate_basic_reports_sender_without_from() {
    let error = Message::builder(Body::text("body"))
        .sender(mailbox("sender@example.com"))
        .add_to(address("to@example.com"))
        .build()
        .expect_err("message should be invalid");
    assert_eq!(error, MessageValidationError::SenderWithoutFrom);
}

#[test]
fn validate_basic_rejects_reserved_header_names() {
    let error = Message::builder(Body::text("body"))
        .from_mailbox(mailbox("from@example.com"))
        .add_to(address("to@example.com"))
        .add_header(Header::new("Subject", "shadow").expect("header should validate"))
        .build()
        .expect_err("reserved header should be rejected");
    assert!(matches!(error, MessageValidationError::ReservedHeaderName { ref name } if name == "Subject"));
}

#[test]
fn validate_basic_rejects_reserved_header_case_insensitively() {
    let error = Message::builder(Body::text("body"))
        .from_mailbox(mailbox("from@example.com"))
        .add_to(address("to@example.com"))
        .add_header(Header::new("MESSAGE-ID", "<x@y>").expect("header should validate"))
        .build()
        .expect_err("reserved header should be rejected");
    assert!(matches!(error, MessageValidationError::ReservedHeaderName { ref name } if name == "MESSAGE-ID"));
}

#[test]
fn validate_basic_rejects_subject_with_crlf_injection() {
    let error = Message::builder(Body::text("body"))
        .from_mailbox(mailbox("from@example.com"))
        .add_to(address("to@example.com"))
        .subject("hi\r\nBcc: victim@example.com")
        .build()
        .expect_err("subject CRLF injection should be rejected");
    assert_eq!(error, MessageValidationError::SubjectContainsInvalidChars);
}

#[test]
fn validate_basic_rejects_subject_with_bare_lf() {
    let error = Message::builder(Body::text("body"))
        .from_mailbox(mailbox("from@example.com"))
        .add_to(address("to@example.com"))
        .subject("hi\nbcc")
        .build()
        .expect_err("subject bare LF should be rejected");
    assert_eq!(error, MessageValidationError::SubjectContainsInvalidChars);
}

#[test]
fn validate_basic_rejects_subject_with_control_char() {
    let error = Message::builder(Body::text("body"))
        .from_mailbox(mailbox("from@example.com"))
        .add_to(address("to@example.com"))
        .subject("hi\x07boss")
        .build()
        .expect_err("subject control char should be rejected");
    assert_eq!(error, MessageValidationError::SubjectContainsInvalidChars);
}

#[test]
fn validate_basic_rejects_from_mailbox_with_crlf_in_display_name() {
    let email = "alice@example.com".parse::<EmailAddress>().expect("email parses");
    let hostile_from = Mailbox::from_name_and_email("evil\r\nBcc: attacker@example.com".to_string(), email);
    let error = Message::builder(Body::text("body"))
        .from_mailbox(hostile_from)
        .add_to(address("to@example.com"))
        .build()
        .expect_err("hostile From display name should be rejected");
    assert!(matches!(error, MessageValidationError::MailboxDisplayNameContainsInvalidChars { .. }));
}

#[test]
fn validate_basic_rejects_to_mailbox_with_lf_in_display_name() {
    let email = "victim@example.com".parse::<EmailAddress>().expect("email parses");
    let hostile_to = Address::Mailbox(Mailbox::from_name_and_email("name\ninjection".to_string(), email));
    let error = Message::builder(Body::text("body"))
        .from_mailbox(mailbox("from@example.com"))
        .add_to(hostile_to)
        .build()
        .expect_err("hostile To display name should be rejected");
    assert!(matches!(error, MessageValidationError::MailboxDisplayNameContainsInvalidChars { .. }));
}

#[test]
fn validate_basic_rejects_group_member_with_nul_in_display_name() {
    let email = "member@example.com".parse::<EmailAddress>().expect("email parses");
    let hostile_cc = Address::Mailbox(Mailbox::from_name_and_email("embed\0nul".to_string(), email));
    let error = Message::builder(Body::text("body"))
        .from_mailbox(mailbox("from@example.com"))
        .add_cc(hostile_cc)
        .build()
        .expect_err("hostile Cc display name should be rejected");
    assert!(matches!(error, MessageValidationError::MailboxDisplayNameContainsInvalidChars { .. }));
}

#[test]
fn validate_basic_accepts_mailbox_with_tab_in_display_name() {
    let email = "alice@example.com".parse::<EmailAddress>().expect("email parses");
    let from = Mailbox::from_name_and_email("Alice\tBob".to_string(), email);
    Message::builder(Body::text("body"))
        .from_mailbox(from)
        .add_to(address("to@example.com"))
        .build()
        .expect("tab in display name should be accepted");
}

#[test]
fn validate_basic_accepts_subject_with_tab() {
    let message = Message::builder(Body::text("body"))
        .from_mailbox(mailbox("from@example.com"))
        .add_to(address("to@example.com"))
        .subject("hi\tworld")
        .build()
        .expect("subject with tab should be accepted");
    assert_eq!(message.subject(), Some("hi\tworld"));
}

#[test]
fn outbound_message_from_mailbox_returns_validated_field() {
    let outbound = Message::builder(Body::text("body"))
        .from_mailbox(mailbox("alice@example.com"))
        .add_to(address("bob@example.com"))
        .build_outbound()
        .expect("message should validate");
    assert_eq!(outbound.from_mailbox().email().as_str(), "alice@example.com");
}

#[test]
fn builder_constructs_valid_message() {
    let date = DateTime { unix_timestamp: 1_772_798_400, nanosecond: 0, offset_seconds: 0 };
    let message_id = "<test@example.com>".parse::<MessageId>().expect("message id should parse");
    let message = Message::builder(Body::text("Hello"))
        .from_mailbox(mailbox("Mary Smith <mary@x.test>"))
        .add_to(address("jdoe@one.test"))
        .subject("Greeting")
        .date(date)
        .message_id(message_id.clone())
        .add_header(Header::new("X-Test", "demo").expect("header should validate"))
        .build()
        .expect("message should validate");
    assert!(message.from_mailbox().is_some(), "from should be set");
    assert_eq!(message.to().len(), 1, "expected one recipient");
    assert_eq!(message.date(), Some(&date));
    assert_eq!(message.message_id(), Some(&message_id));
    assert_eq!(message.headers().len(), 1);
}

#[test]
fn derive_envelope_uses_sender_and_expands_groups() {
    let message = Message::builder(Body::text("Hello"))
        .from_mailbox(mailbox("from@example.com"))
        .sender(mailbox("sender@example.com"))
        .to(vec![address("Friends: a@example.com, b@example.com;")])
        .add_cc(address("c@example.com"))
        .build()
        .expect("message should validate");
    let envelope = message.derive_envelope().expect("envelope should derive");
    assert_eq!(envelope.mail_from().map(|e| e.as_str()), Some("sender@example.com"));
    assert_eq!(
        envelope.rcpt_to().iter().map(|e| e.as_str()).collect::<Vec<_>>(),
        vec!["a@example.com", "b@example.com", "c@example.com"]
    );
}

#[test]
fn with_attachments_replaces_existing_attachments() {
    let message = Message::builder(Body::text("Hello"))
        .from_mailbox(mailbox("from@example.com"))
        .add_to(address("to@example.com"))
        .add_attachment(
            Attachment::bytes(ContentType::try_from("text/plain").expect("content type should parse"), b"old".to_vec())
                .with_filename("old.txt"),
        )
        .build()
        .expect("message should validate");
    assert_eq!(message.attachments().len(), 1);
    let updated = message.with_attachments(vec![Attachment::bytes(
        ContentType::try_from("text/plain").expect("content type should parse"),
        b"new".to_vec(),
    )
    .with_filename("new.txt")]);
    assert_eq!(updated.attachments().len(), 1);
    assert_eq!(updated.attachments()[0].filename(), Some("new.txt"));
}

#[test]
fn disposition_defaults_to_attachment() {
    let d = email_kit::message::Disposition::default();
    assert_eq!(d, email_kit::message::Disposition::Attachment);
    assert!(!d.is_inline());
    assert!(email_kit::message::Disposition::Inline.is_inline());
}
