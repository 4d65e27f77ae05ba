use email_kit::message::DateTime;
use email_kit::wire::{RenderOptions, parse_rfc822, render_rfc822, render_rfc822_with};
use email_kit::{Address, Attachment, AttachmentBody, Body, ContentType, Mailbox, Message, MessageId, MimePart};
use time::OffsetDateTime;
use time::format_description::well_known::Rfc2822;

fn rfc2822_date(input: &str) -> DateTime {
    let parsed = OffsetDateTime::parse(input, &Rfc2822).expect("date should parse");
    DateTime {
        unix_timestamp: parsed.unix_timestamp(),
        nanosecond: parsed.nanosecond(),
        offset_seconds: parsed.offset().whole_seconds(),
    }
}

#[test]
fn rfc822_io_parse_rfc822_extracts_core_headers_and_body() {
    let input = "From: Mary Smith <mary@x.test>\r\nTo: jdoe@one.test\r\nSubject: Test\r\nDate: Fri, 06 Mar 2026 12:00:00 +0000\r\nMessage-ID: <test@example.com>\r\nX-Custom: demo\r\n\r\nhello";

    let message = parse_rfc822(input.as_bytes()).expect("message should parse");
    let expected_from = "Mary Smith <mary@x.test>"
        .parse::<Mailbox>()
        .expect("valid mailbox");

    assert_eq!(message.from_mailbox(), Some(&expected_from));
    assert_eq!(
        message.to(),
        &[Address::Mailbox(
            "jdoe@one.test".parse::<Mailbox>().expect("valid mailbox")
        )]
    );
    assert_eq!(message.subject(), Some("Test"));
    assert_eq!(
        message.date(),
        Some(
            &rfc2822_date("Fri, 06 Mar 2026 12:00:00 +0000")
        )
    );
    assert_eq!(
        message.message_id(),
        Some(
            &"<test@example.com>"
                .parse::<MessageId>()
                .expect("message id should parse")
        )
    );
    assert_eq!(
        message.headers(),
        &[email_kit::Header::new("X-Custom", "demo").expect("header should validate")]
    );
    assert_eq!(message.body(), &Body::Text("hello".to_owned()));
}

#[test]
fn rfc822_io_render_rfc822_writes_expected_lines() {
    let date = rfc2822_date("Fri, 06 Mar 2026 12:00:00 +0000");
    let message_id = "<test@example.com>"
        .parse::<MessageId>()
        .expect("message id should parse");

    let message = Message::builder(Body::Text("hello".to_owned()))
        .from_mailbox(
            "Mary Smith <mary@x.test>"
                .parse::<Mailbox>()
                .expect("valid mailbox"),
        )
        .to(vec![Address::Mailbox(
            "jdoe@one.test".parse::<Mailbox>().expect("valid mailbox"),
        )])
        .subject("Test")
        .date(date)
        .message_id(message_id)
        .headers(vec![
            email_kit::Header::new("X-Custom", "demo").expect("header should validate"),
        ])
        .build()
        .expect("message should validate");

    let rendered = render_rfc822(&message).expect("render should succeed");
    let text = String::from_utf8(rendered).expect("rendered text should be utf8");

    assert!(text.contains("From: \"Mary Smith\" <mary@x.test>\r\n"));
    assert!(text.contains("To: jdoe@one.test\r\n"));
    assert!(text.contains("Subject: Test\r\n"));
    assert!(text.contains("Date: Fri, 06 Mar 2026 12:00:00 +0000\r\n"));
    assert!(text.contains("Message-ID: <test@example.com>\r\n"));
    assert!(text.contains("X-Custom: demo\r\n"));
    assert!(text.ends_with("\r\n\r\nhello"));
}

#[test]
fn render_rfc822_strips_bcc_by_default() {
    let message = Message::builder(Body::Text("hello".to_owned()))
        .from_mailbox(
            "from@example.com"
                .parse::<Mailbox>()
                .expect("valid mailbox"),
        )
        .to(vec![Address::Mailbox(
            "to@example.com".parse::<Mailbox>().expect("valid mailbox"),
        )])
        .add_bcc(Address::Mailbox(
            "hidden@example.com"
                .parse::<Mailbox>()
                .expect("valid mailbox"),
        ))
        .build()
        .expect("message should validate");

    let rendered = render_rfc822(&message).expect("render should succeed");
    let text = String::from_utf8(rendered).expect("rendered text should be utf8");

    assert!(
        !text.contains("Bcc:"),
        "Bcc header must be omitted by default"
    );
}

#[test]
fn render_rfc822_can_include_bcc_when_requested() {
    let message = Message::builder(Body::Text("hello".to_owned()))
        .from_mailbox(
            "from@example.com"
                .parse::<Mailbox>()
                .expect("valid mailbox"),
        )
        .to(vec![Address::Mailbox(
            "to@example.com".parse::<Mailbox>().expect("valid mailbox"),
        )])
        .add_bcc(Address::Mailbox(
            "hidden@example.com"
                .parse::<Mailbox>()
                .expect("valid mailbox"),
        ))
        .build()
        .expect("message should validate");

    let rendered = render_rfc822_with(&message, &RenderOptions::new().with_include_bcc(true))
        .expect("render should succeed");
    let text = String::from_utf8(rendered).expect("rendered text should be utf8");

    assert!(text.contains("Bcc: hidden@example.com\r\n"));
}

fn mailbox(input: &str) -> Mailbox {
    input.parse::<Mailbox>().expect("test mailbox should parse")
}

#[test]
fn rendered_subjects_parse_back_unchanged() {
    let long = "Ünïcødé ".repeat(20);
    for subject in ["Hello, world!", "a-b_c.d+e?f@g", "Grüße aus Köln", "日本語のテキスト and more", long.trim_end()] {
        let message = Message::builder(Body::text("body"))
            .from_mailbox(mailbox("from@example.com"))
            .add_to(Address::Mailbox(mailbox("to@example.com")))
            .subject(subject)
            .build()
            .expect("message validates");
        let rendered = render_rfc822(&message).expect("render succeeds");
        let parsed = parse_rfc822(&rendered).expect("rendered bytes parse");
        assert_eq!(parsed.subject(), Some(subject));
    }
}

#[test]
fn rendered_attachment_bytes_parse_back_as_a_leaf() {
    let payload: Vec<u8> = (0u16..300).map(|i| (i * 7 % 256) as u8).collect();
    let attachment = Attachment::new(
        ContentType::try_from("application/octet-stream").expect("content type parses"),
        AttachmentBody::Bytes(payload.clone()),
    )
    .with_filename("blob.bin");
    let message = Message::builder(Body::text("body"))
        .from_mailbox(mailbox("from@example.com"))
        .add_to(Address::Mailbox(mailbox("to@example.com")))
        .add_attachment(attachment)
        .build()
        .expect("message validates");
    let rendered = render_rfc822(&message).expect("render succeeds");
    let parsed = parse_rfc822(&rendered).expect("rendered bytes parse");
    match parsed.body() {
        Body::Mime(part) => assert!(contains(part, &payload)),
        other => panic!("expected a MIME body, got {other:?}"),
    }
}

#[test]
fn rendered_bcc_line_appears_only_on_request() {
    let message = Message::builder(Body::text("body"))
        .from_mailbox(mailbox("from@example.com"))
        .add_to(Address::Mailbox(mailbox("to@example.com")))
        .add_bcc(Address::Mailbox(mailbox("hidden@example.com")))
        .build()
        .expect("message validates");
    let plain = parse_rfc822(&render_rfc822(&message).expect("render succeeds")).expect("parses");
    assert!(plain.bcc().is_empty());
    let with = render_rfc822_with(&message, &RenderOptions::new().with_include_bcc(true)).expect("render succeeds");
    let text = String::from_utf8(with.clone()).expect("ascii");
    assert!(text.contains("Bcc: hidden@example.com\r\n"));
    assert_eq!(parse_rfc822(&with).expect("parses").bcc().len(), 1);
}

fn contains(part: &MimePart, needle: &[u8]) -> bool {
    match part {
        MimePart::Leaf { body, .. } => body == needle,
        MimePart::Multipart { parts, .. } => parts.iter().any(|p| contains(p, needle)),
    }
}

fn header_and_body(rendered: &[u8]) -> (&[u8], &[u8]) {
    let at = rendered.windows(4).position(|w| w == b"\r\n\r\n").expect("blank line");
    (&rendered[..at + 2], &rendered[at + 4..])
}

fn boundary_of(header: &[u8]) -> String {
    let text = std::str::from_utf8(header).expect("ascii header");
    let start = text.find("boundary=\"").expect("boundary parameter") + "boundary=\"".len();
    let end = start + text[start..].find('"').expect("closing quote");
    text[start..end].to_owned()
}

#[test]
fn rendered_attachment_parts_split_back_at_the_boundary() {
    let payload: Vec<u8> = (0u16..200).map(|i| (i * 13 % 256) as u8).collect();
    let attachment = Attachment::new(
        ContentType::try_from("application/octet-stream").expect("content type parses"),
        AttachmentBody::Bytes(payload.clone()),
    )
    .with_filename("blob.bin");
    let message = Message::builder(Body::text("body"))
        .from_mailbox(mailbox("from@example.com"))
        .add_to(Address::Mailbox(mailbox("to@example.com")))
        .add_attachment(attachment)
        .build()
        .expect("message validates");
    let rendered = render_rfc822(&message).expect("render succeeds");
    let (header, body) = header_and_body(&rendered);
    let boundary = boundary_of(header);
    assert!(body.starts_with(format!("--{boundary}\r\n").as_bytes()));
    assert!(body.ends_with(format!("--{boundary}--\r\n").as_bytes()));
    let parts = email_kit::wire::mime_parse::split_multipart_parts(body, &boundary).expect("body splits");
    assert_eq!(parts.len(), 2);
    match email_kit::wire::mime_parse::parse_mime_part(&parts[1], 1).expect("attachment part parses") {
        MimePart::Leaf { body, .. } => assert_eq!(body, payload),
        other => panic!("expected a leaf, got {other:?}"),
    }
}

#[test]
fn rendered_header_lines_stay_within_wire_limits() {
    let subject = "word ".repeat(400) + "end";
    let message = Message::builder(Body::text("body"))
        .from_mailbox(mailbox("from@example.com"))
        .add_to(Address::Mailbox(mailbox("to@example.com")))
        .subject(&subject)
        .build()
        .expect("message validates");
    let rendered = render_rfc822(&message).expect("render succeeds");
    let (header, _) = header_and_body(&rendered);
    assert!(header.ends_with(b"\r\n"));
    let text = std::str::from_utf8(header).expect("ascii header");
    let lines: Vec<&str> = text[..text.len() - 2].split("\r\n").collect();
    assert!(lines.len() > 2, "the long subject is folded");
    for line in lines {
        assert!(!line.is_empty());
        assert!(line.len() <= 998, "line of {} bytes", line.len());
        assert!(line.bytes().all(|b| b == b'\t' || (0x20..0x7f).contains(&b)));
    }
}
