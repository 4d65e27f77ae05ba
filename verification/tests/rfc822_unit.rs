use email_kit::message::DateTime;
use email_kit::wire::encoded_word::{encode_rfc2047_phrase, encode_rfc2047_unstructured};
use email_kit::wire::{decode_rfc2047_phrase, parse_rfc822, render_rfc822};
use email_kit::{Body, Message, MessageId};
use time::OffsetDateTime;
use time::format_description::well_known::Rfc2822;

fn rfc2822_date(input: &str) -> DateTime {
    let parsed = OffsetDateTime::parse(input, &Rfc2822).expect("date should parse");
    DateTime {
        unix_timestamp: parsed.unix_timestamp(),
        nanosecond: parsed.nanosecond(),
        offset_seconds: parsed.offset().whole_seconds(),
    }
}

#[test]
fn rfc822_parse_rfc822_extracts_core_headers_and_body() {
    let input = "From: Mary Smith <mary@x.test>\r\nTo: jdoe@one.test\r\nSubject: Test\r\nDate: Fri, 06 Mar 2026 12:00:00 +0000\r\nMessage-ID: <test@example.com>\r\nX-Custom: demo\r\n\r\nhello";

    let message = parse_rfc822(input.as_bytes()).expect("message should parse");
    assert_eq!(message.subject(), Some("Test"));
    assert_eq!(message.to().len(), 1);
    assert_eq!(
        message.date(),
        Some(
            &rfc2822_date("Fri, 06 Mar 2026 12:00:00 +0000")
        )
    );
    assert_eq!(
        message.message_id(),
        Some(
            &"<test@example.com>"
                .parse::<MessageId>()
                .expect("message id should parse")
        )
    );
    assert_eq!(message.body(), &Body::Text("hello".to_owned()));
}

#[test]
fn rfc822_render_rfc822_writes_expected_lines() {
    let message = Message::builder(Body::Text("hello".to_owned()))
        .from_mailbox("Mary Smith <mary@x.test>".parse().expect("valid mailbox"))
        .to(vec![email_kit::Address::Mailbox(
            "jdoe@one.test".parse().expect("valid mailbox"),
        )])
        .subject("Test")
        .build()
        .expect("message should validate");

    let rendered = render_rfc822(&message).expect("render should succeed");
    let text = String::from_utf8(rendered).expect("rendered text should be utf8");

    assert!(text.contains("From: \"Mary Smith\" <mary@x.test>\r\n"));
    assert!(text.contains("To: jdoe@one.test\r\n"));
    assert!(text.contains("Subject: Test\r\n"));
    assert!(text.ends_with("\r\n\r\nhello"));
}

#[test]
fn encoded_unstructured_text_decodes_back() {
    let long = "Grüße aus Köln — ".repeat(8);
    for text in ["ár", "日本語のテキスト", long.as_str(), "emoji 🎉 party"] {
        let encoded = encode_rfc2047_unstructured(text);
        assert!(encoded.is_ascii());
        assert_eq!(decode_rfc2047_phrase(&encoded), text);
        let phrase = encode_rfc2047_phrase(text);
        assert_eq!(decode_rfc2047_phrase(&phrase), text);
    }
    assert!(encode_rfc2047_unstructured(long.as_str()).contains("?= =?utf-8?B?"));
    assert_eq!(encode_rfc2047_unstructured("plain"), "plain");
    assert_eq!(decode_rfc2047_phrase(&encode_rfc2047_unstructured("plain")), "plain");
    // ASCII text that already spells an encoded word is written as is, and
    // so decodes to something else.
    let literal = "=?utf-8?B?QQ==?=";
    assert_eq!(encode_rfc2047_unstructured(literal), literal);
    assert_eq!(decode_rfc2047_phrase(&encode_rfc2047_unstructured(literal)), "A");
}

#[test]
fn escaping_encoded_words_keeps_non_ascii_text() {
    let input = "\"Jos\u{e9} =?utf-8?q?x?= \u{4e2d}\" <a@b.test>";
    let escaped = email_kit::wire::encoded_word::escape_encoded_words_inside_quoted_strings(input);
    assert_eq!(escaped, "\"Jos\u{e9} \\=?utf-8?q?x?= \u{4e2d}\" <a@b.test>");
    let untouched = "Jos\u{e9} <a@b.test>";
    assert_eq!(email_kit::wire::encoded_word::escape_encoded_words_inside_quoted_strings(untouched), untouched);
}
