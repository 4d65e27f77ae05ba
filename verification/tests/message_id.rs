use email_kit::text::char_is_whitespace;
use std::collections::hash_map::DefaultHasher;
use std::hash::{Hash, Hasher};
use email_kit::message_id::{MessageId, MessageIdParseError};

#[test]
fn message_id_from_str_accepts_valid_values() {
    let parsed = "<abc@example.com>".parse::<MessageId>();
    assert!(parsed.is_ok(), "expected valid message id");
}

#[test]
fn message_id_from_str_rejects_missing_brackets() {
    let parsed = "abc@example.com".parse::<MessageId>();
    assert_eq!(parsed.unwrap_err(), MessageIdParseError::MissingBrackets);
}

#[test]
fn message_id_from_str_rejects_missing_at() {
    let parsed = "<abc>".parse::<MessageId>();
    assert_eq!(parsed.unwrap_err(), MessageIdParseError::MissingDomain);
}

#[test]
fn message_id_from_str_rejects_whitespace() {
    let parsed = "<abc @example.com>".parse::<MessageId>();
    assert_eq!(parsed.unwrap_err(), MessageIdParseError::ContainsWhitespace);
}

#[test]
fn message_id_from_str_rejects_empty_local_part() {
    let parsed = "<@example.com>".parse::<MessageId>();
    assert_eq!(parsed.unwrap_err(), MessageIdParseError::MissingLocal);
}

#[test]
fn message_id_from_str_rejects_empty_domain() {
    let parsed = "<abc@>".parse::<MessageId>();
    assert_eq!(parsed.unwrap_err(), MessageIdParseError::MissingDomain);
}

#[test]
fn message_id_from_str_rejects_dot_atom_violations() {
    for input in [
        "<.bad@example.com>",
        "<a..b@example.com>",
        "<a.@example.com>",
    ] {
        let parsed = input.parse::<MessageId>();
        assert!(
            matches!(parsed, Err(MessageIdParseError::InvalidContent { .. })),
            "expected InvalidContent for {input}, got {parsed:?}"
        );
    }
}

#[test]
fn message_id_from_str_rejects_quoted_string_id_left() {
    let parsed = "<\"weird\"@example.com>".parse::<MessageId>();
    assert_eq!(parsed.unwrap_err(), MessageIdParseError::ObsoleteIdLeftForm);
}

#[test]
fn message_id_from_str_rejects_quoted_at_in_local_part() {
    let parsed = "<\"a@b\"@example.com>".parse::<MessageId>();
    assert_eq!(parsed.unwrap_err(), MessageIdParseError::ObsoleteIdLeftForm);
}

#[test]
fn message_id_from_str_case_folds_domain() {

    let upper = "<foo@Example.COM>"
        .parse::<MessageId>()
        .expect("upper-case domain should parse");
    let lower = "<foo@example.com>"
        .parse::<MessageId>()
        .expect("lower-case domain should parse");

    assert_eq!(upper, lower);
    assert_eq!(upper.as_str(), "<foo@example.com>");

    let mut h_upper = DefaultHasher::new();
    upper.hash(&mut h_upper);
    let mut h_lower = DefaultHasher::new();
    lower.hash(&mut h_lower);
    assert_eq!(h_upper.finish(), h_lower.finish());
}

#[test]
fn message_id_documented_examples() {
    assert_eq!(
        "abc@example.com".parse::<MessageId>().unwrap_err(),
        MessageIdParseError::MissingBrackets,
    );
    assert!(matches!(
        "<.bad@example.com>".parse::<MessageId>().unwrap_err(),
        MessageIdParseError::InvalidContent { .. },
    ));
    let parsed = "<good@example.com>".parse::<MessageId>().unwrap();
    assert_eq!(parsed.as_str(), "<good@example.com>");
}

#[test]
fn message_id_trims_surrounding_whitespace() {
    let parsed = "  <x@Y.org>\t".parse::<MessageId>().unwrap();
    assert_eq!(parsed.as_str(), "<x@y.org>");
    assert_eq!(parsed.clone().into_string(), "<x@y.org>");
}

#[test]
fn white_space_matches_the_unicode_property() {
    for c in ['\t', '\n', '\u{0B}', '\u{0C}', '\r', ' ', '\u{85}', '\u{A0}', '\u{1680}', '\u{2000}', '\u{200A}', '\u{2028}', '\u{2029}', '\u{202F}', '\u{205F}', '\u{3000}'] {
        assert!(char_is_whitespace(c), "{:?} is white space", c);
        assert_eq!(char_is_whitespace(c), c.is_whitespace());
    }
    for c in ['a', '-', '\u{0}', '\u{1F}', '\u{200B}', '\u{FEFF}', '\u{180E}', '\u{7F}'] {
        assert!(!char_is_whitespace(c), "{:?} is not white space", c);
        assert_eq!(char_is_whitespace(c), c.is_whitespace());
    }
}
