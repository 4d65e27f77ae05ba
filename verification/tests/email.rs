use std::collections::HashSet;
use email_kit::email::EmailAddress;

const RFC_VALID_EMAILS: &[&str] = &[
    "jdoe@one.test",
    "simple@example.com",
    "very.common@example.com",
    "disposable.style.email.with+symbol@example.com",
    "other.email-with-hyphen@example.com",
    "fully-qualified-domain@example.com",
    "user.name+tag+sorting@example.com",
    "x@example.com",
    "example-indeed@strange-example.com",
    "admin@mailserver1",
    "example@s.example",
    "\"john..doe\"@example.org",
    "mailhost!username@example.org",
    "user%example.com@example.org",
];

const INVALID_EMAILS: &[&str] = &[
    "plainaddress",
    "@missing-local.org",
    "A@b@c@example.com",
    "john..doe@example.org",
    "john.doe@example..org",
    "john.doe.@example.org",
    ".john.doe@example.org",
];

#[test]
fn email_from_str_accepts_rfc_examples() {
    for input in RFC_VALID_EMAILS {
        let parsed = input.parse::<EmailAddress>();
        assert!(parsed.is_ok(), "expected valid email: {input}");
    }
}

#[test]
fn email_email_from_str_rejects_invalid_examples() {
    for input in INVALID_EMAILS {
        let parsed = input.parse::<EmailAddress>();
        assert!(parsed.is_err(), "expected invalid email: {input}");
    }
}

#[test]
fn email_from_str_accepts_ipv4_literal_domain() {
    let parsed = "user@[192.168.1.1]".parse::<EmailAddress>();
    assert!(parsed.is_ok(), "expected IPv4 literal to parse: {parsed:?}");
}

#[test]
fn email_from_str_accepts_ipv6_literal_domain() {
    let parsed = "user@[IPv6:fe80::1]".parse::<EmailAddress>();
    assert!(parsed.is_ok(), "expected IPv6 literal to parse: {parsed:?}");
}

#[test]
fn email_domain_is_case_folded_for_eq_and_hash() {
    let a: EmailAddress = "User.Name@Example.COM".parse().unwrap();
    let b: EmailAddress = "User.Name@example.com".parse().unwrap();
    assert_eq!(a, b);
    assert_eq!(a.as_str(), "User.Name@example.com");
    assert_eq!(b.as_str(), "User.Name@example.com");

    let mut set: HashSet<EmailAddress> = HashSet::new();
    set.insert(a);
    assert!(set.contains(&b));
}

#[test]
fn email_local_part_case_is_preserved() {
    let upper: EmailAddress = "John.Doe@example.com".parse().unwrap();
    let lower: EmailAddress = "john.doe@example.com".parse().unwrap();
    assert_ne!(upper, lower);
    assert_eq!(upper.as_str(), "John.Doe@example.com");
    assert_eq!(lower.as_str(), "john.doe@example.com");
}

#[test]
fn email_ipv6_literal_domain_is_not_case_folded() {
    let parsed: EmailAddress = "user@[IPv6:Fe80::1]".parse().unwrap();
    assert!(parsed.as_str().contains("IPv6"));
}

#[test]
fn email_try_from_and_into_string() {
    let email = EmailAddress::try_from("jdoe@one.test").unwrap();
    assert_eq!(email.as_str(), "jdoe@one.test");
    assert_eq!(email.to_string(), "jdoe@one.test");
    assert_eq!(email.clone().into_string(), "jdoe@one.test");
}

#[test]
fn lone_quote_is_rejected() {
    assert!(EmailAddress::from_str("\"").is_err());
    assert!("\"".parse::<EmailAddress>().is_err());
}

#[test]
fn quoted_local_parts_are_written_quoted_and_escaped() {
    let empty = EmailAddress::from_str("\"\"@Example.COM").expect("empty quoted local part parses");
    assert_eq!(empty.as_str(), "\"\"@example.com");
    let dots = EmailAddress::from_str("\"a..b\"@x.test").expect("quoted dots parse");
    assert_eq!(dots.as_str(), "\"a..b\"@x.test");
    let quote = EmailAddress::from_str("\"a\\\"b\"@x.test").expect("escaped quote parses");
    assert_eq!(quote.as_str(), "\"a\\\"b\"@x.test");
    let plain = EmailAddress::from_str("\"ab\"@x.test").expect("needlessly quoted parses");
    assert_eq!(plain.as_str(), "ab@x.test");
}
