use email_kit::address::{Address, AddressList, Group, Mailbox, MailboxList, MailboxParseError};
use email_kit::email::EmailAddress;

struct MailboxFixture {
    id: &'static str,
    input: &'static str,
    expected_name: Option<&'static str>,
    expected_email: &'static str,
}

struct GroupFixture {
    id: &'static str,
    input: &'static str,
    expected_name: &'static str,
    expected_members: &'static [(&'static str, Option<&'static str>)],
}

struct TextFixture {
    id: &'static str,
    input: &'static str,
}

const RFC_VALID_ADDR_SPEC_FIXTURES: &[MailboxFixture] = &[
    MailboxFixture { id: "RFC5322-A.1.2-addr-spec-1", input: "jdoe@one.test", expected_name: None, expected_email: "jdoe@one.test" },
    MailboxFixture { id: "RFC5322-A.1.2-compat-1", input: "simple@example.com", expected_name: None, expected_email: "simple@example.com" },
    MailboxFixture { id: "RFC5322-A.1.2-compat-2", input: "very.common@example.com", expected_name: None, expected_email: "very.common@example.com" },
    MailboxFixture {
        id: "RFC5322-A.1.2-compat-3",
        input: "disposable.style.email.with+symbol@example.com",
        expected_name: None,
        expected_email: "disposable.style.email.with+symbol@example.com",
    },
    MailboxFixture {
        id: "RFC5322-A.1.2-compat-4",
        input: "other.email-with-hyphen@example.com",
        expected_name: None,
        expected_email: "other.email-with-hyphen@example.com",
    },
    MailboxFixture {
        id: "RFC5322-A.1.2-compat-5",
        input: "fully-qualified-domain@example.com",
        expected_name: None,
        expected_email: "fully-qualified-domain@example.com",
    },
    MailboxFixture {
        id: "RFC5322-A.1.2-compat-6",
        input: "user.name+tag+sorting@example.com",
        expected_name: None,
        expected_email: "user.name+tag+sorting@example.com",
    },
    MailboxFixture { id: "RFC5322-A.1.2-compat-7", input: "x@example.com", expected_name: None, expected_email: "x@example.com" },
    MailboxFixture {
        id: "RFC5322-A.1.2-compat-8",
        input: "example-indeed@strange-example.com",
        expected_name: None,
        expected_email: "example-indeed@strange-example.com",
    },
    MailboxFixture { id: "RFC5322-A.1.2-compat-9", input: "admin@mailserver1", expected_name: None, expected_email: "admin@mailserver1" },
    MailboxFixture { id: "RFC5322-A.1.2-compat-10", input: "example@s.example", expected_name: None, expected_email: "example@s.example" },
    MailboxFixture {
        id: "RFC5322-A.1.2-compat-11",
        input: "\"john..doe\"@example.org",
        expected_name: None,
        expected_email: "\"john..doe\"@example.org",
    },
    MailboxFixture {
        id: "RFC5322-A.1.2-compat-12",
        input: "mailhost!username@example.org",
        expected_name: None,
        expected_email: "mailhost!username@example.org",
    },
    MailboxFixture {
        id: "RFC5322-A.1.2-compat-13",
        input: "user%example.com@example.org",
        expected_name: None,
        expected_email: "user%example.com@example.org",
    },
];

const RFC_VALID_NAME_ADDR_FIXTURES: &[MailboxFixture] = &[
    MailboxFixture {
        id: "RFC5322-A.1.2-name-addr-1",
        input: "\"Joe Q. Public\" <john.q.public@example.com>",
        expected_name: Some("Joe Q. Public"),
        expected_email: "john.q.public@example.com",
    },
    MailboxFixture { id: "RFC5322-A.1.2-name-addr-2", input: "Mary Smith <mary@x.test>", expected_name: Some("Mary Smith"), expected_email: "mary@x.test" },
    MailboxFixture { id: "RFC5322-A.1.2-name-addr-3", input: "Who? <one@y.test>", expected_name: Some("Who?"), expected_email: "one@y.test" },
    MailboxFixture {
        id: "RFC5322-A.1.2-name-addr-4",
        input: "\"Giant; \\\"Big\\\" Box\" <sysservices@example.net>",
        expected_name: Some("Giant; \"Big\" Box"),
        expected_email: "sysservices@example.net",
    },
    MailboxFixture { id: "RFC5322-A.1.2-name-addr-5", input: "<boss@nil.test>", expected_name: None, expected_email: "boss@nil.test" },
];

const RFC_VALID_GROUP_FIXTURES: &[GroupFixture] = &[
    GroupFixture {
        id: "RFC5322-A.1.3-group-1",
        input: "A Group:Ed Jones <c@a.test>,joe@where.test,John <jdoe@one.test>;",
        expected_name: "A Group",
        expected_members: &[("c@a.test", Some("Ed Jones")), ("joe@where.test", None), ("jdoe@one.test", Some("John"))],
    },
    GroupFixture { id: "RFC5322-A.1.3-group-2", input: "Undisclosed recipients:;", expected_name: "Undisclosed recipients", expected_members: &[] },
];

const INVALID_MAILBOX_FIXTURES: &[TextFixture] = &[
    TextFixture { id: "invalid-mailbox-1", input: "plainaddress" },
    TextFixture { id: "invalid-mailbox-2", input: "@missing-local.org" },
    TextFixture { id: "invalid-mailbox-3", input: "A@b@c@example.com" },
    TextFixture { id: "invalid-mailbox-4", input: "john..doe@example.org" },
    TextFixture { id: "invalid-mailbox-5", input: "john.doe@example..org" },
    TextFixture { id: "invalid-mailbox-6", input: "john.doe.@example.org" },
    TextFixture { id: "invalid-mailbox-7", input: ".john.doe@example.org" },
];

const INVALID_GROUP_FIXTURES: &[TextFixture] = &[
    TextFixture { id: "invalid-group-1", input: "A Group" },
    TextFixture { id: "invalid-group-2", input: "A Group Ed Jones <c@a.test>;" },
];

const INVALID_ADDRESS_FIXTURES: &[TextFixture] = &[
    TextFixture { id: "invalid-address-1", input: "" },
    TextFixture { id: "invalid-address-2", input: "A Group" },
    TextFixture { id: "invalid-address-3", input: "john.q.public@example.com, mary@x.test" },
];

#[test]
fn mailbox_from_str_accepts_rfc_addr_spec_examples() {
    for fixture in RFC_VALID_ADDR_SPEC_FIXTURES {
        let parsed = fixture.input.parse::<Mailbox>();
        assert!(parsed.is_ok(), "{} expected valid mailbox: {}", fixture.id, fixture.input);
        let parsed = parsed.expect("validated above");
        assert_eq!(parsed.name(), fixture.expected_name, "{} unexpected display name for {}", fixture.id, fixture.input);
        assert_eq!(parsed.email().as_str(), fixture.expected_email, "{} email mismatch for {}", fixture.id, fixture.input);
    }
}

#[test]
fn mailbox_from_str_accepts_rfc_display_name_examples() {
    for fixture in RFC_VALID_NAME_ADDR_FIXTURES {
        let parsed = fixture.input.parse::<Mailbox>();
        assert!(parsed.is_ok(), "{} expected valid mailbox: {}", fixture.id, fixture.input);
        let parsed = parsed.expect("validated above");
        assert_eq!(parsed.name(), fixture.expected_name, "{} display name mismatch for {}", fixture.id, fixture.input);
        assert_eq!(parsed.email().as_str(), fixture.expected_email, "{} email mismatch for {}", fixture.id, fixture.input);
    }
}

#[test]
fn mailbox_from_str_rejects_invalid_examples() {
    for fixture in INVALID_MAILBOX_FIXTURES {
        let parsed = fixture.input.parse::<Mailbox>();
        assert!(parsed.is_err(), "{} expected invalid mailbox: {}", fixture.id, fixture.input);
    }
}

#[test]
fn email_from_str_accepts_rfc_addr_spec_examples() {
    for fixture in RFC_VALID_ADDR_SPEC_FIXTURES {
        let parsed = fixture.input.parse::<EmailAddress>();
        assert!(parsed.is_ok(), "{} expected valid email: {}", fixture.id, fixture.input);
        let parsed = parsed.expect("validated above");
        assert_eq!(parsed.as_str(), fixture.expected_email, "{} email mismatch for {}", fixture.id, fixture.input);
    }
}

#[test]
fn rfc5322_corpus_email_from_str_rejects_invalid_examples() {
    for fixture in INVALID_MAILBOX_FIXTURES {
        let parsed = fixture.input.parse::<EmailAddress>();
        assert!(parsed.is_err(), "{} expected invalid email: {}", fixture.id, fixture.input);
    }
}

#[test]
fn rfc5322_corpus_group_from_str_accepts_rfc_examples() {
    for fixture in RFC_VALID_GROUP_FIXTURES {
        let parsed = fixture.input.parse::<Group>();
        assert!(parsed.is_ok(), "{} expected valid group: {}", fixture.id, fixture.input);
        let parsed = parsed.expect("validated above");
        assert_eq!(parsed.name(), fixture.expected_name, "{} group name mismatch for {}", fixture.id, fixture.input);
        assert_eq!(
            parsed.members().len(),
            fixture.expected_members.len(),
            "{} group member count mismatch for {}",
            fixture.id,
            fixture.input
        );
        for (idx, (expected_email, expected_name)) in fixture.expected_members.iter().enumerate() {
            let member = &parsed.members()[idx];
            assert_eq!(member.email().as_str(), *expected_email, "{} group member email mismatch", fixture.id);
            assert_eq!(member.name(), *expected_name, "{} group member name mismatch", fixture.id);
        }
    }
}

#[test]
fn group_from_str_rejects_invalid_examples() {
    for fixture in INVALID_GROUP_FIXTURES {
        let parsed = fixture.input.parse::<Group>();
        assert!(parsed.is_err(), "{} expected invalid group: {}", fixture.id, fixture.input);
    }
}

#[test]
fn address_from_str_accepts_mailbox_and_group_examples() {
    for fixture in RFC_VALID_ADDR_SPEC_FIXTURES {
        assert!(fixture.input.parse::<Address>().is_ok(), "{} expected valid address: {}", fixture.id, fixture.input);
    }
    for fixture in RFC_VALID_NAME_ADDR_FIXTURES {
        assert!(fixture.input.parse::<Address>().is_ok(), "{} expected valid address: {}", fixture.id, fixture.input);
    }
    for fixture in RFC_VALID_GROUP_FIXTURES {
        assert!(fixture.input.parse::<Address>().is_ok(), "{} expected valid address: {}", fixture.id, fixture.input);
    }
}

#[test]
fn address_from_str_rejects_invalid_examples() {
    for fixture in INVALID_ADDRESS_FIXTURES {
        assert!(fixture.input.parse::<Address>().is_err(), "{} expected invalid address: {}", fixture.id, fixture.input);
    }
}

#[test]
fn mailbox_display_roundtrips_for_rfc_examples() {
    for fixture in RFC_VALID_ADDR_SPEC_FIXTURES.iter().chain(RFC_VALID_NAME_ADDR_FIXTURES.iter()) {
        let mailbox = fixture.input.parse::<Mailbox>().expect("fixture should parse as mailbox");
        let rendered = mailbox.to_string();
        let reparsed = rendered.parse::<Mailbox>().expect("rendered mailbox should parse");
        assert_eq!(reparsed.email().as_str(), fixture.expected_email, "{} email mismatch after roundtrip", fixture.id);
        assert_eq!(reparsed.name(), mailbox.name(), "{} name mismatch after roundtrip", fixture.id);
    }
}

#[test]
fn group_display_roundtrips_for_rfc_examples() {
    for fixture in RFC_VALID_GROUP_FIXTURES {
        let group = fixture.input.parse::<Group>().expect("fixture should parse as group");
        let rendered = group.to_string();
        let reparsed = rendered.parse::<Group>().expect("rendered group should parse");
        assert_eq!(reparsed.name(), group.name(), "{} group name mismatch after roundtrip", fixture.id);
        assert_eq!(reparsed.members().len(), group.members().len(), "{} group member count mismatch", fixture.id);
    }
}

#[test]
fn address_and_list_display_roundtrip() {
    let address = "Mary Smith <mary@x.test>".parse::<Address>().expect("address should parse");
    let rendered = address.to_string();
    let reparsed = rendered.parse::<Address>().expect("rendered address should parse");
    assert_eq!(address, reparsed, "address roundtrip mismatch");

    let mailbox_list = "Mary Smith <mary@x.test>, jdoe@one.test".parse::<MailboxList>().expect("mailbox list should parse");
    let mailbox_list_rendered = mailbox_list.to_string();
    let mailbox_list_reparsed = mailbox_list_rendered.parse::<MailboxList>().expect("rendered mailbox list should parse");
    assert_eq!(mailbox_list_reparsed.as_slice(), mailbox_list.as_slice(), "mailbox list roundtrip mismatch");

    let address_list = "Mary Smith <mary@x.test>, jdoe@one.test".parse::<AddressList>().expect("address list should parse");
    let address_list_rendered = address_list.to_string();
    let address_list_reparsed = address_list_rendered.parse::<AddressList>().expect("rendered address list should parse");
    assert_eq!(address_list_reparsed.as_slice(), address_list.as_slice(), "address list roundtrip mismatch");
}

#[test]
fn address_list_flattens_mailboxes_around_named_group() {
    let parsed = "alice@example.com, Team: bob@example.com;, dave@example.com"
        .parse::<AddressList>()
        .expect("mixed mailbox + group list should parse");
    assert_eq!(parsed.len(), 3, "expected three address items in order");
    match &parsed.as_slice()[0] {
        Address::Mailbox(mailbox) => assert_eq!(mailbox.email().as_str(), "alice@example.com"),
        other => panic!("index 0: expected Mailbox(alice), got {other:?}"),
    }
    match &parsed.as_slice()[1] {
        Address::Group(group) => {
            assert_eq!(group.name(), "Team");
            assert_eq!(group.members().len(), 1);
            assert_eq!(group.members()[0].email().as_str(), "bob@example.com");
        },
        other => panic!("index 1: expected Group(Team, [bob]), got {other:?}"),
    }
    match &parsed.as_slice()[2] {
        Address::Mailbox(mailbox) => assert_eq!(mailbox.email().as_str(), "dave@example.com"),
        other => panic!("index 2: expected Mailbox(dave), got {other:?}"),
    }
}

#[test]
fn address_list_from_str_accepts_multiple_items() {
    let parsed = "Mary Smith <mary@x.test>, jdoe@one.test".parse::<AddressList>().expect("valid address list");
    assert_eq!(parsed.as_slice().len(), 2);
    assert_eq!(parsed.len(), 2);
    assert!(!parsed.is_empty());
    let as_vec: Vec<Address> = parsed.into_vec();
    assert_eq!(as_vec.len(), 2);
}

#[test]
fn mailbox_list_from_str_accepts_multiple_mailboxes() {
    let parsed = "Mary Smith <mary@x.test>, jdoe@one.test".parse::<MailboxList>().expect("valid mailbox list");
    assert_eq!(parsed.as_slice().len(), 2);
    assert_eq!(parsed.len(), 2);
    assert!(!parsed.is_empty());
    let as_vec: Vec<Mailbox> = parsed.into_vec();
    assert_eq!(as_vec.len(), 2);
}

#[test]
fn mailbox_from_str_reports_expected_single_mailbox_for_group_input() {
    let parsed = "Undisclosed recipients:;".parse::<Mailbox>();
    match parsed {
        Err(MailboxParseError::UnexpectedAddressKind) => {}
        other => panic!("expected UnexpectedAddressKind error, got {other:?}"),
    }
}
