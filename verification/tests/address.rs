use email_kit::address::{
    Address, AddressBackendError, AddressList, AddressParseError, Group, GroupParseError, Mailbox, MailboxList,
    MailboxParseError, ValueParseError, MAX_ADDRESS_INPUT_BYTES,
};

#[test]
fn mailbox_from_str_accepts_rfc_examples() {
    let parsed = "Mary Smith <mary@x.test>".parse::<Mailbox>();
    assert!(parsed.is_ok(), "expected valid mailbox");

    let parsed = "jdoe@one.test".parse::<Mailbox>();
    assert!(parsed.is_ok(), "expected valid mailbox");
}

#[test]
fn mailbox_from_str_rejects_group() {
    let parsed = "Undisclosed recipients:;".parse::<Mailbox>();
    assert!(matches!(parsed, Err(MailboxParseError::UnexpectedAddressKind)));
}

#[test]
fn address_group_from_str_accepts_rfc_examples() {
    let parsed = "A Group:Ed Jones <c@a.test>,joe@where.test,John <jdoe@one.test>;".parse::<Group>();
    assert!(parsed.is_ok(), "expected valid group");

    let parsed = "Undisclosed recipients:;".parse::<Group>();
    assert!(parsed.is_ok(), "expected valid group");
}

#[test]
fn address_list_roundtrip() {
    let list = "Mary Smith <mary@x.test>, jdoe@one.test".parse::<AddressList>().expect("address list should parse");
    let rendered = list.to_string();
    let reparsed = rendered.parse::<AddressList>().expect("rendered address list should parse");
    assert_eq!(reparsed.as_slice(), list.as_slice());
}

#[test]
fn mailbox_from_str_rejects_input_with_raw_newline() {
    let parsed = "Mary Smith <mary@x.test>\nBcc: victim@example.com".parse::<Mailbox>();
    assert!(matches!(
        parsed,
        Err(MailboxParseError::Backend { source: AddressBackendError::InputContainsRawNewlines })
    ));
}

#[test]
fn mailbox_list_try_from_vec_str() {
    let list = MailboxList::try_from_strs(&["jdoe@one.test", "mary@x.test"]).expect("mailbox list should parse");
    assert_eq!(list.len(), 2);
}

#[test]
fn address_list_try_from_slice_str() {
    let src = ["jdoe@one.test", "Undisclosed recipients:;"];
    let list = AddressList::try_from_strs(src.as_slice()).expect("address list should parse");
    assert_eq!(list.len(), 2);
}

#[test]
fn mailbox_parses_complex_comment_forms_for_email_value() {
    let id = "RFC5322-A.1.2-name-addr-comment-heavy-1";
    let input = "Pete(A wonderful \\\\) chap) <pete(his account)@silly.test(his host)>";
    let parsed = input.parse::<Mailbox>();
    assert!(parsed.is_ok(), "{} expected valid mailbox: {}", id, input);
    let parsed = parsed.expect("validated above");
    assert_eq!(parsed.email().as_str(), "pete@silly.test", "{} email mismatch for {}", id, input);
}

#[test]
fn mailbox_list_from_str_rejects_groups() {
    let parsed = "Undisclosed recipients:;".parse::<MailboxList>();
    assert!(matches!(parsed, Err(MailboxParseError::ContainsGroupEntry)));
}

#[test]
fn group_from_str_reports_expected_single_group_for_mailbox_input() {
    let parsed = "jdoe@one.test".parse::<Group>();
    assert!(matches!(parsed, Err(GroupParseError::UnexpectedAddressKind)));
}

#[test]
fn address_from_str_reports_expected_single_address_for_multiple_items() {
    let parsed = "jdoe@one.test, mary@x.test".parse::<Address>();
    assert!(matches!(parsed, Err(AddressParseError::ExpectedSingleAddress { found: 2 })));
}

#[test]
fn parsing_rejects_input_exceeding_max_address_input_bytes() {
    let oversized = "x".repeat(MAX_ADDRESS_INPUT_BYTES + 1);
    let parsed = oversized.parse::<Address>();
    assert!(matches!(
        parsed,
        Err(AddressParseError::Backend { source: AddressBackendError::InputTooLong { .. } })
    ));
}

#[test]
fn parsing_rejects_raw_newline_injection_inputs() {
    let parsed_mailbox = "Mary Smith <mary@x.test>\nBcc: victim@example.com".parse::<Mailbox>();
    assert!(matches!(
        parsed_mailbox,
        Err(MailboxParseError::Backend { source: AddressBackendError::InputContainsRawNewlines })
    ));
    let parsed_address = "A Group:Ed Jones <c@a.test>;\r\nCc: victim@example.com".parse::<Address>();
    assert!(matches!(
        parsed_address,
        Err(AddressParseError::Backend { source: AddressBackendError::InputContainsRawNewlines })
    ));
}

#[test]
fn group_parse_reports_member_index_for_invalid_member_addr_spec() {
    let parsed = "Bad Group:good@example.com, john..doe@example.org;".parse::<Group>();
    match parsed {
        Err(GroupParseError::Backend {
            source: AddressBackendError::InvalidGroupMemberAddrSpec { index, input, .. },
        }) => {
            assert_eq!(index, 1, "expected invalid second member index");
            assert_eq!(input, "john..doe@example.org", "unexpected captured member input");
        },
        other => panic!("expected InvalidGroupMemberAddrSpec backend error, got {other:?}"),
    }
}

#[test]
fn mailbox_list_from_strs_keeps_order_and_reports_the_first_failure() {
    let list = MailboxList::try_from_strs(&["Ada <ada@example.com>", "bob@example.com"]).expect("both parse");
    assert_eq!(list.to_string(), "\"Ada\" <ada@example.com>, bob@example.com");

    let error = MailboxList::try_from_strs(&["bob@example.com", "Friends: a@example.com;", "not an address"])
        .expect_err("a group is not a mailbox");
    assert!(matches!(error, MailboxParseError::UnexpectedAddressKind));

    assert!(MailboxList::try_from_strs(&[]).expect("empty input parses").is_empty());
}

#[test]
fn from_str_traits_agree_with_the_inherent_parsers() {
    let mailbox: Mailbox = "Ada <ada@example.com>".parse().expect("mailbox parses");
    assert_eq!(mailbox.to_string(), "\"Ada\" <ada@example.com>");
    assert!("Friends: a@example.com;".parse::<Mailbox>().is_err());
    assert!("Friends: a@example.com;".parse::<Group>().is_ok());
    assert!("a@example.com, b@example.com".parse::<Address>().is_err());
    assert_eq!("a@example.com, b@example.com".parse::<AddressList>().expect("list parses").len(), 2);
    assert!("a@example.com, G: b@example.com;".parse::<MailboxList>().is_err());
}

#[test]
fn value_parse_error_wraps_each_value_error() {
    let mailbox_err = "Undisclosed recipients:;".parse::<Mailbox>().unwrap_err();
    assert!(matches!(
        ValueParseError::from(mailbox_err),
        ValueParseError::Mailbox(MailboxParseError::UnexpectedAddressKind)
    ));
    let group_err = "jdoe@one.test".parse::<Group>().unwrap_err();
    assert!(matches!(ValueParseError::from(group_err), ValueParseError::Group(GroupParseError::UnexpectedAddressKind)));
    let address_err = "a@b.test, c@d.test".parse::<Address>().unwrap_err();
    assert!(matches!(
        ValueParseError::from(address_err),
        ValueParseError::Address(AddressParseError::ExpectedSingleAddress { found: 2 })
    ));
}
