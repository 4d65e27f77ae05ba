use std::collections::HashSet;
use std::collections::hash_map::DefaultHasher;
use std::hash::{Hash, Hasher};
use email_kit::mime_types::{ContentDisposition, ContentTransferEncoding, ContentType};

#[test]
fn content_type_accepts_valid_media_types_and_parameters() {
    for value in [
        "text/plain",
        "text/plain;charset=utf-8",
        "multipart/related; type=\"text/html\"",
        "application/octet-stream; name=\"a;b.txt\"",
    ] {
        assert!(
            ContentType::try_from(value).is_ok(),
            "expected valid content type: {value}"
        );
    }
}

#[test]
fn content_type_rejects_invalid_media_types() {
    for value in [
        "text/",
        "/plain",
        "text/plain/html",
        "text /plain",
        "text/plain; charset",
        "text/plain; charset=\"unterminated",
    ] {
        assert!(
            ContentType::try_from(value).is_err(),
            "expected invalid content type: {value}"
        );
    }
}

#[test]
fn content_type_rejects_quoted_parameter_with_control_chars() {
    for value in [
        "text/plain; name=\"x\u{0}y\"",
        "text/plain; name=\"x\u{07}y\"",
        "text/plain; name=\"x\u{0B}y\"",
        "text/plain; name=\"x\u{1B}y\"",
    ] {
        assert!(
            ContentType::try_from(value).is_err(),
            "expected control-char rejection: {value:?}"
        );
    }
}

#[test]
fn content_type_rejects_quoted_parameter_with_escaped_control_chars() {
    for value in [
        "text/plain; name=\"x\\\u{0}y\"",
        "text/plain; name=\"x\\\u{07}y\"",
    ] {
        assert!(
            ContentType::try_from(value).is_err(),
            "expected escaped-control-char rejection: {value:?}"
        );
    }
}

#[test]
fn content_type_accepts_tab_inside_quoted_parameter() {
    assert!(ContentType::try_from("text/plain; name=\"a\tb\"").is_ok());
}

#[test]
fn content_type_media_type_view_splits_type_and_subtype() {
    let ct: ContentType = "text/plain; charset=utf-8".parse().unwrap();
    let media = ct.media_type();
    assert_eq!(media.type_(), "text");
    assert_eq!(media.subtype(), "plain");
    assert!(media.is_text());
    assert!(!media.is_multipart());
    assert!(media.matches("text/plain"));
    assert!(media.matches("TEXT/PLAIN"));
}

#[test]
fn content_type_parameter_lookup_is_case_insensitive_and_unquotes() {
    let ct: ContentType = "multipart/mixed; Boundary=\"abc\\\"def\"".parse().unwrap();
    let boundary = ct.boundary().expect("boundary present");
    assert_eq!(boundary.as_raw(), "\"abc\\\"def\"");
    assert_eq!(boundary.unquoted().as_str(), "abc\"def");
}

#[test]
fn content_type_parameters_iterates_in_declaration_order() {
    let ct: ContentType = "text/html; charset=utf-8; boundary=x".parse().unwrap();
    let pairs: Vec<(String, String)> = ct
        .parameters()
        .into_iter()
        .map(|(k, v)| (k.to_owned(), v.unquoted()))
        .collect();
    assert_eq!(
        pairs,
        vec![
            ("charset".to_owned(), "utf-8".to_owned()),
            ("boundary".to_owned(), "x".to_owned()),
        ]
    );
}

#[test]
fn content_transfer_encoding_canonicalizes_known_tokens() {
    assert_eq!(
        "Base64"
            .parse::<ContentTransferEncoding>()
            .unwrap()
            .as_str(),
        "base64"
    );
    assert_eq!(
        "7BIT".parse::<ContentTransferEncoding>().unwrap().as_str(),
        "7bit"
    );
    assert_eq!(
        "Quoted-Printable"
            .parse::<ContentTransferEncoding>()
            .unwrap(),
        ContentTransferEncoding::QuotedPrintable
    );

    let other: ContentTransferEncoding = "x-my-encoding".parse().unwrap();
    assert_eq!(
        other,
        ContentTransferEncoding::Other("x-my-encoding".to_owned())
    );
    assert_eq!(other.as_str(), "x-my-encoding");
}

#[test]
fn content_disposition_kind_and_parameter_accessors() {
    let cd: ContentDisposition = "attachment; filename=\"report.pdf\""
        .parse()
        .expect("disposition should parse");
    assert_eq!(cd.kind(), "attachment");
    assert!(cd.is_attachment());
    assert!(!cd.is_inline());
    let filename = cd.filename().expect("filename present");
    assert_eq!(filename.unquoted().as_str(), "report.pdf");
}

#[test]
fn content_disposition_filename_falls_back_to_extended_parameter() {
    let cd: ContentDisposition = "attachment; filename*=utf-8''f%C3%A1jl.txt"
        .parse()
        .expect("disposition should parse");

    let filename = cd.filename().expect("filename* present");
    assert_eq!(filename.as_raw(), "utf-8''f%C3%A1jl.txt");
}

#[test]
fn content_disposition_inline_kind_is_case_insensitive() {
    let cd: ContentDisposition = "INLINE".parse().expect("disposition should parse");
    assert!(cd.is_inline());
    assert!(!cd.is_attachment());
}

#[test]
fn content_disposition_parameters_iterates_in_declaration_order() {
    let cd: ContentDisposition = "attachment; filename=report.pdf; size=42".parse().unwrap();
    let pairs: Vec<(String, String)> = cd
        .parameters()
        .into_iter()
        .map(|(k, v)| (k.to_owned(), v.unquoted()))
        .collect();
    assert_eq!(
        pairs,
        vec![
            ("filename".to_owned(), "report.pdf".to_owned()),
            ("size".to_owned(), "42".to_owned()),
        ]
    );
}

#[test]
fn content_disposition_parameter_lookup_is_case_insensitive() {
    let cd: ContentDisposition = "attachment; FileName=\"x.txt\"".parse().unwrap();
    assert_eq!(
        cd.parameter("filename").unwrap().unquoted().as_str(),
        "x.txt"
    );
    assert_eq!(
        cd.parameter("FILENAME").unwrap().unquoted().as_str(),
        "x.txt"
    );
}

#[test]
fn content_transfer_encoding_other_is_case_insensitive() {
    let a: ContentTransferEncoding = "X-MyEnc".parse().unwrap();
    let b: ContentTransferEncoding = "x-myenc".parse().unwrap();
    let c: ContentTransferEncoding = "X-MYENC".parse().unwrap();
    assert_eq!(a, b);
    assert_eq!(a, c);
    assert_eq!(a.as_str(), "x-myenc");
    assert_eq!(c.as_str(), "x-myenc");

    let mut set: HashSet<ContentTransferEncoding> = HashSet::new();
    set.insert(a);
    assert!(set.contains(&b));
    assert!(set.contains(&c));
}

#[test]
fn content_type_eq_is_case_insensitive_after_normalize() {

    let upper = ContentType::try_from("TEXT/PLAIN; CHARSET=UTF-8").unwrap();
    let lower = ContentType::try_from("text/plain; charset=UTF-8").unwrap();

    assert_eq!(upper, lower);
    assert_eq!(upper.as_str(), "text/plain; charset=UTF-8");

    let mut h_u = DefaultHasher::new();
    upper.hash(&mut h_u);
    let mut h_l = DefaultHasher::new();
    lower.hash(&mut h_l);
    assert_eq!(h_u.finish(), h_l.finish());

    let preserved = ContentType::try_from("multipart/mixed; BOUNDARY=\"AbC\"").unwrap();
    assert_eq!(preserved.as_str(), "multipart/mixed; boundary=\"AbC\"");
}

#[test]
fn content_disposition_eq_is_case_insensitive_after_normalize() {
    let upper = ContentDisposition::try_from("ATTACHMENT; FILENAME=\"x.pdf\"").unwrap();
    let lower = ContentDisposition::try_from("attachment; filename=\"x.pdf\"").unwrap();

    assert_eq!(upper, lower);
    assert_eq!(upper.as_str(), "attachment; filename=\"x.pdf\"");
}

// Further cases.

#[test]
fn content_type_normalizes_spacing_between_parameters() {
    let ct = ContentType::try_from("  Text/HTML ;charset=utf-8;  Name = \"a b\"  ").unwrap();
    assert_eq!(ct.as_str(), "text/html; charset=utf-8; name=\"a b\"");
}

#[test]
fn content_type_rejects_empty_and_bare_tokens() {
    assert!(ContentType::try_from("").is_err());
    assert!(ContentType::try_from("   ").is_err());
    assert!(ContentType::try_from("text").is_err());
    assert!(ContentType::try_from("text/plain; =x").is_err());
}

#[test]
fn content_type_quoted_semicolon_stays_in_value() {
    let ct = ContentType::try_from("application/octet-stream; name=\"a;b.txt\"").unwrap();
    let name = ct.parameter("name").unwrap();
    assert_eq!(name.as_raw(), "\"a;b.txt\"");
    assert_eq!(name.unquoted(), "a;b.txt");
    assert!(ct.parameter("missing").is_none());
    assert!(ct.charset().is_none());
}

#[test]
fn media_type_matches_requires_a_slash() {
    let ct = ContentType::try_from("image/png").unwrap();
    let media = ct.media_type();
    assert!(media.is_image());
    assert!(!media.matches("image"));
    assert!(!media.matches("image/jpeg"));
}

#[test]
fn parameter_value_unquoted_drops_trailing_backslash() {
    let ct = ContentType::try_from("text/plain; a=\"x\\\\\"").unwrap();
    assert_eq!(ct.parameter("a").unwrap().unquoted(), "x\\");
}

#[test]
fn content_transfer_encoding_rejects_empty_and_non_tokens() {
    assert!("".parse::<ContentTransferEncoding>().is_err());
    assert!("  ".parse::<ContentTransferEncoding>().is_err());
    assert!("base 64".parse::<ContentTransferEncoding>().is_err());
    assert_eq!(
        " 8Bit ".parse::<ContentTransferEncoding>().unwrap(),
        ContentTransferEncoding::EightBit
    );
    assert_eq!(
        "BINARY".parse::<ContentTransferEncoding>().unwrap().to_string(),
        "binary"
    );
}

#[test]
fn content_disposition_rejects_subtype_and_empty() {
    assert!(ContentDisposition::try_from("attachment/x").is_err());
    assert!(ContentDisposition::try_from("").is_err());
}

#[test]
fn content_transfer_encoding_names_parse_back_to_the_same_encoding() {
    for raw in ["7BIT", "8bit", "Binary", "QUOTED-printable", "base64", "X-MyEnc", "x-uuencode"] {
        let parsed = ContentTransferEncoding::from_str(raw).expect("token parses");
        let again = ContentTransferEncoding::from_str(parsed.as_str()).expect("name parses");
        assert_eq!(parsed, again, "{raw} changed after a second parse");
    }
    assert_eq!(
        ContentTransferEncoding::from_str("X-MyEnc").unwrap().as_str(),
        "x-myenc"
    );
}
