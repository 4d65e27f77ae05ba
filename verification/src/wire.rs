//! RFC 822/MIME parsing and rendering of messages.
use vstd::prelude::*;
use crate::address::{
    Address, AddressList, AddressView, Mailbox, MailboxView, address_items, address_views, lemma_address_views_push,
};
use crate::email::{addr_spec_serialized, normalized_address, parsed_address};
use crate::message::{first_reserved, is_reserved_name};
use crate::message::{
    BodyView, DateTime, Header, Message, MessageValidationError, MessageView, ValidationDefect, header_views,
    validation_defect, validation_reported,
};
use crate::message_id::{MessageId, MessageIdParseError, id_inner, message_id_defect};
use crate::mime_types::{ContentTransferEncoding, encoding_name_of, encoding_token_ok, lemma_encoding_name_of, opt_encoding_view};
use crate::text::{eq_ignore_case, push_str, str_chars, str_eq_ignore_case, trim, trim_window};
use crate::wire::encoded_word::{
    decode_rfc2047_words, encode_rfc2047_unstructured, escape_encoded_words_inside_quoted_strings,
    quoted_words_escaped, rfc2047_decoded, unstructured_encoded,
};
use crate::wire::header::{
    FieldView, LineDefect, field_views, fields_valid, header_fields, header_split, line_error_is,
    parse_header_lines_bytes, split_headers_and_body_bytes,
};
use crate::wire::mime_parse::{BodyDefect, body_parsed, mime_error_is, parse_body};
use crate::wire::mime_render::{
    PayloadDefect, RenderDefect, build_render_payload, field, fields_bytes, payload_error_is, push_fields,
    render_defect_is, render_payload,
};
use crate::wire::header::{
    address_list_header, is_structured_header, mailbox_header, render_address_list_header, render_mailbox_header,
    structured_header_name,
};
use vstd::utf8::is_ascii_chars;
use crate::wire::shared::{decimal, push_decimal};
pub use crate::wire::shared::{MAX_INPUT_BYTES, MAX_MULTIPART_DEPTH, MAX_MULTIPART_PARTS};
pub use crate::wire::encoded_word::decode_rfc2047_phrase;

pub mod shared;
pub mod transfer_encoding;
pub mod encoded_word;
pub mod header;
pub mod content_type;
pub mod mime_parse;
pub mod mime_render;
pub mod attachment;
pub mod round_trip;
pub mod mime_round_trip;
pub mod header_lines;
pub mod field_laws;

verus! {

#[verifier::external_type_specification]
#[verifier::external_body]
pub struct ExDateParseError(time::error::Parse);

/// Errors returned while parsing RFC 822/MIME bytes.
#[derive(Debug)]
#[non_exhaustive]
pub enum MessageParseError {
    /// A header line is not valid UTF-8.
    InvalidUtf8,
    /// A header line violates the supported RFC 5322 syntax or byte rules.
    InvalidHeaderLine { line: String },
    /// A single-mailbox header could not be parsed.
    MailboxHeaderParse { header: &'static str },
    /// An address-list header could not be parsed.
    AddressHeaderParse { header: &'static str },
    /// The `Date` header is not a valid RFC 2822 date-time.
    Date { source: time::error::Parse },
    /// The `Message-ID` header is invalid.
    MessageId { source: MessageIdParseError },
    /// MIME structure, metadata, or transfer-encoded content is invalid.
    MimeBodyParse { details: String },
}

impl MessageParseError {
    /// Variants compare by kind and by their text; the `source` of `Date` and
    /// `MessageId` is not compared.
    pub fn same_as(&self, other: &MessageParseError) -> (r: bool)
        ensures
            r == parse_errors_match(*self, *other),
    {
        match (self, other) {
            (MessageParseError::InvalidUtf8, MessageParseError::InvalidUtf8) => true,
            (MessageParseError::Date { .. }, MessageParseError::Date { .. }) => true,
            (MessageParseError::MessageId { .. }, MessageParseError::MessageId { .. }) => true,
            (MessageParseError::InvalidHeaderLine { line: a }, MessageParseError::InvalidHeaderLine { line: b }) => crate::text::str_eq(a.as_str(), b.as_str()),
            (MessageParseError::MimeBodyParse { details: a }, MessageParseError::MimeBodyParse { details: b }) => crate::text::str_eq(a.as_str(), b.as_str()),
            (
                MessageParseError::MailboxHeaderParse { header: a },
                MessageParseError::MailboxHeaderParse { header: b },
            ) => crate::text::str_eq(a, b),
            (
                MessageParseError::AddressHeaderParse { header: a },
                MessageParseError::AddressHeaderParse { header: b },
            ) => crate::text::str_eq(a, b),
            _ => false,
        }
    }
}

/// When two parse errors are equal: same kind and same text.
pub open spec fn parse_errors_match(a: MessageParseError, b: MessageParseError) -> bool {
    match (a, b) {
        (MessageParseError::InvalidUtf8, MessageParseError::InvalidUtf8) => true,
        (MessageParseError::Date { .. }, MessageParseError::Date { .. }) => true,
        (MessageParseError::MessageId { .. }, MessageParseError::MessageId { .. }) => true,
        (MessageParseError::InvalidHeaderLine { line: x }, MessageParseError::InvalidHeaderLine { line: y }) => x@ == y@,
        (MessageParseError::MimeBodyParse { details: x }, MessageParseError::MimeBodyParse { details: y }) => x@ == y@,
        (MessageParseError::MailboxHeaderParse { header: x }, MessageParseError::MailboxHeaderParse { header: y }) => x@
            == y@,
        (MessageParseError::AddressHeaderParse { header: x }, MessageParseError::AddressHeaderParse { header: y }) => x@
            == y@,
        _ => false,
    }
}

impl PartialEq for MessageParseError {
    fn eq(&self, other: &MessageParseError) -> (r: bool) {
        self.same_as(other)
    }
}

impl vstd::std_specs::cmp::PartialEqSpecImpl for MessageParseError {
    open spec fn obeys_eq_spec() -> bool {
        true
    }

    open spec fn eq_spec(&self, other: &MessageParseError) -> bool {
        parse_errors_match(*self, *other)
    }
}

impl Eq for MessageParseError {}

/// Errors returned while rendering an RFC 822/MIME message.
#[derive(Clone, Debug, PartialEq, Eq)]
#[non_exhaustive]
pub enum MessageRenderError {
    /// A header value contains a raw carriage return or line feed.
    HeaderContainsRawNewline { name: String },
    /// A header value contains a forbidden control character.
    HeaderContainsControlCharacter { name: String },
    /// A header remains non-ASCII after applicable encoding.
    HeaderContainsNonAscii { name: String },
    /// A header name violates RFC 5322 field-name syntax.
    InvalidHeaderName { name: String },
    /// A header cannot be folded below the RFC 5322 hard line limit.
    HeaderLineTooLong { name: String },
    /// The message date could not be formatted as RFC 2822.
    DateFormat,
    /// A MIME boundary is empty.
    EmptyMimeBoundary,
    /// A MIME boundary contains bytes forbidden by the supported grammar.
    InvalidMimeBoundary,
    /// The content-type boundary parameter differs from the part boundary.
    MismatchedMimeBoundary,
    /// A multipart node contains no child parts.
    EmptyMultipartParts,
    /// A MIME tree exceeds the maximum multipart depth.
    MimeNestingTooDeep,
    /// A multipart node's content type is not `multipart/*`.
    InvalidMultipartContentType,
    /// An unresolved attachment reference cannot be rendered.
    UnsupportedAttachmentBody,
    /// An attachment content id is not a valid message-id value.
    InvalidContentId,
    /// The message contains a body variant unsupported by this renderer.
    UnsupportedBody,
    /// The message failed baseline outbound validation.
    MessageValidation(MessageValidationError),
}

/// Render-time options for `render_rfc822_with`.
#[derive(Clone, Copy, Debug, PartialEq, Eq)]
#[non_exhaustive]
pub struct RenderOptions {
    /// Whether the rendered message carries a `Bcc:` line.
    pub include_bcc: bool,
    /// Optional soft-fold target for header lines, in characters.
    pub soft_fold_at: Option<usize>,
}

impl RenderOptions {
    /// Options with Bcc output and soft folding disabled.
    pub fn new() -> (r: RenderOptions)
        ensures
            !r.include_bcc,
            r.soft_fold_at is None,
    {
        RenderOptions { include_bcc: false, soft_fold_at: None }
    }

    /// Chooses whether to emit the `Bcc` header.
    pub fn with_include_bcc(self, value: bool) -> (r: RenderOptions)
        ensures
            r == (RenderOptions { include_bcc: value, ..self }),
    {
        RenderOptions { include_bcc: value, ..self }
    }

    /// Sets the soft-fold target.
    pub fn with_soft_fold(self, soft_fold_at: usize) -> (r: RenderOptions)
        ensures
            r == (RenderOptions { soft_fold_at: Some(soft_fold_at), ..self }),
    {
        RenderOptions { soft_fold_at: Some(soft_fold_at), ..self }
    }

    /// Disables soft folding.
    pub fn without_soft_fold(self) -> (r: RenderOptions)
        ensures
            r == (RenderOptions { soft_fold_at: None, ..self }),
    {
        RenderOptions { soft_fold_at: None, ..self }
    }
}

impl Default for RenderOptions {
    fn default() -> (r: RenderOptions)
        ensures
            !r.include_bcc,
            r.soft_fold_at is None,
    {
        RenderOptions::new()
    }
}

} // verus!

verus! {

// ---------------------------------------------------------------------------
// Dates
// ---------------------------------------------------------------------------

/// What `OffsetDateTime::parse(s, &Rfc2822)` of the `time` crate gives for
/// `s` (its Unix time, nanoseconds and UTC offset); `None` where it fails.
pub uninterp spec fn rfc2822_parsed(s: Seq<char>) -> Option<DateTime>;

/// What the `time` crate writes for the date-time `d`: the `OffsetDateTime`
/// built from its Unix timestamp (`from_unix_timestamp`), nanosecond
/// (`replace_nanosecond`) and UTC offset (`UtcOffset::from_whole_seconds`,
/// `checked_to_offset`), formatted with `Rfc2822`; `None` where one of those
/// steps fails.
pub uninterp spec fn rfc2822_formatted(d: DateTime) -> Option<Seq<char>>;

/// Calls `OffsetDateTime::parse` with the `Rfc2822` format of the `time`
/// crate and reads the result's Unix timestamp, nanosecond and offset. The
/// contract names the result and claims nothing more of it.
#[verifier::external_body]
pub fn parse_rfc2822_date(s: &str) -> (r: Result<DateTime, time::error::Parse>)
    ensures
        match r {
            Ok(d) => rfc2822_parsed(s@) == Some(d),
            Err(_) => rfc2822_parsed(s@) is None,
        },
{
    match time::OffsetDateTime::parse(s, &time::format_description::well_known::Rfc2822) {
        Ok(dt) => Ok(
            DateTime {
                unix_timestamp: dt.unix_timestamp(),
                nanosecond: dt.nanosecond(),
                offset_seconds: dt.offset().whole_seconds(),
            },
        ),
        Err(e) => Err(e),
    }
}

/// Builds the `time` crate's `OffsetDateTime` for `d` from its plain
/// numbers (a deterministic conversion) and calls its `format` with the
/// `Rfc2822` format. The contract names the result and claims nothing more
/// of it.
#[verifier::external_body]
pub fn format_rfc2822_date(d: DateTime) -> (r: Option<String>)
    ensures
        match r {
            Some(s) => rfc2822_formatted(d) == Some(s@),
            None => rfc2822_formatted(d) is None,
        },
{
    let utc = time::OffsetDateTime::from_unix_timestamp(d.unix_timestamp).ok()?;
    let exact = utc.replace_nanosecond(d.nanosecond).ok()?;
    let offset = time::UtcOffset::from_whole_seconds(d.offset_seconds).ok()?;
    let local = exact.checked_to_offset(offset)?;
    local.format(&time::format_description::well_known::Rfc2822).ok()
}

// ---------------------------------------------------------------------------
// Parsing
// ---------------------------------------------------------------------------

/// What `Mailbox::from_str` gives for `s`.
pub open spec fn mailbox_parsed(s: Seq<char>) -> Option<MailboxView> {
    match parsed_address(s) {
        Some(e) => Some(MailboxView { name: None, email: e }),
        None => match address_items(s) {
            Ok(items) => if items.len() == 1 && items[0] is Mailbox {
                Some(items[0]->Mailbox_0)
            } else {
                None
            },
            Err(_) => None,
        },
    }
}

/// What `MessageId::try_from` gives for `s`.
pub open spec fn message_id_parsed(s: Seq<char>) -> Option<Seq<char>> {
    if message_id_defect(s) is None {
        match addr_spec_serialized(id_inner(s)) {
            Some((lit, local, domain)) => Some(seq!['<'] + normalized_address(lit, local, domain) + seq!['>']),
            None => None,
        }
    } else {
        None
    }
}

/// Why input cannot be parsed as a message.
pub enum MessageDefect {
    TooLarge(nat),
    Line(LineDefect),
    Mailbox(Seq<char>),
    Addresses(Seq<char>),
    Date,
    MessageId,
    Mime(Seq<char>),
}

pub open spec fn too_large_details(n: nat) -> Seq<char> {
    "input is "@ + decimal(n) + " bytes, exceeding maximum of 16777216"@
}

pub open spec fn parse_error_is(e: MessageParseError, d: MessageDefect) -> bool {
    match d {
        MessageDefect::TooLarge(n) => mime_error_is(e, too_large_details(n)),
        MessageDefect::Line(l) => line_error_is(e, l),
        MessageDefect::Mailbox(h) => e matches MessageParseError::MailboxHeaderParse { header } && header@ == h,
        MessageDefect::Addresses(h) => e matches MessageParseError::AddressHeaderParse { header } && header@ == h,
        MessageDefect::Date => e is Date,
        MessageDefect::MessageId => e is MessageId,
        MessageDefect::Mime(m) => mime_error_is(e, m),
    }
}

/// What the parser has gathered from the header fields so far.
pub struct ParseState {
    pub from: Option<MailboxView>,
    pub sender: Option<MailboxView>,
    pub to: Seq<AddressView>,
    pub cc: Seq<AddressView>,
    pub bcc: Seq<AddressView>,
    pub reply_to: Seq<AddressView>,
    pub subject: Option<Seq<char>>,
    pub date: Option<DateTime>,
    pub message_id: Option<Seq<char>>,
    pub content_type: Option<Seq<char>>,
    pub cte: Option<Seq<char>>,
    pub headers: Seq<FieldView>,
}

pub open spec fn empty_state() -> ParseState {
    ParseState {
        from: None,
        sender: None,
        to: seq![],
        cc: seq![],
        bcc: seq![],
        reply_to: seq![],
        subject: None,
        date: None,
        message_id: None,
        content_type: None,
        cte: None,
        headers: seq![],
    }
}

/// What one header field does: address fields are parsed (with encoded
/// words inside quoted strings escaped first) and repeated list fields are
/// merged; `Subject` is decoded; `Date` and `Message-ID` are parsed from the
/// trimmed value; the MIME fields are kept for the body; any other field is
/// kept as a custom header. The last `From`, `Sender`, `Subject`, `Date`,
/// `Message-ID`, and MIME field wins.
pub open spec fn field_step(st: ParseState, name: Seq<char>, value: Seq<char>) -> Result<ParseState, MessageDefect> {
    let addr = quoted_words_escaped(value);
    if eq_ignore_case(name, "from"@) {
        match mailbox_parsed(addr) {
            Some(m) => Ok(ParseState { from: Some(m), ..st }),
            None => Err(MessageDefect::Mailbox("From"@)),
        }
    } else if eq_ignore_case(name, "sender"@) {
        match mailbox_parsed(addr) {
            Some(m) => Ok(ParseState { sender: Some(m), ..st }),
            None => Err(MessageDefect::Mailbox("Sender"@)),
        }
    } else if eq_ignore_case(name, "to"@) {
        match address_items(addr) {
            Ok(items) => Ok(ParseState { to: st.to + items, ..st }),
            Err(_) => Err(MessageDefect::Addresses("To"@)),
        }
    } else if eq_ignore_case(name, "cc"@) {
        match address_items(addr) {
            Ok(items) => Ok(ParseState { cc: st.cc + items, ..st }),
            Err(_) => Err(MessageDefect::Addresses("Cc"@)),
        }
    } else if eq_ignore_case(name, "bcc"@) {
        match address_items(addr) {
            Ok(items) => Ok(ParseState { bcc: st.bcc + items, ..st }),
            Err(_) => Err(MessageDefect::Addresses("Bcc"@)),
        }
    } else if eq_ignore_case(name, "reply-to"@) {
        match address_items(addr) {
            Ok(items) => Ok(ParseState { reply_to: st.reply_to + items, ..st }),
            Err(_) => Err(MessageDefect::Addresses("Reply-To"@)),
        }
    } else if eq_ignore_case(name, "subject"@) {
        Ok(ParseState { subject: Some(rfc2047_decoded(value)), ..st })
    } else if eq_ignore_case(name, "date"@) {
        match rfc2822_parsed(trim(value)) {
            Some(d) => Ok(ParseState { date: Some(d), ..st }),
            None => Err(MessageDefect::Date),
        }
    } else if eq_ignore_case(name, "message-id"@) {
        match message_id_parsed(trim(value)) {
            Some(id) => Ok(ParseState { message_id: Some(id), ..st }),
            None => Err(MessageDefect::MessageId),
        }
    } else if eq_ignore_case(name, "content-type"@) {
        Ok(ParseState { content_type: Some(value), ..st })
    } else if eq_ignore_case(name, "content-transfer-encoding"@) {
        if encoding_token_ok(value) {
            Ok(ParseState { cte: Some(encoding_name_of(trim(value))), ..st })
        } else {
            Err(MessageDefect::Mime("invalid top-level content-transfer-encoding `"@ + value + "`"@))
        }
    } else {
        Ok(ParseState { headers: st.headers.push((name, value)), ..st })
    }
}

/// The header fields `k..` applied in order; the first failure wins.
pub open spec fn fields_fold(fs: Seq<FieldView>, k: int, st: ParseState) -> Result<ParseState, MessageDefect>
    decreases fs.len() - k,
{
    if k < 0 || k >= fs.len() {
        Ok(st)
    } else {
        match field_step(st, fs[k].0, fs[k].1) {
            Err(d) => Err(d),
            Ok(next) => fields_fold(fs, k + 1, next),
        }
    }
}

/// A message parsed from RFC 822 bytes.
pub open spec fn rfc822_parsed(input: Seq<u8>) -> Result<MessageView, MessageDefect> {
    if input.len() > 16777216 {
        Err(MessageDefect::TooLarge(input.len()))
    } else {
        let sp = header_split(input);
        match header_fields(input.subrange(0, sp.0)) {
            Err(d) => Err(MessageDefect::Line(d)),
            Ok(fs) => match fields_fold(fs, 0, empty_state()) {
                Err(d) => Err(d),
                Ok(st) => match body_parsed(input.subrange(sp.1, input.len() as int), st.content_type, st.cte) {
                    Err(BodyDefect::Header(l)) => Err(MessageDefect::Line(l)),
                    Err(BodyDefect::Mime(m)) => Err(MessageDefect::Mime(m)),
                    Ok(b) => Ok(
                        MessageView {
                            from: st.from,
                            sender: st.sender,
                            to: st.to,
                            cc: st.cc,
                            bcc: st.bcc,
                            reply_to: st.reply_to,
                            subject: st.subject,
                            date: st.date,
                            message_id: st.message_id,
                            headers: st.headers,
                            body: b,
                            attachments: seq![],
                        },
                    ),
                },
            },
        }
    }
}

} // verus!

verus! {

fn append_addresses(dst: &mut Vec<Address>, src: Vec<Address>)
    ensures
        address_views(final(dst)@) == address_views(old(dst)@) + address_views(src@),
{
    let ghost s0 = src@;
    let mut src = src;
    dst.append(&mut src);
    assert(dst@ == old(dst)@ + s0);
    assert(address_views(dst@) =~= address_views(old(dst)@) + address_views(s0));
}

fn trimmed_string(s: &str) -> (r: String)
    ensures
        r@ == trim(s@),
{
    let v = str_chars(s);
    let (a, b) = trim_window(&v, 0, v.len());
    crate::text::string_from_chars(v.as_slice(), a, b)
}

pub open spec fn state_of(
    from: Option<Mailbox>,
    sender: Option<Mailbox>,
    to: Seq<Address>,
    cc: Seq<Address>,
    bcc: Seq<Address>,
    reply_to: Seq<Address>,
    subject: Option<String>,
    date: Option<DateTime>,
    message_id: Option<MessageId>,
    content_type: Option<String>,
    cte: Option<ContentTransferEncoding>,
    headers: Seq<Header>,
) -> ParseState {
    ParseState {
        from: crate::message::opt_mailbox_view(from),
        sender: crate::message::opt_mailbox_view(sender),
        to: address_views(to),
        cc: address_views(cc),
        bcc: address_views(bcc),
        reply_to: address_views(reply_to),
        subject: crate::text::opt_view(subject),
        date,
        message_id: crate::message::opt_message_id_view(message_id),
        content_type: crate::text::opt_view(content_type),
        cte: opt_encoding_view(cte),
        headers: header_views(headers),
    }
}

fn input_too_large(n: usize) -> (r: MessageParseError)
    ensures
        mime_error_is(r, too_large_details(n as nat)),
{
    let mut details = String::new();
    push_str(&mut details, "input is ");
    push_decimal(&mut details, n);
    push_str(&mut details, " bytes, exceeding maximum of 16777216");
    MessageParseError::MimeBodyParse { details }
}

/// Parses RFC 822/MIME bytes into a message.
#[verifier::loop_isolation(false)]
pub fn parse_rfc822(input: &[u8]) -> (r: Result<Message, MessageParseError>)
    ensures
        match rfc822_parsed(input@) {
            Ok(m) => r matches Ok(msg) && msg@ == m,
            Err(d) => r matches Err(e) && parse_error_is(e, d),
        },
{
    if input.len() > MAX_INPUT_BYTES {
        return Err(input_too_large(input.len()));
    }
    let (he, bs) = split_headers_and_body_bytes(input);
    let parsed_headers = match parse_header_lines_bytes(&input[0..he]) {
        Ok(h) => h,
        Err(e) => return Err(e),
    };
    let ghost fs = field_views(parsed_headers@);
    proof {
        crate::wire::header::lemma_header_fields_from_valid(input@.subrange(0, he as int), 0, seq![], None);
    }
    let mut from: Option<Mailbox> = None;
    let mut sender: Option<Mailbox> = None;
    let mut to: Vec<Address> = Vec::new();
    let mut cc: Vec<Address> = Vec::new();
    let mut bcc: Vec<Address> = Vec::new();
    let mut reply_to: Vec<Address> = Vec::new();
    let mut subject: Option<String> = None;
    let mut date: Option<DateTime> = None;
    let mut message_id: Option<MessageId> = None;
    let mut root_content_type: Option<String> = None;
    let mut root_content_transfer_encoding: Option<ContentTransferEncoding> = None;
    let mut headers: Vec<Header> = Vec::new();
    proof {
        crate::message::lemma_empty_views();
    }
    let mut k: usize = 0;
    while k < parsed_headers.len()
        invariant
            k <= parsed_headers@.len(),
            fs == field_views(parsed_headers@),
            fields_valid(fs),
            fields_fold(fs, 0, empty_state()) == fields_fold(
                fs,
                k as int,
                state_of(
                    from,
                    sender,
                    to@,
                    cc@,
                    bcc@,
                    reply_to@,
                    subject,
                    date,
                    message_id,
                    root_content_type,
                    root_content_transfer_encoding,
                    headers@,
                ),
            ),
        decreases parsed_headers@.len() - k,
    {
        let name = parsed_headers[k].0.as_str();
        let value = parsed_headers[k].1.as_str();
        assert(fs[k as int] == (name@, value@));
        let address_value = escape_encoded_words_inside_quoted_strings(value);
        if str_eq_ignore_case(name, "from") {
            match Mailbox::from_str(address_value.as_str()) {
                Ok(m) => {
                    from = Some(m);
                },
                Err(_) => {
                    return Err(MessageParseError::MailboxHeaderParse { header: "From" });
                },
            }
        } else if str_eq_ignore_case(name, "sender") {
            match Mailbox::from_str(address_value.as_str()) {
                Ok(m) => {
                    sender = Some(m);
                },
                Err(_) => {
                    return Err(MessageParseError::MailboxHeaderParse { header: "Sender" });
                },
            }
        } else if str_eq_ignore_case(name, "to") {
            match AddressList::from_str(address_value.as_str()) {
                Ok(list) => append_addresses(&mut to, list.into_vec()),
                Err(_) => {
                    return Err(MessageParseError::AddressHeaderParse { header: "To" });
                },
            }
        } else if str_eq_ignore_case(name, "cc") {
            match AddressList::from_str(address_value.as_str()) {
                Ok(list) => append_addresses(&mut cc, list.into_vec()),
                Err(_) => {
                    return Err(MessageParseError::AddressHeaderParse { header: "Cc" });
                },
            }
        } else if str_eq_ignore_case(name, "bcc") {
            match AddressList::from_str(address_value.as_str()) {
                Ok(list) => append_addresses(&mut bcc, list.into_vec()),
                Err(_) => {
                    return Err(MessageParseError::AddressHeaderParse { header: "Bcc" });
                },
            }
        } else if str_eq_ignore_case(name, "reply-to") {
            match AddressList::from_str(address_value.as_str()) {
                Ok(list) => append_addresses(&mut reply_to, list.into_vec()),
                Err(_) => {
                    return Err(MessageParseError::AddressHeaderParse { header: "Reply-To" });
                },
            }
        } else if str_eq_ignore_case(name, "subject") {
            subject = Some(decode_rfc2047_words(value));
        } else if str_eq_ignore_case(name, "date") {
            let t = trimmed_string(value);
            match parse_rfc2822_date(t.as_str()) {
                Ok(d) => {
                    date = Some(d);
                },
                Err(source) => {
                    return Err(MessageParseError::Date { source });
                },
            }
        } else if str_eq_ignore_case(name, "message-id") {
            let t = trimmed_string(value);
            match MessageId::from_str(t.as_str()) {
                Ok(id) => {
                    message_id = Some(id);
                },
                Err(source) => {
                    return Err(MessageParseError::MessageId { source });
                },
            }
        } else if str_eq_ignore_case(name, "content-type") {
            root_content_type = Some(value.to_owned());
        } else if str_eq_ignore_case(name, "content-transfer-encoding") {
            match ContentTransferEncoding::from_str(value) {
                Ok(e) => {
                    proof {
                        lemma_encoding_name_of(e, trim(value@));
                    }
                    root_content_transfer_encoding = Some(e);
                },
                Err(_) => {
                    return Err(
                        crate::wire::mime_parse::quoted_details("invalid top-level content-transfer-encoding `", value),
                    );
                },
            }
        } else {
            assert(crate::message::header_defect(fs[k as int].0, fs[k as int].1) is None);
            match Header::new(name, value) {
                Ok(h) => {
                    let ghost before = header_views(headers@);
                    headers.push(h);
                    assert(header_views(headers@) =~= before.push((name@, value@)));
                },
                Err(_) => {
                    // Parsed fields are always valid headers.
                    return Err(MessageParseError::InvalidHeaderLine { line: name.to_owned() });
                },
            }
        }
        k = k + 1;
    }
    let cte_for_body = crate::mime_types::copy_encoding(&root_content_transfer_encoding);
    let content_type_ref = match &root_content_type {
        Some(c) => Some(c.as_str()),
        None => None,
    };
    let body = match parse_body(&input[bs..input.len()], content_type_ref, cte_for_body) {
        Ok(b) => b,
        Err(e) => return Err(e),
    };
    let mut builder = Message::builder(body).to(to).cc(cc).bcc(bcc).reply_to(reply_to).headers(headers).attachments(
        Vec::new(),
    );
    proof {
        crate::message::lemma_empty_views();
    }
    match from {
        Some(m) => {
            builder = builder.from_mailbox(m);
        },
        None => {},
    }
    match sender {
        Some(m) => {
            builder = builder.sender(m);
        },
        None => {},
    }
    match subject {
        Some(s) => {
            builder = builder.subject(s.as_str());
        },
        None => {},
    }
    match date {
        Some(d) => {
            builder = builder.date(d);
        },
        None => {},
    }
    match message_id {
        Some(id) => {
            builder = builder.message_id(id);
        },
        None => {},
    }
    Ok(builder.build_unchecked())
}

} // verus!

verus! {

// ---------------------------------------------------------------------------
// Rendering
// ---------------------------------------------------------------------------

/// Why a message cannot be rendered.
pub enum MessageRenderDefect {
    Validation(ValidationDefect),
    Render(RenderDefect),
    DateFormat,
    Payload(PayloadDefect),
}

pub open spec fn render_message_error_is(e: MessageRenderError, d: MessageRenderDefect) -> bool {
    match d {
        MessageRenderDefect::Validation(v) => e matches MessageRenderError::MessageValidation(x) && validation_reported(
            x,
            v,
        ),
        MessageRenderDefect::Render(r) => render_defect_is(e, r),
        MessageRenderDefect::DateFormat => e is DateFormat,
        MessageRenderDefect::Payload(p) => payload_error_is(e, p),
    }
}

/// A field when the condition holds, else nothing.
pub open spec fn field_if(c: bool, name: Seq<char>, value: Seq<char>) -> Seq<FieldView> {
    if c {
        seq![field(name, value)]
    } else {
        seq![]
    }
}

/// The address and subject fields, in this order: `From`, `Sender`, `To`,
/// `Cc`, `Bcc` (only when asked for), `Reply-To`, `Subject` (as encoded
/// words when not ASCII). Empty lists are left out.
pub open spec fn leading_fields(m: MessageView, include_bcc: bool) -> Seq<FieldView> {
    field_if(m.from is Some, "From"@, mailbox_header(m.from->0)) + field_if(
        m.sender is Some,
        "Sender"@,
        mailbox_header(m.sender->0),
    ) + field_if(m.to.len() > 0, "To"@, address_list_header(m.to, m.to.len() as int)) + field_if(
        m.cc.len() > 0,
        "Cc"@,
        address_list_header(m.cc, m.cc.len() as int),
    ) + field_if(include_bcc && m.bcc.len() > 0, "Bcc"@, address_list_header(m.bcc, m.bcc.len() as int)) + field_if(
        m.reply_to.len() > 0,
        "Reply-To"@,
        address_list_header(m.reply_to, m.reply_to.len() as int),
    ) + field_if(m.subject is Some, "Subject"@, unstructured_encoded(m.subject->0))
}

/// A custom header the renderer drops because the MIME fields replace it.
pub open spec fn replaced_by_mime(name: Seq<char>) -> bool {
    eq_ignore_case(name, "content-type"@) || eq_ignore_case(name, "content-transfer-encoding"@) || eq_ignore_case(
        name,
        "mime-version"@,
    )
}

/// The custom headers `k..` as written: for a MIME body those replaced by
/// the MIME fields are dropped; non-ASCII values of unstructured fields
/// become encoded words.
pub open spec fn custom_fields(hs: Seq<FieldView>, k: int, is_mime: bool) -> Seq<FieldView>
    decreases hs.len() - k,
{
    if k < 0 || k >= hs.len() {
        seq![]
    } else if is_mime && replaced_by_mime(hs[k].0) {
        custom_fields(hs, k + 1, is_mime)
    } else {
        let v = if is_ascii_chars(hs[k].1) || structured_header_name(hs[k].0) {
            hs[k].1
        } else {
            unstructured_encoded(hs[k].1)
        };
        seq![field(hs[k].0, v)] + custom_fields(hs, k + 1, is_mime)
    }
}

/// The `Date` field, when the message has a date; `None` when the date
/// cannot be formatted.
pub open spec fn date_fields(m: MessageView) -> Option<Seq<FieldView>> {
    match m.date {
        None => Some(seq![]),
        Some(d) => match rfc2822_formatted(d) {
            None => None,
            Some(s) => Some(seq![field("Date"@, s)]),
        },
    }
}

/// The header lines before the body's own fields: the typed fields, then
/// `Date` and `Message-ID`.
pub open spec fn head_rendered(m: MessageView, opts: RenderOptions) -> Result<Seq<u8>, MessageRenderDefect> {
    let soft = opts.soft_fold_at;
    match fields_bytes(leading_fields(m, opts.include_bcc), 0, soft) {
        Err(d) => Err(MessageRenderDefect::Render(d)),
        Ok(b1) => match date_fields(m) {
            None => Err(MessageRenderDefect::DateFormat),
            Some(df) => match fields_bytes(df + field_if(m.message_id is Some, "Message-ID"@, m.message_id->0), 0, soft) {
                Err(d) => Err(MessageRenderDefect::Render(d)),
                Ok(b2) => Ok(b1 + b2),
            },
        },
    }
}

/// The fields after the typed ones: the custom headers, then for a MIME
/// body `MIME-Version: 1.0` and the body's MIME fields.
pub open spec fn trailing_fields(m: MessageView, is_mime: bool, mime: Seq<FieldView>) -> Seq<FieldView> {
    custom_fields(m.headers, 0, is_mime) + if is_mime {
        seq![field("MIME-Version"@, "1.0"@)] + mime
    } else {
        seq![]
    }
}

/// A validated message as RFC 822 bytes: the typed header fields, the date
/// and message id, the custom headers, the MIME fields for a MIME body, a
/// blank line, and the body.
pub open spec fn rfc822_rendered(m: MessageView, opts: RenderOptions) -> Result<Seq<u8>, MessageRenderDefect> {
    match validation_defect(m) {
        Some(d) => Err(MessageRenderDefect::Validation(d)),
        None => match head_rendered(m, opts) {
            Err(d) => Err(d),
            Ok(head) => match render_payload(m.body, m.attachments, opts.soft_fold_at) {
                Err(d) => Err(MessageRenderDefect::Payload(d)),
                Ok((mime, body, is_mime)) => match fields_bytes(trailing_fields(m, is_mime, mime), 0, opts.soft_fold_at) {
                    Err(d) => Err(MessageRenderDefect::Render(d)),
                    Ok(b3) => Ok(head + b3 + seq![13u8, 10u8] + body),
                },
            },
        },
    }
}

fn push_field(fields: &mut Vec<(String, String)>, name: &str, value: String)
    ensures
        field_views(final(fields)@) == field_views(old(fields)@).push(field(name@, value@)),
{
    let ghost before = field_views(fields@);
    fields.push((name.to_owned(), value));
    assert(field_views(fields@) =~= before.push(field(name@, value@)));
}

#[verifier::rlimit(80)]
#[verifier::spinoff_prover]
fn leading_fields_exec(message: &Message, include_bcc: bool) -> (r: Vec<(String, String)>)
    ensures
        field_views(r@) == leading_fields(message@, include_bcc),
{
    let ghost m = message@;
    let mut f: Vec<(String, String)> = Vec::new();
    let ghost e = Seq::<FieldView>::empty();
    assert(field_views(f@) =~= e);
    match message.from_mailbox() {
        Some(from) => push_field(&mut f, "From", render_mailbox_header(from)),
        None => {},
    }
    assert(field_views(f@) =~= field_if(m.from is Some, "From"@, mailbox_header(m.from->0)));
    let ghost g1 = field_views(f@);
    match message.sender() {
        Some(sender) => push_field(&mut f, "Sender", render_mailbox_header(sender)),
        None => {},
    }
    assert(field_views(f@) =~= g1 + field_if(m.sender is Some, "Sender"@, mailbox_header(m.sender->0)));
    let ghost g2 = field_views(f@);
    if message.to().len() > 0 {
        push_field(&mut f, "To", render_address_list_header(message.to()));
    }
    assert(field_views(f@) =~= g2 + field_if(m.to.len() > 0, "To"@, address_list_header(m.to, m.to.len() as int)));
    let ghost g3 = field_views(f@);
    if message.cc().len() > 0 {
        push_field(&mut f, "Cc", render_address_list_header(message.cc()));
    }
    assert(field_views(f@) =~= g3 + field_if(m.cc.len() > 0, "Cc"@, address_list_header(m.cc, m.cc.len() as int)));
    let ghost g4 = field_views(f@);
    if include_bcc && message.bcc().len() > 0 {
        push_field(&mut f, "Bcc", render_address_list_header(message.bcc()));
    }
    assert(field_views(f@) =~= g4 + field_if(
        include_bcc && m.bcc.len() > 0,
        "Bcc"@,
        address_list_header(m.bcc, m.bcc.len() as int),
    ));
    let ghost g5 = field_views(f@);
    if message.reply_to().len() > 0 {
        push_field(&mut f, "Reply-To", render_address_list_header(message.reply_to()));
    }
    assert(field_views(f@) =~= g5 + field_if(
        m.reply_to.len() > 0,
        "Reply-To"@,
        address_list_header(m.reply_to, m.reply_to.len() as int),
    ));
    let ghost g6 = field_views(f@);
    match message.subject() {
        Some(subject) => push_field(&mut f, "Subject", encode_rfc2047_unstructured(subject)),
        None => {},
    }
    assert(field_views(f@) =~= g6 + field_if(m.subject is Some, "Subject"@, unstructured_encoded(m.subject->0)));
    f
}

fn custom_fields_exec(headers: &[Header], is_mime: bool, out: &mut Vec<(String, String)>)
    ensures
        field_views(final(out)@) == field_views(old(out)@) + custom_fields(header_views(headers@), 0, is_mime),
{
    let ghost hs = header_views(headers@);
    let mut k: usize = 0;
    while k < headers.len()
        invariant
            k <= headers@.len(),
            hs == header_views(headers@),
            field_views(old(out)@) + custom_fields(hs, 0, is_mime) == field_views(out@) + custom_fields(
                hs,
                k as int,
                is_mime,
            ),
        decreases headers@.len() - k,
    {
        let name = headers[k].name();
        let value = headers[k].value();
        assert(hs[k as int] == (name@, value@));
        if is_mime && (str_eq_ignore_case(name, "content-type") || str_eq_ignore_case(name, "content-transfer-encoding")
            || str_eq_ignore_case(name, "mime-version")) {
        } else {
            let v = if value.is_ascii() || is_structured_header(name) {
                value.to_owned()
            } else {
                encode_rfc2047_unstructured(value)
            };
            let ghost before = field_views(out@);
            push_field(out, name, v);
            assert(before + (seq![field(name@, v@)] + custom_fields(hs, k + 1, is_mime)) =~= field_views(out@)
                + custom_fields(hs, k + 1, is_mime));
        }
        k = k + 1;
    }
    assert(field_views(out@) + Seq::<FieldView>::empty() =~= field_views(out@));
}

fn render_head(message: &Message, options: &RenderOptions) -> (r: Result<Vec<u8>, MessageRenderError>)
    ensures
        match head_rendered(message@, *options) {
            Ok(b) => r matches Ok(v) && v@ == b,
            Err(d) => r matches Err(e) && render_message_error_is(e, d),
        },
{
    let soft = options.soft_fold_at;
    let mut out: Vec<u8> = Vec::new();
    let leading = leading_fields_exec(message, options.include_bcc);
    match push_fields(&mut out, &leading, soft) {
        Ok(()) => {},
        Err(e) => return Err(e),
    }
    let ghost b1 = out@;
    let mut second: Vec<(String, String)> = Vec::new();
    match message.date() {
        Some(date) => {
            match format_rfc2822_date(*date) {
                Some(formatted) => push_field(&mut second, "Date", formatted),
                None => return Err(MessageRenderError::DateFormat),
            }
        },
        None => {},
    }
    let ghost df = field_views(second@);
    assert(date_fields(message@) == Some(df)) by {
        if message@.date is None {
            assert(df =~= Seq::<FieldView>::empty());
        }
    }
    match message.message_id() {
        Some(id) => push_field(&mut second, "Message-ID", id.as_str().to_owned()),
        None => {},
    }
    assert(field_views(second@) =~= df + field_if(message@.message_id is Some, "Message-ID"@, message@.message_id->0));
    match push_fields(&mut out, &second, soft) {
        Ok(()) => {},
        Err(e) => return Err(e),
    }
    Ok(out)
}

fn trailing_fields_exec(message: &Message, is_mime: bool, mime_headers: &Vec<(String, String)>) -> (r: Vec<
    (String, String),
>)
    ensures
        field_views(r@) == trailing_fields(message@, is_mime, field_views(mime_headers@)),
{
    let mut third: Vec<(String, String)> = Vec::new();
    assert(field_views(third@) =~= Seq::<FieldView>::empty());
    custom_fields_exec(message.headers(), is_mime, &mut third);
    assert(field_views(third@) =~= custom_fields(message@.headers, 0, is_mime));
    if is_mime {
        push_field(&mut third, "MIME-Version", "1.0".to_owned());
        let mut k: usize = 0;
        let ghost start = field_views(third@);
        while k < mime_headers.len()
            invariant
                k <= mime_headers@.len(),
                field_views(third@) == start + field_views(mime_headers@).subrange(0, k as int),
            decreases mime_headers@.len() - k,
        {
            push_field(&mut third, mime_headers[k].0.as_str(), mime_headers[k].1.clone());
            assert(field_views(third@) =~= start + field_views(mime_headers@).subrange(0, k + 1));
            k = k + 1;
        }
        assert(field_views(mime_headers@).subrange(0, mime_headers@.len() as int) =~= field_views(mime_headers@));
    }
    third
}

/// Renders a message as RFC 822/MIME bytes with the given options.
pub fn render_rfc822_with(message: &Message, options: &RenderOptions) -> (r: Result<Vec<u8>, MessageRenderError>)
    ensures
        match rfc822_rendered(message@, *options) {
            Ok(b) => r matches Ok(v) && v@ == b,
            Err(d) => r matches Err(e) && render_message_error_is(e, d),
        },
{
    match message.validate_basic() {
        Ok(()) => {},
        Err(e) => return Err(MessageRenderError::MessageValidation(e)),
    }
    let mut out = match render_head(message, options) {
        Ok(h) => h,
        Err(e) => return Err(e),
    };
    let ghost head = out@;
    let (mime_headers, body_out, is_mime) = match build_render_payload(message, options.soft_fold_at) {
        Ok(x) => x,
        Err(e) => return Err(e),
    };
    let third = trailing_fields_exec(message, is_mime, &mime_headers);
    match push_fields(&mut out, &third, options.soft_fold_at) {
        Ok(()) => {},
        Err(e) => return Err(e),
    }
    let ghost b3 = out@.subrange(head.len() as int, out@.len() as int);
    assert(out@ =~= head + b3);
    out.push(13);
    out.push(10);
    crate::text::push_bytes(&mut out, body_out.as_slice());
    assert(out@ =~= head + b3 + seq![13u8, 10u8] + body_out@);
    Ok(out)
}

/// Renders a message as RFC 822/MIME bytes with the default options.
pub fn render_rfc822(message: &Message) -> (r: Result<Vec<u8>, MessageRenderError>)
    ensures
        match rfc822_rendered(message@, RenderOptions { include_bcc: false, soft_fold_at: None }) {
            Ok(b) => r matches Ok(v) && v@ == b,
            Err(d) => r matches Err(e) && render_message_error_is(e, d),
        },
{
    let options = RenderOptions::new();
    render_rfc822_with(message, &options)
}

} // verus!

verus! {

// ---------------------------------------------------------------------------
// Laws
// ---------------------------------------------------------------------------

proof fn lemma_no_reserved_after(h: Seq<(Seq<char>, Seq<char>)>, i: int)
    requires
        0 <= i,
        first_reserved(h, i) is None,
    ensures
        forall|j: int| i <= j < h.len() ==> !is_reserved_name(#[trigger] h[j].0),
    decreases h.len() - i,
{
    if i < h.len() {
        lemma_no_reserved_after(h, i + 1);
    }
}

proof fn lemma_custom_fields_names(hs: Seq<FieldView>, k: int, is_mime: bool)
    requires
        0 <= k,
    ensures
        forall|j: int| 0 <= j < custom_fields(hs, k, is_mime).len() ==> exists|i: int| k <= i < hs.len() && (#[trigger] custom_fields(hs, k, is_mime)[j]).0 == hs[i].0,
    decreases hs.len() - k,
{
    if k < hs.len() {
        lemma_custom_fields_names(hs, k + 1, is_mime);
        let rest = custom_fields(hs, k + 1, is_mime);
        let all = custom_fields(hs, k, is_mime);
        if !(is_mime && replaced_by_mime(hs[k].0)) {
            assert forall|j: int| 0 <= j < all.len() implies exists|i: int| k <= i < hs.len() && (#[trigger] all[j]).0 == hs[i].0 by {
                if j == 0 {
                    assert(all[0].0 == hs[k].0);
                } else {
                    assert(all[j] == rest[j - 1]);
                }
            }
        }
    }
}

/// Blind copies stay blind: the rendered header fields of a valid message
/// hold a `Bcc` field exactly when the caller asked for it and the message
/// has `Bcc` recipients; no custom header can stand in for it, as `Bcc` is
/// a reserved header name.
pub proof fn law_bcc_only_on_request(m: MessageView, include_bcc: bool, is_mime: bool)
    requires
        validation_defect(m) is None,
    ensures
        (exists|i: int| 0 <= i < leading_fields(m, include_bcc).len() && (#[trigger] leading_fields(m, include_bcc)[i]).0 == "Bcc"@)
            <==> (include_bcc && m.bcc.len() > 0),
        forall|i: int| 0 <= i < custom_fields(m.headers, 0, is_mime).len() ==> !eq_ignore_case(
            (#[trigger] custom_fields(m.headers, 0, is_mime)[i]).0,
            "bcc"@,
        ),
{
    reveal_strlit("From");
    reveal_strlit("Sender");
    reveal_strlit("To");
    reveal_strlit("Cc");
    reveal_strlit("Bcc");
    reveal_strlit("Reply-To");
    reveal_strlit("Subject");
    let lf = leading_fields(m, include_bcc);
    let f1 = field_if(m.from is Some, "From"@, mailbox_header(m.from->0));
    let f2 = field_if(m.sender is Some, "Sender"@, mailbox_header(m.sender->0));
    let f3 = field_if(m.to.len() > 0, "To"@, address_list_header(m.to, m.to.len() as int));
    let f4 = field_if(m.cc.len() > 0, "Cc"@, address_list_header(m.cc, m.cc.len() as int));
    let f5 = field_if(include_bcc && m.bcc.len() > 0, "Bcc"@, address_list_header(m.bcc, m.bcc.len() as int));
    let f6 = field_if(m.reply_to.len() > 0, "Reply-To"@, address_list_header(m.reply_to, m.reply_to.len() as int));
    let f7 = field_if(m.subject is Some, "Subject"@, unstructured_encoded(m.subject->0));
    assert(lf == f1 + f2 + f3 + f4 + f5 + f6 + f7);
    if include_bcc && m.bcc.len() > 0 {
        let at = (f1 + f2 + f3 + f4).len() as int;
        assert(lf[at] == f5[0]);
    }
    assert forall|i: int| 0 <= i < lf.len() && (#[trigger] lf[i]).0 == "Bcc"@ implies (include_bcc && m.bcc.len() > 0) by {
        let a = (f1 + f2 + f3 + f4).len() as int;
        if i >= a && i < a + f5.len() {
        } else {
            assert(lf[i].0 == "From"@ || lf[i].0 == "Sender"@ || lf[i].0 == "To"@ || lf[i].0 == "Cc"@ || lf[i].0
                == "Reply-To"@ || lf[i].0 == "Subject"@);
        }
    }
    lemma_no_reserved_after(m.headers, 0);
    lemma_custom_fields_names(m.headers, 0, is_mime);
    assert forall|i: int| 0 <= i < custom_fields(m.headers, 0, is_mime).len() implies !eq_ignore_case(
        (#[trigger] custom_fields(m.headers, 0, is_mime)[i]).0,
        "bcc"@,
    ) by {
        let j = choose|j: int| 0 <= j < m.headers.len() && custom_fields(m.headers, 0, is_mime)[i].0 == m.headers[j].0;
        assert(!is_reserved_name(m.headers[j].0));
    }
}

} // verus!
