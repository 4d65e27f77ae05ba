//! Message bodies, attachments, headers, builders, and outbound validation.
use vstd::prelude::*;
use crate::address::{
    Address, AddressView, Mailbox, MailboxView, address_views, clone_addresses, item_mailboxes,
    lemma_address_views_push,
};
use crate::email::EmailAddress;
use crate::message_id::MessageId;
use crate::mime_types::{ContentType, MimePart, MimePartView, mime_view};
use crate::text::{
    clone_opt_string_ref, eq_ignore_case, is_ascii_control_char, opt_view, str_chars, str_eq_ignore_case,
};

verus! {

// ---------------------------------------------------------------------------
// Envelope
// ---------------------------------------------------------------------------

pub open spec fn email_views(e: Seq<EmailAddress>) -> Seq<Seq<char>> {
    Seq::new(e.len(), |i: int| e[i]@)
}

/// SMTP envelope addresses.
#[derive(Debug, PartialEq, Eq, Hash)]
pub struct Envelope {
    mail_from: Option<EmailAddress>,
    rcpt_to: Vec<EmailAddress>,
}

pub open spec fn opt_email_view(o: Option<EmailAddress>) -> Option<Seq<char>> {
    match o {
        Some(e) => Some(e@),
        None => None,
    }
}

impl View for Envelope {
    type V = (Option<Seq<char>>, Seq<Seq<char>>);

    closed spec fn view(&self) -> (Option<Seq<char>>, Seq<Seq<char>>) {
        (opt_email_view(self.mail_from), email_views(self.rcpt_to@))
    }
}

impl Envelope {
    pub fn new(mail_from: Option<EmailAddress>, rcpt_to: Vec<EmailAddress>) -> (r: Envelope)
        ensures
            r@ == (opt_email_view(mail_from), email_views(rcpt_to@)),
    {
        Envelope { mail_from, rcpt_to }
    }

    pub fn mail_from(&self) -> (r: Option<&EmailAddress>)
        ensures
            match r {
                Some(e) => self@.0 == Some(e@),
                None => self@.0 is None,
            },
    {
        match &self.mail_from {
            Some(e) => Some(e),
            None => None,
        }
    }

    pub fn rcpt_to(&self) -> (r: &[EmailAddress])
        ensures
            email_views(r@) == self@.1,
    {
        self.rcpt_to.as_slice()
    }
}

// ---------------------------------------------------------------------------
// Header
// ---------------------------------------------------------------------------

/// RFC 5322 `ftext`: `!`..`9` and `;`..`~`.
pub open spec fn is_header_name_char(c: char) -> bool {
    ('!' <= c && c <= '9') || (';' <= c && c <= '~')
}

/// CR, LF, or a non-tab ASCII control character.
pub open spec fn is_header_unsafe_char(c: char) -> bool {
    c == '\r' || c == '\n' || (c != '\t' && is_ascii_control_char(c))
}

pub open spec fn has_unsafe_char(s: Seq<char>) -> bool {
    exists|i: int| 0 <= i < s.len() && is_header_unsafe_char(#[trigger] s[i])
}

pub open spec fn has_raw_newline(s: Seq<char>) -> bool {
    exists|i: int| 0 <= i < s.len() && ((#[trigger] s[i]) == '\r' || s[i] == '\n')
}

pub open spec fn has_control_char(s: Seq<char>) -> bool {
    exists|i: int| 0 <= i < s.len() && (#[trigger] s[i]) != '\t' && is_ascii_control_char(s[i])
}

pub open spec fn valid_header_name(s: Seq<char>) -> bool {
    forall|i: int| 0 <= i < s.len() ==> is_header_name_char(#[trigger] s[i])
}

/// Why a header was rejected, as plain values.
pub enum HeaderDefect {
    EmptyName,
    InvalidName,
    ValueContainsRawNewline,
    ValueContainsControlCharacter,
}

/// The first defect of a custom header, if any.
pub open spec fn header_defect(name: Seq<char>, value: Seq<char>) -> Option<HeaderDefect> {
    if name.len() == 0 {
        Some(HeaderDefect::EmptyName)
    } else if !valid_header_name(name) {
        Some(HeaderDefect::InvalidName)
    } else if has_raw_newline(value) {
        Some(HeaderDefect::ValueContainsRawNewline)
    } else if has_control_char(value) {
        Some(HeaderDefect::ValueContainsControlCharacter)
    } else {
        None
    }
}

/// Why a custom header is invalid.
#[derive(Clone, Debug, PartialEq, Eq)]
pub enum HeaderValidationError {
    EmptyName,
    InvalidName { name: String },
    ValueContainsRawNewline { name: String },
    ValueContainsControlCharacter { name: String },
}

pub open spec fn header_defect_reported(e: HeaderValidationError, d: HeaderDefect, name: Seq<char>) -> bool {
    match d {
        HeaderDefect::EmptyName => e is EmptyName,
        HeaderDefect::InvalidName => e matches HeaderValidationError::InvalidName { name: n } && n@ == name,
        HeaderDefect::ValueContainsRawNewline => e matches HeaderValidationError::ValueContainsRawNewline {
            name: n,
        } && n@ == name,
        HeaderDefect::ValueContainsControlCharacter => e matches HeaderValidationError::ValueContainsControlCharacter {
            name: n,
        } && n@ == name,
    }
}

/// A single custom header line with a validated name and value.
#[derive(Debug, PartialEq, Eq)]
pub struct Header {
    name: String,
    value: String,
}

impl View for Header {
    type V = (Seq<char>, Seq<char>);

    closed spec fn view(&self) -> (Seq<char>, Seq<char>) {
        (self.name@, self.value@)
    }
}

impl Clone for Header {
    fn clone(&self) -> (r: Self)
        ensures
            r@ == self@,
    {
        Header { name: self.name.clone(), value: self.value.clone() }
    }
}

pub open spec fn header_views(h: Seq<Header>) -> Seq<(Seq<char>, Seq<char>)> {
    Seq::new(h.len(), |i: int| h[i]@)
}

#[verifier::loop_isolation(false)]
fn scan_header(name: &Vec<char>, value: &Vec<char>) -> (r: Option<HeaderDefect>)
    ensures
        r == header_defect(name@, value@),
{
    if name.len() == 0 {
        return Some(HeaderDefect::EmptyName);
    }
    let mut i: usize = 0;
    while i < name.len()
        invariant
            i <= name@.len(),
            forall|j: int| 0 <= j < i ==> is_header_name_char(#[trigger] name@[j]),
        decreases name@.len() - i,
    {
        let c = name[i];
        if !(('!' <= c && c <= '9') || (';' <= c && c <= '~')) {
            return Some(HeaderDefect::InvalidName);
        }
        i = i + 1;
    }
    let mut j: usize = 0;
    while j < value.len()
        invariant
            j <= value@.len(),
            forall|k: int| 0 <= k < j ==> !((#[trigger] value@[k]) == '\r' || value@[k] == '\n'),
        decreases value@.len() - j,
    {
        if value[j] == '\r' || value[j] == '\n' {
            return Some(HeaderDefect::ValueContainsRawNewline);
        }
        j = j + 1;
    }
    let mut k: usize = 0;
    while k < value.len()
        invariant
            k <= value@.len(),
            forall|m: int| 0 <= m < k ==> !((#[trigger] value@[m]) != '\t' && is_ascii_control_char(value@[m])),
        decreases value@.len() - k,
    {
        let c = value[k];
        if c != '\t' && ((c as u32) < 0x20 || (c as u32) == 0x7f) {
            return Some(HeaderDefect::ValueContainsControlCharacter);
        }
        k = k + 1;
    }
    None
}

impl Header {
    pub fn name(&self) -> (r: &str)
        ensures
            r@ == self@.0,
    {
        self.name.as_str()
    }

    pub fn value(&self) -> (r: &str)
        ensures
            r@ == self@.1,
    {
        self.value.as_str()
    }

    /// Builds a header after checking that the name is non-empty RFC 5322
    /// `ftext` and the value has no CR, LF, or non-tab control character.
    pub fn new(name: &str, value: &str) -> (r: Result<Header, HeaderValidationError>)
        ensures
            match header_defect(name@, value@) {
                Some(d) => r matches Err(e) && header_defect_reported(e, d, name@),
                None => r matches Ok(h) && h@ == (name@, value@),
            },
    {
        let n = str_chars(name);
        let v = str_chars(value);
        match scan_header(&n, &v) {
            None => Ok(Header { name: name.to_owned(), value: value.to_owned() }),
            Some(HeaderDefect::EmptyName) => Err(HeaderValidationError::EmptyName),
            Some(HeaderDefect::InvalidName) => Err(HeaderValidationError::InvalidName { name: name.to_owned() }),
            Some(HeaderDefect::ValueContainsRawNewline) => Err(
                HeaderValidationError::ValueContainsRawNewline { name: name.to_owned() },
            ),
            Some(HeaderDefect::ValueContainsControlCharacter) => Err(
                HeaderValidationError::ValueContainsControlCharacter { name: name.to_owned() },
            ),
        }
    }
}

// ---------------------------------------------------------------------------
// Attachments
// ---------------------------------------------------------------------------

/// An opaque attachment reference, resolved before delivery.
#[derive(Debug, PartialEq, Eq, Hash)]
pub struct AttachmentReference {
    uri: String,
}

impl View for AttachmentReference {
    type V = Seq<char>;

    closed spec fn view(&self) -> Seq<char> {
        self.uri@
    }
}

impl Clone for AttachmentReference {
    fn clone(&self) -> (r: Self)
        ensures
            r@ == self@,
    {
        AttachmentReference { uri: self.uri.clone() }
    }
}

impl AttachmentReference {
    pub fn new(uri: &str) -> (r: AttachmentReference)
        ensures
            r@ == uri@,
    {
        AttachmentReference { uri: uri.to_owned() }
    }

    pub fn uri(&self) -> (r: &str)
        ensures
            r@ == self@,
    {
        self.uri.as_str()
    }

    /// The reference string (same as `uri`).
    pub fn as_str(&self) -> (r: &str)
        ensures
            r@ == self@,
    {
        self.uri.as_str()
    }
}

/// Attachment content: bytes or an unresolved reference.
#[derive(Debug, PartialEq, Eq)]
pub enum AttachmentBody {
    Bytes(Vec<u8>),
    Reference(AttachmentReference),
}

pub enum AttachmentBodyView {
    Bytes(Seq<u8>),
    Reference(Seq<char>),
}

impl View for AttachmentBody {
    type V = AttachmentBodyView;

    open spec fn view(&self) -> AttachmentBodyView {
        match self {
            AttachmentBody::Bytes(b) => AttachmentBodyView::Bytes(b@),
            AttachmentBody::Reference(r) => AttachmentBodyView::Reference(r@),
        }
    }
}

impl Clone for AttachmentBody {
    fn clone(&self) -> (r: Self)
        ensures
            r@ == self@,
    {
        match self {
            AttachmentBody::Bytes(b) => AttachmentBody::Bytes(b.clone()),
            AttachmentBody::Reference(r) => AttachmentBody::Reference(r.clone()),
        }
    }
}

/// How an attachment should be presented (RFC 2183).
#[derive(Clone, Copy, Debug, PartialEq, Eq, Hash)]
pub enum Disposition {
    Attachment,
    Inline,
}

impl Default for Disposition {
    /// An attachment is shown as an attachment unless it says otherwise.
    fn default() -> (r: Disposition)
        ensures
            r == Disposition::Attachment,
    {
        Disposition::Attachment
    }
}

impl Disposition {
    pub fn is_inline(&self) -> (r: bool)
        ensures
            r == (*self is Inline),
    {
        match self {
            Disposition::Inline => true,
            Disposition::Attachment => false,
        }
    }
}

/// An attachment as plain values.
pub struct AttachmentView {
    pub filename: Option<Seq<char>>,
    pub content_type: Seq<char>,
    pub content_id: Option<Seq<char>>,
    pub disposition: Disposition,
    pub body: AttachmentBodyView,
}

/// A message attachment.
#[derive(Debug, PartialEq, Eq)]
pub struct Attachment {
    filename: Option<String>,
    content_type: ContentType,
    content_id: Option<String>,
    disposition: Disposition,
    body: AttachmentBody,
}

impl View for Attachment {
    type V = AttachmentView;

    closed spec fn view(&self) -> AttachmentView {
        AttachmentView {
            filename: opt_view(self.filename),
            content_type: self.content_type@,
            content_id: opt_view(self.content_id),
            disposition: self.disposition,
            body: self.body@,
        }
    }
}

pub open spec fn attachment_views(a: Seq<Attachment>) -> Seq<AttachmentView> {
    Seq::new(a.len(), |i: int| a[i]@)
}

impl Clone for Attachment {
    fn clone(&self) -> (r: Self)
        ensures
            r@ == self@,
    {
        Attachment {
            filename: clone_opt_string_ref(&self.filename),
            content_type: clone_content_type(&self.content_type),
            content_id: clone_opt_string_ref(&self.content_id),
            disposition: self.disposition,
            body: self.body.clone(),
        }
    }
}

pub fn clone_content_type(ct: &ContentType) -> (r: ContentType)
    ensures
        r@ == ct@,
{
    ct.duplicate()
}

impl Attachment {
    /// An attachment with no filename or content id, shown as an attachment.
    pub fn new(content_type: ContentType, body: AttachmentBody) -> (r: Attachment)
        ensures
            r@ == (AttachmentView {
                filename: None,
                content_type: content_type@,
                content_id: None,
                disposition: Disposition::Attachment,
                body: body@,
            }),
    {
        Attachment { filename: None, content_type, content_id: None, disposition: Disposition::Attachment, body }
    }

    pub fn bytes(content_type: ContentType, bytes: Vec<u8>) -> (r: Attachment)
        ensures
            r@ == (AttachmentView {
                filename: None,
                content_type: content_type@,
                content_id: None,
                disposition: Disposition::Attachment,
                body: AttachmentBodyView::Bytes(bytes@),
            }),
    {
        Self::new(content_type, AttachmentBody::Bytes(bytes))
    }

    pub fn reference(content_type: ContentType, reference: AttachmentReference) -> (r: Attachment)
        ensures
            r@ == (AttachmentView {
                filename: None,
                content_type: content_type@,
                content_id: None,
                disposition: Disposition::Attachment,
                body: AttachmentBodyView::Reference(reference@),
            }),
    {
        Self::new(content_type, AttachmentBody::Reference(reference))
    }

    pub fn filename(&self) -> (r: Option<&str>)
        ensures
            match r {
                Some(f) => self@.filename == Some(f@),
                None => self@.filename is None,
            },
    {
        match &self.filename {
            Some(f) => Some(f.as_str()),
            None => None,
        }
    }

    pub fn content_type(&self) -> (r: &ContentType)
        ensures
            r@ == self@.content_type,
    {
        &self.content_type
    }

    pub fn content_id(&self) -> (r: Option<&str>)
        ensures
            match r {
                Some(f) => self@.content_id == Some(f@),
                None => self@.content_id is None,
            },
    {
        match &self.content_id {
            Some(f) => Some(f.as_str()),
            None => None,
        }
    }

    pub fn disposition(&self) -> (r: Disposition)
        ensures
            r == self@.disposition,
    {
        self.disposition
    }

    pub fn is_inline(&self) -> (r: bool)
        ensures
            r == (self@.disposition is Inline),
    {
        self.disposition.is_inline()
    }

    pub fn body(&self) -> (r: &AttachmentBody)
        ensures
            r@ == self@.body,
    {
        &self.body
    }

    pub fn set_body(&mut self, body: AttachmentBody)
        ensures
            final(self)@ == (AttachmentView { body: body@, ..old(self)@ }),
    {
        self.body = body;
    }

    pub fn with_body(self, body: AttachmentBody) -> (r: Attachment)
        ensures
            r@ == (AttachmentView { body: body@, ..self@ }),
    {
        let mut s = self;
        s.body = body;
        s
    }

    pub fn with_filename(self, filename: &str) -> (r: Attachment)
        ensures
            r@ == (AttachmentView { filename: Some(filename@), ..self@ }),
    {
        let mut s = self;
        s.filename = Some(filename.to_owned());
        s
    }

    pub fn with_content_id(self, content_id: &str) -> (r: Attachment)
        ensures
            r@ == (AttachmentView { content_id: Some(content_id@), ..self@ }),
    {
        let mut s = self;
        s.content_id = Some(content_id.to_owned());
        s
    }

    pub fn with_disposition(self, disposition: Disposition) -> (r: Attachment)
        ensures
            r@ == (AttachmentView { disposition, ..self@ }),
    {
        let mut s = self;
        s.disposition = disposition;
        s
    }
}

// ---------------------------------------------------------------------------
// Body
// ---------------------------------------------------------------------------

/// Message body payload.
#[derive(Debug, PartialEq, Eq)]
pub enum Body {
    Text(String),
    Html(String),
    TextAndHtml { text: String, html: String },
    Mime(MimePart),
}

impl Clone for Body {
    fn clone(&self) -> (r: Self)
        ensures
            body_view(r) == body_view(*self),
    {
        match self {
            Body::Text(t) => Body::Text(t.clone()),
            Body::Html(h) => Body::Html(h.clone()),
            Body::TextAndHtml { text, html } => Body::TextAndHtml { text: text.clone(), html: html.clone() },
            Body::Mime(m) => Body::Mime(m.deep_clone()),
        }
    }
}

impl Body {
    pub fn text(value: &str) -> (r: Body)
        ensures
            r matches Body::Text(t) && t@ == value@,
    {
        Body::Text(value.to_owned())
    }

    pub fn html(value: &str) -> (r: Body)
        ensures
            r matches Body::Html(h) && h@ == value@,
    {
        Body::Html(value.to_owned())
    }

    pub fn text_and_html(text: &str, html: &str) -> (r: Body)
        ensures
            r matches Body::TextAndHtml { text: t, html: h } && t@ == text@ && h@ == html@,
    {
        Body::TextAndHtml { text: text.to_owned(), html: html.to_owned() }
    }
}

// ---------------------------------------------------------------------------
// Date
// ---------------------------------------------------------------------------

/// A point in time with a UTC offset: seconds since the Unix epoch, the
/// sub-second nanoseconds, and the offset east of UTC in seconds.
#[derive(Clone, Copy, Debug, PartialEq, Eq, Hash)]
pub struct DateTime {
    pub unix_timestamp: i64,
    pub nanosecond: u32,
    pub offset_seconds: i32,
}


// ---------------------------------------------------------------------------
// Message
// ---------------------------------------------------------------------------

/// A message body as plain values (MIME trees are carried as they are).
pub enum BodyView {
    Text(Seq<char>),
    Html(Seq<char>),
    TextAndHtml(Seq<char>, Seq<char>),
    Mime(MimePartView),
}

pub open spec fn body_view(b: Body) -> BodyView {
    match b {
        Body::Text(t) => BodyView::Text(t@),
        Body::Html(h) => BodyView::Html(h@),
        Body::TextAndHtml { text, html } => BodyView::TextAndHtml(text@, html@),
        Body::Mime(m) => BodyView::Mime(mime_view(m)),
    }
}

pub open spec fn opt_mailbox_view(o: Option<Mailbox>) -> Option<MailboxView> {
    match o {
        Some(m) => Some(m@),
        None => None,
    }
}

pub open spec fn opt_message_id_view(o: Option<MessageId>) -> Option<Seq<char>> {
    match o {
        Some(m) => Some(m@),
        None => None,
    }
}

/// A message as plain values.
pub struct MessageView {
    pub from: Option<MailboxView>,
    pub sender: Option<MailboxView>,
    pub to: Seq<AddressView>,
    pub cc: Seq<AddressView>,
    pub bcc: Seq<AddressView>,
    pub reply_to: Seq<AddressView>,
    pub subject: Option<Seq<char>>,
    pub date: Option<DateTime>,
    pub message_id: Option<Seq<char>>,
    pub headers: Seq<(Seq<char>, Seq<char>)>,
    pub body: BodyView,
    pub attachments: Seq<AttachmentView>,
}

/// Parsed message content and headers.
#[derive(Debug, PartialEq, Eq)]
pub struct Message {
    from: Option<Mailbox>,
    sender: Option<Mailbox>,
    to: Vec<Address>,
    cc: Vec<Address>,
    bcc: Vec<Address>,
    reply_to: Vec<Address>,
    subject: Option<String>,
    date: Option<DateTime>,
    message_id: Option<MessageId>,
    headers: Vec<Header>,
    body: Body,
    attachments: Vec<Attachment>,
}

impl View for Message {
    type V = MessageView;

    closed spec fn view(&self) -> MessageView {
        MessageView {
            from: opt_mailbox_view(self.from),
            sender: opt_mailbox_view(self.sender),
            to: address_views(self.to@),
            cc: address_views(self.cc@),
            bcc: address_views(self.bcc@),
            reply_to: address_views(self.reply_to@),
            subject: opt_view(self.subject),
            date: self.date,
            message_id: opt_message_id_view(self.message_id),
            headers: header_views(self.headers@),
            body: body_view(self.body),
            attachments: attachment_views(self.attachments@),
        }
    }
}

pub proof fn lemma_empty_views()
    ensures
        address_views(Seq::<Address>::empty()) == Seq::<AddressView>::empty(),
        header_views(Seq::<Header>::empty()) == Seq::<(Seq<char>, Seq<char>)>::empty(),
        attachment_views(Seq::<Attachment>::empty()) == Seq::<AttachmentView>::empty(),
        email_views(Seq::<EmailAddress>::empty()) == Seq::<Seq<char>>::empty(),
{
    assert(address_views(Seq::<Address>::empty()) =~= Seq::<AddressView>::empty());
    assert(header_views(Seq::<Header>::empty()) =~= Seq::<(Seq<char>, Seq<char>)>::empty());
    assert(attachment_views(Seq::<Attachment>::empty()) =~= Seq::<AttachmentView>::empty());
    assert(email_views(Seq::<EmailAddress>::empty()) =~= Seq::<Seq<char>>::empty());
}

/// A message with no fields set but the body.
pub open spec fn empty_message_view(body: BodyView) -> MessageView {
    MessageView {
        from: None,
        sender: None,
        to: seq![],
        cc: seq![],
        bcc: seq![],
        reply_to: seq![],
        subject: None,
        date: None,
        message_id: None,
        headers: seq![],
        body,
        attachments: seq![],
    }
}

// ---------------------------------------------------------------------------
// Validation
// ---------------------------------------------------------------------------

/// Why a message fails outbound validation, as plain values.
pub enum ValidationDefect {
    MissingFrom,
    SenderWithoutFrom,
    MissingRecipients,
    ReservedHeaderName(Seq<char>),
    SubjectContainsInvalidChars,
    MailboxDisplayNameContainsInvalidChars(Seq<char>),
    AttachmentMetadataContainsInvalidChars(Seq<char>),
}

/// Reasons a message failed `Message::validate_basic`.
#[derive(Clone, Debug, PartialEq, Eq)]
pub enum MessageValidationError {
    MissingFrom,
    SenderWithoutFrom,
    MissingRecipients,
    ReservedHeaderName { name: String },
    SubjectContainsInvalidChars,
    MailboxDisplayNameContainsInvalidChars { location: &'static str },
    AttachmentMetadataContainsInvalidChars { field: &'static str },
}

pub open spec fn validation_reported(e: MessageValidationError, d: ValidationDefect) -> bool {
    match d {
        ValidationDefect::MissingFrom => e is MissingFrom,
        ValidationDefect::SenderWithoutFrom => e is SenderWithoutFrom,
        ValidationDefect::MissingRecipients => e is MissingRecipients,
        ValidationDefect::ReservedHeaderName(n) => e matches MessageValidationError::ReservedHeaderName { name }
            && name@ == n,
        ValidationDefect::SubjectContainsInvalidChars => e is SubjectContainsInvalidChars,
        ValidationDefect::MailboxDisplayNameContainsInvalidChars(l) =>
            e matches MessageValidationError::MailboxDisplayNameContainsInvalidChars { location } && location@ == l,
        ValidationDefect::AttachmentMetadataContainsInvalidChars(f) =>
            e matches MessageValidationError::AttachmentMetadataContainsInvalidChars { field } && field@ == f,
    }
}

/// The header names reserved for typed fields (compared ignoring ASCII case).
pub open spec fn is_reserved_name(n: Seq<char>) -> bool {
    eq_ignore_case(n, "from"@) || eq_ignore_case(n, "sender"@) || eq_ignore_case(n, "reply-to"@) || eq_ignore_case(
        n,
        "to"@,
    ) || eq_ignore_case(n, "cc"@) || eq_ignore_case(n, "bcc"@) || eq_ignore_case(n, "date"@) || eq_ignore_case(
        n,
        "subject"@,
    ) || eq_ignore_case(n, "message-id"@)
}

/// Index of the first header with a reserved name.
pub open spec fn first_reserved(h: Seq<(Seq<char>, Seq<char>)>, i: int) -> Option<int>
    decreases h.len() - i,
{
    if i >= h.len() {
        None
    } else if is_reserved_name(h[i].0) {
        Some(i)
    } else {
        first_reserved(h, i + 1)
    }
}

pub open spec fn mailbox_name_unsafe(m: MailboxView) -> bool {
    m.name matches Some(n) && has_unsafe_char(n)
}

pub open spec fn address_name_unsafe(a: AddressView) -> bool {
    match a {
        AddressView::Mailbox(m) => mailbox_name_unsafe(m),
        AddressView::Group(n, ms) => {
            ||| has_unsafe_char(n)
            ||| exists|k: int| 0 <= k < ms.len() && mailbox_name_unsafe(#[trigger] ms[k])
        },
    }
}

pub proof fn lemma_member_unsafe(n: Seq<char>, ms: Seq<MailboxView>, i: int)
    requires
        0 <= i < ms.len(),
        mailbox_name_unsafe(ms[i]),
    ensures
        address_name_unsafe(AddressView::Group(n, ms)),
{
    let a = AddressView::Group(n, ms);
    assert(a is Group);
    assert(a->Group_1 == ms);
    assert(exists|k: int| 0 <= k < ms.len() && mailbox_name_unsafe(#[trigger] ms[k]));
    assert(exists|k: int| 0 <= k < a->Group_1.len() && mailbox_name_unsafe(#[trigger] a->Group_1[k]));
}

pub open spec fn list_name_unsafe(a: Seq<AddressView>) -> bool {
    exists|k: int| 0 <= k < a.len() && address_name_unsafe(#[trigger] a[k])
}

/// The field of the first attachment with unsafe metadata: its filename is
/// checked before its content id.
pub open spec fn attachment_defect(a: Seq<AttachmentView>, i: int) -> Option<Seq<char>>
    decreases a.len() - i,
{
    if i >= a.len() {
        None
    } else if a[i].filename matches Some(f) && has_unsafe_char(f) {
        Some("filename"@)
    } else if a[i].content_id matches Some(c) && has_unsafe_char(c) {
        Some("content-id"@)
    } else {
        attachment_defect(a, i + 1)
    }
}

/// The first validation failure of a message, in the order they are checked.
pub open spec fn validation_defect(m: MessageView) -> Option<ValidationDefect> {
    if m.sender is Some && m.from is None {
        Some(ValidationDefect::SenderWithoutFrom)
    } else if m.from is None {
        Some(ValidationDefect::MissingFrom)
    } else if m.to.len() == 0 && m.cc.len() == 0 && m.bcc.len() == 0 {
        Some(ValidationDefect::MissingRecipients)
    } else if m.subject matches Some(s) && has_unsafe_char(s) {
        Some(ValidationDefect::SubjectContainsInvalidChars)
    } else if first_reserved(m.headers, 0) is Some {
        Some(ValidationDefect::ReservedHeaderName(m.headers[first_reserved(m.headers, 0)->0].0))
    } else if m.from matches Some(f) && mailbox_name_unsafe(f) {
        Some(ValidationDefect::MailboxDisplayNameContainsInvalidChars("from"@))
    } else if m.sender matches Some(s) && mailbox_name_unsafe(s) {
        Some(ValidationDefect::MailboxDisplayNameContainsInvalidChars("sender"@))
    } else if list_name_unsafe(m.to) {
        Some(ValidationDefect::MailboxDisplayNameContainsInvalidChars("to"@))
    } else if list_name_unsafe(m.cc) {
        Some(ValidationDefect::MailboxDisplayNameContainsInvalidChars("cc"@))
    } else if list_name_unsafe(m.bcc) {
        Some(ValidationDefect::MailboxDisplayNameContainsInvalidChars("bcc"@))
    } else if list_name_unsafe(m.reply_to) {
        Some(ValidationDefect::MailboxDisplayNameContainsInvalidChars("reply-to"@))
    } else {
        match attachment_defect(m.attachments, 0) {
            Some(f) => Some(ValidationDefect::AttachmentMetadataContainsInvalidChars(f)),
            None => None,
        }
    }
}

/// Whether a value holds CR, LF, or a non-tab ASCII control character.
pub fn contains_header_unsafe_chars(value: &str) -> (r: bool)
    ensures
        r == has_unsafe_char(value@),
{
    let v = str_chars(value);
    let mut i: usize = 0;
    while i < v.len()
        invariant
            i <= v@.len(),
            v@ == value@,
            forall|j: int| 0 <= j < i ==> !is_header_unsafe_char(#[trigger] v@[j]),
        decreases v@.len() - i,
    {
        let c = v[i];
        if c == '\r' || c == '\n' || (c != '\t' && ((c as u32) < 0x20 || (c as u32) == 0x7f)) {
            assert(is_header_unsafe_char(v@[i as int]));
            return true;
        }
        i = i + 1;
    }
    false
}

fn mailbox_unsafe(m: &Mailbox) -> (r: bool)
    ensures
        r == mailbox_name_unsafe(m@),
{
    match m.name() {
        Some(n) => contains_header_unsafe_chars(n),
        None => false,
    }
}

#[verifier::loop_isolation(false)]
fn address_unsafe(a: &Address) -> (r: bool)
    ensures
        r == address_name_unsafe(a@),
{
    match a {
        Address::Mailbox(m) => mailbox_unsafe(m),
        Address::Group(g) => {
            if contains_header_unsafe_chars(g.name()) {
                return true;
            }
            let members = g.members();
            let ghost mv = crate::address::mailbox_views(members@);
            let mut i: usize = 0;
            while i < members.len()
                invariant
                    i <= members@.len(),
                    mv == crate::address::mailbox_views(members@),
                    forall|k: int| 0 <= k < i ==> !mailbox_name_unsafe(#[trigger] mv[k]),
                decreases members@.len() - i,
            {
                if mailbox_unsafe(&members[i]) {
                    assert(mailbox_name_unsafe(mv[i as int]));
                    assert(a@ == AddressView::Group(g@.0, g@.1));
                    assert(g@.1 == mv);
                    assert(mailbox_name_unsafe(g@.1[i as int]));
                    assert(0 <= i < g@.1.len());
                    proof {
                        lemma_member_unsafe(g@.0, g@.1, i as int);
                    }
                    return true;
                }
                i = i + 1;
            }
            false
        },
    }
}

/// `Err` when a mailbox of `addresses` (group names and members included)
/// has a display name with CR, LF, or a non-tab control character.
fn validate_address_mailboxes(addresses: &Vec<Address>, location: &'static str) -> (r: Result<(), MessageValidationError>)
    ensures
        r is Ok <==> !list_name_unsafe(address_views(addresses@)),
        r matches Err(e) ==> e matches MessageValidationError::MailboxDisplayNameContainsInvalidChars { location: l }
            && l@ == location@,
{
    let ghost av = address_views(addresses@);
    let mut i: usize = 0;
    while i < addresses.len()
        invariant
            i <= addresses@.len(),
            av == address_views(addresses@),
            forall|k: int| 0 <= k < i ==> !address_name_unsafe(#[trigger] av[k]),
        decreases addresses@.len() - i,
    {
        if address_unsafe(&addresses[i]) {
            assert(address_name_unsafe(av[i as int]));
            return Err(MessageValidationError::MailboxDisplayNameContainsInvalidChars { location });
        }
        i = i + 1;
    }
    Ok(())
}

fn validate_mailbox_display_name(mailbox: &Option<Mailbox>, location: &'static str) -> (r: Result<(), MessageValidationError>)
    ensures
        r is Ok <==> !(opt_mailbox_view(*mailbox) matches Some(m) && mailbox_name_unsafe(m)),
        r matches Err(e) ==> e matches MessageValidationError::MailboxDisplayNameContainsInvalidChars { location: l }
            && l@ == location@,
{
    if let Some(m) = mailbox {
        if mailbox_unsafe(m) {
            return Err(MessageValidationError::MailboxDisplayNameContainsInvalidChars { location });
        }
    }
    Ok(())
}

/// Whether `name` is one of the reserved header names.
pub fn is_reserved_header_name(name: &str) -> (r: bool)
    ensures
        r == is_reserved_name(name@),
{
    str_eq_ignore_case(name, "from") || str_eq_ignore_case(name, "sender") || str_eq_ignore_case(name, "reply-to")
        || str_eq_ignore_case(name, "to") || str_eq_ignore_case(name, "cc") || str_eq_ignore_case(name, "bcc")
        || str_eq_ignore_case(name, "date") || str_eq_ignore_case(name, "subject") || str_eq_ignore_case(
        name,
        "message-id",
    )
}

/// Email addresses of the mailboxes of address items, in order (groups
/// expand to their members).
pub open spec fn recipient_emails(a: Seq<AddressView>) -> Seq<Seq<char>>
    decreases a.len(),
{
    if a.len() == 0 {
        seq![]
    } else {
        recipient_emails(a.drop_last()) + Seq::new(
            item_mailboxes(a.last()).len(),
            |k: int| item_mailboxes(a.last())[k].email,
        )
    }
}

/// The mailboxes of the items before `i` and of item `i` are among all of
/// them.
pub proof fn lemma_total_prefix(a: Seq<AddressView>, i: int)
    requires
        0 <= i < a.len(),
    ensures
        crate::address::mailbox_total(a.take(i)) + item_mailboxes(a[i]).len() <= crate::address::mailbox_total(a),
    decreases a.len(),
{
    let p = a.drop_last();
    if i == a.len() - 1 {
        assert(a.take(i) =~= p);
    } else {
        lemma_total_prefix(p, i);
        assert(a.take(i) =~= p.take(i));
        assert(a[i] == p[i]);
    }
}

/// Every mailbox of every address item is one recipient, in order: the
/// list is as long as the items hold mailboxes, and the `k`-th mailbox of
/// the `i`-th item stands after the mailboxes of the items before it.
pub proof fn law_recipient_emails(a: Seq<AddressView>)
    ensures
        recipient_emails(a).len() == crate::address::mailbox_total(a),
        forall|i: int, k: int|
            0 <= i < a.len() && 0 <= k < item_mailboxes(a[i]).len() ==> recipient_emails(a)[crate::address::mailbox_total(
                a.take(i),
            ) + k] == (#[trigger] item_mailboxes(a[i])[k]).email,
    decreases a.len(),
{
    if a.len() > 0 {
        let p = a.drop_last();
        law_recipient_emails(p);
        assert forall|i: int, k: int|
            0 <= i < a.len() && 0 <= k < item_mailboxes(a[i]).len() implies recipient_emails(
            a,
        )[crate::address::mailbox_total(a.take(i)) + k] == (#[trigger] item_mailboxes(a[i])[k]).email by {
            let last = Seq::new(item_mailboxes(a.last()).len(), |k: int| item_mailboxes(a.last())[k].email);
            assert(recipient_emails(a) == recipient_emails(p) + last);
            if i < a.len() - 1 {
                assert(a.take(i) =~= p.take(i));
                assert(a[i] == p[i]);
                lemma_total_prefix(p, i);
                assert(item_mailboxes(p[i])[k] == item_mailboxes(a[i])[k]);
                let j = crate::address::mailbox_total(p.take(i)) + k;
                assert(recipient_emails(p)[j] == item_mailboxes(p[i])[k].email);
                assert((recipient_emails(p) + last)[j] == recipient_emails(p)[j]);
            } else {
                assert(a.take(i) =~= p);
                assert((recipient_emails(p) + last)[crate::address::mailbox_total(p) + k] == last[k]);
            }
        }
    }
}

/// Every mailbox of an address list occurs among its recipients.
pub proof fn lemma_recipient_contains(a: Seq<AddressView>, i: int, k: int)
    requires
        0 <= i < a.len(),
        0 <= k < item_mailboxes(a[i]).len(),
    ensures
        recipient_emails(a).contains(item_mailboxes(a[i])[k].email),
{
    law_recipient_emails(a);
    lemma_total_prefix(a, i);
    assert(item_mailboxes(a[i])[k].email == recipient_emails(a)[crate::address::mailbox_total(a.take(i)) + k]);
}

/// The envelope's recipients: one entry per mailbox of `To`, `Cc` and
/// `Bcc`, each mailbox of each of them among them.
pub proof fn law_envelope_recipients(m: MessageView)
    ensures
        (recipient_emails(m.to) + recipient_emails(m.cc) + recipient_emails(m.bcc)).len() == crate::address::mailbox_total(
            m.to,
        ) + crate::address::mailbox_total(m.cc) + crate::address::mailbox_total(m.bcc),
        forall|i: int, k: int|
            0 <= i < m.to.len() && 0 <= k < item_mailboxes(m.to[i]).len() ==> (recipient_emails(m.to) + recipient_emails(
                m.cc,
            ) + recipient_emails(m.bcc)).contains((#[trigger] item_mailboxes(m.to[i])[k]).email),
        forall|i: int, k: int|
            0 <= i < m.cc.len() && 0 <= k < item_mailboxes(m.cc[i]).len() ==> (recipient_emails(m.to) + recipient_emails(
                m.cc,
            ) + recipient_emails(m.bcc)).contains((#[trigger] item_mailboxes(m.cc[i])[k]).email),
        forall|i: int, k: int|
            0 <= i < m.bcc.len() && 0 <= k < item_mailboxes(m.bcc[i]).len() ==> (recipient_emails(m.to)
                + recipient_emails(m.cc) + recipient_emails(m.bcc)).contains((#[trigger] item_mailboxes(m.bcc[i])[k]).email),
{
    let t = recipient_emails(m.to);
    let c = recipient_emails(m.cc);
    let b = recipient_emails(m.bcc);
    law_recipient_emails(m.to);
    law_recipient_emails(m.cc);
    law_recipient_emails(m.bcc);
    let all = t + c + b;
    assert forall|i: int, k: int| 0 <= i < m.to.len() && 0 <= k < item_mailboxes(m.to[i]).len() implies all.contains(
        (#[trigger] item_mailboxes(m.to[i])[k]).email,
    ) by {
        let j = crate::address::mailbox_total(m.to.take(i)) + k;
        lemma_total_prefix(m.to, i);
        assert(all[j] == t[j]);
    }
    assert forall|i: int, k: int| 0 <= i < m.cc.len() && 0 <= k < item_mailboxes(m.cc[i]).len() implies all.contains(
        (#[trigger] item_mailboxes(m.cc[i])[k]).email,
    ) by {
        let j = crate::address::mailbox_total(m.cc.take(i)) + k;
        lemma_total_prefix(m.cc, i);
        assert(all[t.len() + j] == c[j]);
    }
    assert forall|i: int, k: int| 0 <= i < m.bcc.len() && 0 <= k < item_mailboxes(m.bcc[i]).len() implies all.contains(
        (#[trigger] item_mailboxes(m.bcc[i])[k]).email,
    ) by {
        let j = crate::address::mailbox_total(m.bcc.take(i)) + k;
        lemma_total_prefix(m.bcc, i);
        assert(all[t.len() + c.len() + j] == b[j]);
    }
}

fn extend_recipient_emails(out: &mut Vec<EmailAddress>, addresses: &Vec<Address>)
    ensures
        email_views(final(out)@) == email_views(old(out)@) + recipient_emails(address_views(addresses@)),
{
    let ghost av = address_views(addresses@);
    let mut i: usize = 0;
    while i < addresses.len()
        invariant
            i <= addresses@.len(),
            av == address_views(addresses@),
            email_views(out@) == email_views(old(out)@) + recipient_emails(av.subrange(0, i as int)),
        decreases addresses@.len() - i,
    {
        let ms = addresses[i].mailboxes();
        let ghost im = item_mailboxes(av[i as int]);
        let ghost before = email_views(out@);
        let mut j: usize = 0;
        while j < ms.len()
            invariant
                j <= ms@.len(),
                ms@.len() == im.len(),
                forall|k: int| 0 <= k < ms@.len() ==> (#[trigger] ms@[k])@ == im[k],
                email_views(out@) == before + Seq::new(j as nat, |k: int| im[k].email),
            decreases ms@.len() - j,
        {
            let e = ms[j].email().clone();
            let ghost prev = out@;
            out.push(e);
            assert(email_views(out@) =~= before + Seq::new((j + 1) as nat, |k: int| im[k].email)) by {
                assert(email_views(out@) =~= email_views(prev).push(e@));
            }
            j = j + 1;
        }
        proof {
            let pre = av.subrange(0, i + 1);
            assert(pre.drop_last() =~= av.subrange(0, i as int));
            assert(pre.last() == av[i as int]);
            assert(email_views(out@) =~= email_views(old(out)@) + recipient_emails(pre));
        }
        i = i + 1;
    }
    assert(av.subrange(0, av.len() as int) =~= av);
}

/// The envelope sender: the `Sender` mailbox, else the `From` mailbox.
pub open spec fn envelope_sender(m: MessageView) -> Option<Seq<char>> {
    match m.sender {
        Some(s) => Some(s.email),
        None => match m.from {
            Some(f) => Some(f.email),
            None => None,
        },
    }
}

impl Message {
    /// A message with `From`, `To` and body set.
    pub fn new(from: Mailbox, to: Vec<Address>, body: Body) -> (r: Message)
        ensures
            r@ == (MessageView { from: Some(from@), to: address_views(to@), ..empty_message_view(body_view(body)) }),
    {
        proof {
            lemma_empty_views();
        }
        Message {
            from: Some(from),
            sender: None,
            to,
            cc: Vec::new(),
            bcc: Vec::new(),
            reply_to: Vec::new(),
            subject: None,
            date: None,
            message_id: None,
            headers: Vec::new(),
            body,
            attachments: Vec::new(),
        }
    }

    /// A builder for incrementally constructing messages.
    pub fn builder(body: Body) -> (r: MessageBuilder)
        ensures
            r@ == empty_message_view(body_view(body)),
    {
        MessageBuilder::new(body)
    }

    pub fn from_mailbox(&self) -> (r: Option<&Mailbox>)
        ensures
            match r {
                Some(m) => self@.from == Some(m@),
                None => self@.from is None,
            },
    {
        match &self.from {
            Some(m) => Some(m),
            None => None,
        }
    }

    pub fn sender(&self) -> (r: Option<&Mailbox>)
        ensures
            match r {
                Some(m) => self@.sender == Some(m@),
                None => self@.sender is None,
            },
    {
        match &self.sender {
            Some(m) => Some(m),
            None => None,
        }
    }

    pub fn to(&self) -> (r: &[Address])
        ensures
            address_views(r@) == self@.to,
    {
        self.to.as_slice()
    }

    pub fn cc(&self) -> (r: &[Address])
        ensures
            address_views(r@) == self@.cc,
    {
        self.cc.as_slice()
    }

    pub fn bcc(&self) -> (r: &[Address])
        ensures
            address_views(r@) == self@.bcc,
    {
        self.bcc.as_slice()
    }

    pub fn reply_to(&self) -> (r: &[Address])
        ensures
            address_views(r@) == self@.reply_to,
    {
        self.reply_to.as_slice()
    }

    pub fn subject(&self) -> (r: Option<&str>)
        ensures
            match r {
                Some(s) => self@.subject == Some(s@),
                None => self@.subject is None,
            },
    {
        match &self.subject {
            Some(s) => Some(s.as_str()),
            None => None,
        }
    }

    pub fn date(&self) -> (r: Option<&DateTime>)
        ensures
            match r {
                Some(d) => self@.date == Some(*d),
                None => self@.date is None,
            },
    {
        match &self.date {
            Some(d) => Some(d),
            None => None,
        }
    }

    pub fn message_id(&self) -> (r: Option<&MessageId>)
        ensures
            match r {
                Some(m) => self@.message_id == Some(m@),
                None => self@.message_id is None,
            },
    {
        match &self.message_id {
            Some(m) => Some(m),
            None => None,
        }
    }

    pub fn headers(&self) -> (r: &[Header])
        ensures
            header_views(r@) == self@.headers,
    {
        self.headers.as_slice()
    }

    pub fn body(&self) -> (r: &Body)
        ensures
            body_view(*r) == self@.body,
    {
        &self.body
    }

    pub fn attachments(&self) -> (r: &[Attachment])
        ensures
            attachment_views(r@) == self@.attachments,
    {
        self.attachments.as_slice()
    }

    /// Replaces the attachments.
    pub fn with_attachments(self, attachments: Vec<Attachment>) -> (r: Message)
        ensures
            r@ == (MessageView { attachments: attachment_views(attachments@), ..self@ }),
    {
        let mut s = self;
        s.attachments = attachments;
        s
    }

    /// Splits the message into an attachment-free message and its
    /// attachments.
    pub fn into_attachments(self) -> (r: (Message, Vec<Attachment>))
        ensures
            r.0@ == (MessageView { attachments: seq![], ..self@ }),
            attachment_views(r.1@) == self@.attachments,
    {
        let mut s = self;
        let mut attachments: Vec<Attachment> = Vec::new();
        std::mem::swap(&mut attachments, &mut s.attachments);
        proof {
            lemma_empty_views();
        }
        (s, attachments)
    }

    /// Checks the baseline outbound invariants: `From` present, no `Sender`
    /// without `From`, at least one `To`/`Cc`/`Bcc` recipient, no CR, LF or
    /// non-tab control characters in the subject, display names, or
    /// attachment filename and content id, and no custom header shadowing a
    /// typed field.
    #[verifier::loop_isolation(false)]
    pub fn validate_basic(&self) -> (r: Result<(), MessageValidationError>)
        ensures
            match validation_defect(self@) {
                None => r is Ok,
                Some(d) => r matches Err(e) && validation_reported(e, d),
            },
    {
        if self.sender.is_some() && self.from.is_none() {
            return Err(MessageValidationError::SenderWithoutFrom);
        }
        if self.from.is_none() {
            return Err(MessageValidationError::MissingFrom);
        }
        if self.to.len() == 0 && self.cc.len() == 0 && self.bcc.len() == 0 {
            return Err(MessageValidationError::MissingRecipients);
        }
        if let Some(subject) = &self.subject {
            if contains_header_unsafe_chars(subject.as_str()) {
                return Err(MessageValidationError::SubjectContainsInvalidChars);
            }
        }
        let ghost hv = header_views(self.headers@);
        let mut i: usize = 0;
        while i < self.headers.len()
            invariant
                i <= self.headers@.len(),
                hv == header_views(self.headers@),
                first_reserved(hv, i as int) == first_reserved(hv, 0),
            decreases self.headers@.len() - i,
        {
            if is_reserved_header_name(self.headers[i].name()) {
                return Err(MessageValidationError::ReservedHeaderName { name: self.headers[i].name().to_owned() });
            }
            i = i + 1;
        }
        validate_mailbox_display_name(&self.from, "from")?;
        validate_mailbox_display_name(&self.sender, "sender")?;
        validate_address_mailboxes(&self.to, "to")?;
        validate_address_mailboxes(&self.cc, "cc")?;
        validate_address_mailboxes(&self.bcc, "bcc")?;
        validate_address_mailboxes(&self.reply_to, "reply-to")?;
        let ghost atv = attachment_views(self.attachments@);
        let mut j: usize = 0;
        while j < self.attachments.len()
            invariant
                j <= self.attachments@.len(),
                atv == attachment_views(self.attachments@),
                attachment_defect(atv, j as int) == attachment_defect(atv, 0),
            decreases self.attachments@.len() - j,
        {
            let a = &self.attachments[j];
            if let Some(f) = a.filename() {
                if contains_header_unsafe_chars(f) {
                    return Err(MessageValidationError::AttachmentMetadataContainsInvalidChars { field: "filename" });
                }
            }
            if let Some(c) = a.content_id() {
                if contains_header_unsafe_chars(c) {
                    return Err(MessageValidationError::AttachmentMetadataContainsInvalidChars { field: "content-id" });
                }
            }
            j = j + 1;
        }
        Ok(())
    }

    /// Derives the SMTP envelope: sender is the `Sender` address, else the
    /// `From` address; recipients are the `To`, `Cc`, then `Bcc` mailboxes
    /// with groups expanded.
    pub fn derive_envelope(&self) -> (r: Result<Envelope, MessageValidationError>)
        ensures
            match validation_defect(self@) {
                Some(d) => r matches Err(e) && validation_reported(e, d),
                None => r matches Ok(env) && env@ == (envelope_sender(self@), recipient_emails(self@.to)
                    + recipient_emails(self@.cc) + recipient_emails(self@.bcc)),
            },
            r matches Ok(env) ==> (self@.sender matches Some(snd) ==> env@.0 == Some(snd.email)),
            r matches Ok(env) ==> (self@.sender is None ==> (self@.from matches Some(f) ==> env@.0 == Some(f.email))),
            r matches Ok(env) ==> env@.1.len() == crate::address::mailbox_total(self@.to)
                + crate::address::mailbox_total(self@.cc) + crate::address::mailbox_total(self@.bcc),
            r matches Ok(env) ==> forall|i: int, k: int|
                0 <= i < self@.to.len() && 0 <= k < item_mailboxes(self@.to[i]).len() ==> env@.1.contains(
                    (#[trigger] item_mailboxes(self@.to[i])[k]).email,
                ),
            r matches Ok(env) ==> forall|i: int, k: int|
                0 <= i < self@.cc.len() && 0 <= k < item_mailboxes(self@.cc[i]).len() ==> env@.1.contains(
                    (#[trigger] item_mailboxes(self@.cc[i])[k]).email,
                ),
            r matches Ok(env) ==> forall|i: int, k: int|
                0 <= i < self@.bcc.len() && 0 <= k < item_mailboxes(self@.bcc[i]).len() ==> env@.1.contains(
                    (#[trigger] item_mailboxes(self@.bcc[i])[k]).email,
                ),
    {
        proof {
            law_envelope_recipients(self@);
        }
        self.validate_basic()?;
        let mail_from = match &self.sender {
            Some(s) => Some(s.email().clone()),
            None => match &self.from {
                Some(f) => Some(f.email().clone()),
                None => None,
            },
        };
        let mut rcpt_to: Vec<EmailAddress> = Vec::new();
        extend_recipient_emails(&mut rcpt_to, &self.to);
        extend_recipient_emails(&mut rcpt_to, &self.cc);
        extend_recipient_emails(&mut rcpt_to, &self.bcc);
        assert(email_views(Seq::<EmailAddress>::empty()) =~= Seq::<Seq<char>>::empty());
        Ok(Envelope::new(mail_from, rcpt_to))
    }
}

// ---------------------------------------------------------------------------
// Outbound messages
// ---------------------------------------------------------------------------

/// A message that has passed outbound validation; its `From` mailbox is
/// kept alongside.
#[derive(Debug, PartialEq, Eq)]
pub struct OutboundMessage {
    inner: Message,
    from: Mailbox,
}

fn clone_headers(h: &Vec<Header>) -> (r: Vec<Header>)
    ensures
        header_views(r@) == header_views(h@),
{
    let mut out: Vec<Header> = Vec::new();
    let mut i: usize = 0;
    while i < h.len()
        invariant
            i <= h@.len(),
            out@.len() == i,
            forall|j: int| 0 <= j < i ==> (#[trigger] out@[j])@ == h@[j]@,
        decreases h@.len() - i,
    {
        out.push(h[i].clone());
        i = i + 1;
    }
    assert(header_views(out@) =~= header_views(h@));
    out
}

fn clone_attachments(a: &Vec<Attachment>) -> (r: Vec<Attachment>)
    ensures
        attachment_views(r@) == attachment_views(a@),
{
    let mut out: Vec<Attachment> = Vec::new();
    let mut i: usize = 0;
    while i < a.len()
        invariant
            i <= a@.len(),
            out@.len() == i,
            forall|j: int| 0 <= j < i ==> (#[trigger] out@[j])@ == a@[j]@,
        decreases a@.len() - i,
    {
        out.push(a[i].clone());
        i = i + 1;
    }
    assert(attachment_views(out@) =~= attachment_views(a@));
    out
}

fn clone_opt_mailbox(m: &Option<Mailbox>) -> (r: Option<Mailbox>)
    ensures
        opt_mailbox_view(r) == opt_mailbox_view(*m),
{
    match m {
        Some(x) => Some(x.clone()),
        None => None,
    }
}

fn clone_opt_message_id(m: &Option<MessageId>) -> (r: Option<MessageId>)
    ensures
        opt_message_id_view(r) == opt_message_id_view(*m),
{
    match m {
        Some(x) => Some(x.clone()),
        None => None,
    }
}

impl Clone for Message {
    fn clone(&self) -> (r: Self)
        ensures
            r@ == self@,
    {
        Message {
            from: clone_opt_mailbox(&self.from),
            sender: clone_opt_mailbox(&self.sender),
            to: clone_addresses(&self.to),
            cc: clone_addresses(&self.cc),
            bcc: clone_addresses(&self.bcc),
            reply_to: clone_addresses(&self.reply_to),
            subject: clone_opt_string_ref(&self.subject),
            date: self.date,
            message_id: clone_opt_message_id(&self.message_id),
            headers: clone_headers(&self.headers),
            body: self.body.clone(),
            attachments: clone_attachments(&self.attachments),
        }
    }
}

impl Clone for OutboundMessage {
    fn clone(&self) -> (r: Self)
        ensures
            r.message_view() == self.message_view(),
    {
        proof {
            use_type_invariant(self);
        }
        OutboundMessage { inner: self.inner.clone(), from: self.from.clone() }
    }
}

impl OutboundMessage {
    #[verifier::type_invariant]
    spec fn validated(self) -> bool {
        &&& validation_defect(self.inner@) is None
        &&& self.inner@.from == Some(self.from@)
    }

    pub closed spec fn message_view(self) -> MessageView {
        self.inner@
    }

    /// Validates and wraps a message.
    pub fn new(message: Message) -> (r: Result<OutboundMessage, MessageValidationError>)
        ensures
            match validation_defect(message@) {
                Some(d) => r matches Err(e) && validation_reported(e, d),
                None => r matches Ok(o) && o.message_view() == message@,
            },
    {
        message.validate_basic()?;
        let from = match &message.from {
            Some(f) => f.clone(),
            None => return Err(MessageValidationError::MissingFrom),
        };
        Ok(OutboundMessage { inner: message, from })
    }

    pub fn as_message(&self) -> (r: &Message)
        ensures
            r@ == self.message_view(),
            validation_defect(r@) is None,
    {
        proof {
            use_type_invariant(self);
        }
        &self.inner
    }

    pub fn into_message(self) -> (r: Message)
        ensures
            r@ == self.message_view(),
            validation_defect(r@) is None,
    {
        proof {
            use_type_invariant(&self);
        }
        self.inner
    }

    /// The validated `From` mailbox.
    pub fn from_mailbox(&self) -> (r: &Mailbox)
        ensures
            self.message_view().from == Some(r@),
    {
        proof {
            use_type_invariant(self);
        }
        &self.from
    }
}

// ---------------------------------------------------------------------------
// Builder
// ---------------------------------------------------------------------------

/// Builder for [`Message`].
#[derive(Debug, PartialEq, Eq)]
pub struct MessageBuilder {
    message: Message,
}

impl View for MessageBuilder {
    type V = MessageView;

    closed spec fn view(&self) -> MessageView {
        self.message@
    }
}

impl MessageBuilder {
    pub fn new(body: Body) -> (r: MessageBuilder)
        ensures
            r@ == empty_message_view(body_view(body)),
    {
        proof {
            lemma_empty_views();
        }
        MessageBuilder {
            message: Message {
                from: None,
                sender: None,
                to: Vec::new(),
                cc: Vec::new(),
                bcc: Vec::new(),
                reply_to: Vec::new(),
                subject: None,
                date: None,
                message_id: None,
                headers: Vec::new(),
                body,
                attachments: Vec::new(),
            },
        }
    }

    pub fn from_mailbox(self, from: Mailbox) -> (r: MessageBuilder)
        ensures
            r@ == (MessageView { from: Some(from@), ..self@ }),
    {
        let mut b = self;
        b.message.from = Some(from);
        b
    }

    pub fn sender(self, sender: Mailbox) -> (r: MessageBuilder)
        ensures
            r@ == (MessageView { sender: Some(sender@), ..self@ }),
    {
        let mut b = self;
        b.message.sender = Some(sender);
        b
    }

    /// Replaces the `To` list.
    pub fn to(self, to: Vec<Address>) -> (r: MessageBuilder)
        ensures
            r@ == (MessageView { to: address_views(to@), ..self@ }),
    {
        let mut b = self;
        b.message.to = to;
        b
    }

    /// Appends one `To` recipient.
    pub fn add_to(self, to: Address) -> (r: MessageBuilder)
        ensures
            r@ == (MessageView { to: self@.to.push(to@), ..self@ }),
    {
        let mut b = self;
        proof {
            lemma_address_views_push(b.message.to@, to);
        }
        b.message.to.push(to);
        b
    }

    pub fn cc(self, cc: Vec<Address>) -> (r: MessageBuilder)
        ensures
            r@ == (MessageView { cc: address_views(cc@), ..self@ }),
    {
        let mut b = self;
        b.message.cc = cc;
        b
    }

    pub fn add_cc(self, cc: Address) -> (r: MessageBuilder)
        ensures
            r@ == (MessageView { cc: self@.cc.push(cc@), ..self@ }),
    {
        let mut b = self;
        proof {
            lemma_address_views_push(b.message.cc@, cc);
        }
        b.message.cc.push(cc);
        b
    }

    pub fn bcc(self, bcc: Vec<Address>) -> (r: MessageBuilder)
        ensures
            r@ == (MessageView { bcc: address_views(bcc@), ..self@ }),
    {
        let mut b = self;
        b.message.bcc = bcc;
        b
    }

    pub fn add_bcc(self, bcc: Address) -> (r: MessageBuilder)
        ensures
            r@ == (MessageView { bcc: self@.bcc.push(bcc@), ..self@ }),
    {
        let mut b = self;
        proof {
            lemma_address_views_push(b.message.bcc@, bcc);
        }
        b.message.bcc.push(bcc);
        b
    }

    pub fn reply_to(self, reply_to: Vec<Address>) -> (r: MessageBuilder)
        ensures
            r@ == (MessageView { reply_to: address_views(reply_to@), ..self@ }),
    {
        let mut b = self;
        b.message.reply_to = reply_to;
        b
    }

    pub fn add_reply_to(self, reply_to: Address) -> (r: MessageBuilder)
        ensures
            r@ == (MessageView { reply_to: self@.reply_to.push(reply_to@), ..self@ }),
    {
        let mut b = self;
        proof {
            lemma_address_views_push(b.message.reply_to@, reply_to);
        }
        b.message.reply_to.push(reply_to);
        b
    }

    pub fn subject(self, subject: &str) -> (r: MessageBuilder)
        ensures
            r@ == (MessageView { subject: Some(subject@), ..self@ }),
    {
        let mut b = self;
        b.message.subject = Some(subject.to_owned());
        b
    }

    pub fn date(self, date: DateTime) -> (r: MessageBuilder)
        ensures
            r@ == (MessageView { date: Some(date), ..self@ }),
    {
        let mut b = self;
        b.message.date = Some(date);
        b
    }

    pub fn message_id(self, message_id: MessageId) -> (r: MessageBuilder)
        ensures
            r@ == (MessageView { message_id: Some(message_id@), ..self@ }),
    {
        let mut b = self;
        b.message.message_id = Some(message_id);
        b
    }

    pub fn headers(self, headers: Vec<Header>) -> (r: MessageBuilder)
        ensures
            r@ == (MessageView { headers: header_views(headers@), ..self@ }),
    {
        let mut b = self;
        b.message.headers = headers;
        b
    }

    pub fn add_header(self, header: Header) -> (r: MessageBuilder)
        ensures
            r@ == (MessageView { headers: self@.headers.push(header@), ..self@ }),
    {
        let mut b = self;
        let ghost before = b.message.headers@;
        b.message.headers.push(header);
        assert(header_views(b.message.headers@) =~= header_views(before).push(header@));
        b
    }

    pub fn attachments(self, attachments: Vec<Attachment>) -> (r: MessageBuilder)
        ensures
            r@ == (MessageView { attachments: attachment_views(attachments@), ..self@ }),
    {
        let mut b = self;
        b.message.attachments = attachments;
        b
    }

    pub fn add_attachment(self, attachment: Attachment) -> (r: MessageBuilder)
        ensures
            r@ == (MessageView { attachments: self@.attachments.push(attachment@), ..self@ }),
    {
        let mut b = self;
        let ghost before = b.message.attachments@;
        b.message.attachments.push(attachment);
        assert(attachment_views(b.message.attachments@) =~= attachment_views(before).push(attachment@));
        b
    }

    /// The message, without outbound validation.
    pub fn build_unchecked(self) -> (r: Message)
        ensures
            r@ == self@,
    {
        self.message
    }

    /// Validates and returns the message.
    pub fn build(self) -> (r: Result<Message, MessageValidationError>)
        ensures
            match validation_defect(self@) {
                Some(d) => r matches Err(e) && validation_reported(e, d),
                None => r matches Ok(m) && m@ == self@,
            },
    {
        self.message.validate_basic()?;
        Ok(self.message)
    }

    /// Validates and wraps the message for outbound delivery.
    pub fn build_outbound(self) -> (r: Result<OutboundMessage, MessageValidationError>)
        ensures
            match validation_defect(self@) {
                Some(d) => r matches Err(e) && validation_reported(e, d),
                None => r matches Ok(o) && o.message_view() == self@,
            },
    {
        OutboundMessage::new(self.message)
    }
}

} // verus!
