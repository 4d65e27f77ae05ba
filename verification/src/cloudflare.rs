//! The Cloudflare Workers `send_email` mapping: a message becomes the plain
//! payload that the binding's `EmailMessageBuilder` object is made from, and
//! the binding's error codes become classified delivery failures.
use vstd::prelude::*;
use crate::address::{Address, AddressView, Mailbox, MailboxView, address_views, item_mailboxes};
use crate::delivery::{DeliveryError, DeliveryErrorKind, DeliveryErrorView};
use crate::message::{
    Attachment, AttachmentBody, AttachmentBodyView, AttachmentView, Body, BodyView, Header, Message, MessageView,
    attachment_views, body_view, header_views,
};
use crate::text::{eq_ignore_case, push_str, str_chars, str_eq, str_eq_ignore_case};
use crate::wire::shared::{decimal, push_decimal};

pub mod headers;

use crate::cloudflare::headers::{collect_headers, header_fold};

verus! {

/// Stable provider identifier of the Cloudflare transport.
pub const PROVIDER: &'static str = "cloudflare";

// ---------------------------------------------------------------------------
// Payload
// ---------------------------------------------------------------------------

/// A mailbox as Cloudflare's `EmailAddress` (`{ email, name? }`).
#[derive(Clone, Debug, PartialEq, Eq)]
pub struct PayloadAddress {
    pub name: Option<String>,
    pub email: String,
}

impl View for PayloadAddress {
    type V = MailboxView;

    open spec fn view(&self) -> MailboxView {
        MailboxView {
            name: match self.name {
                Some(n) => Some(n@),
                None => None,
            },
            email: self.email@,
        }
    }
}

impl PayloadAddress {
    /// The payload form of `mailbox`.
    pub fn from_mailbox(mailbox: &Mailbox) -> (r: PayloadAddress)
        ensures
            r@ == mailbox@,
    {
        PayloadAddress {
            name: match mailbox.name() {
                Some(n) => Some(n.to_owned()),
                None => None,
            },
            email: mailbox.email().as_str().to_owned(),
        }
    }
}

/// Cloudflare's attachment disposition union: inline parts carry a content
/// id, regular attachments never do.
#[derive(Clone, Debug, PartialEq, Eq)]
pub enum PayloadDisposition {
    Attachment,
    Inline { content_id: String },
}

/// A byte-backed attachment as Cloudflare's `Attachment`.
#[derive(Clone, Debug, PartialEq, Eq)]
pub struct PayloadAttachment {
    pub filename: String,
    pub content_type: String,
    pub disposition: PayloadDisposition,
    pub content: Vec<u8>,
}

/// A payload attachment as plain values; the content id is present exactly
/// for inline parts.
pub struct PayloadAttachmentView {
    pub filename: Seq<char>,
    pub content_type: Seq<char>,
    pub inline_content_id: Option<Seq<char>>,
    pub content: Seq<u8>,
}

impl View for PayloadAttachment {
    type V = PayloadAttachmentView;

    open spec fn view(&self) -> PayloadAttachmentView {
        PayloadAttachmentView {
            filename: self.filename@,
            content_type: self.content_type@,
            inline_content_id: match self.disposition {
                PayloadDisposition::Inline { content_id } => Some(content_id@),
                PayloadDisposition::Attachment => None,
            },
            content: self.content@,
        }
    }
}

/// Plain image of a Cloudflare `EmailMessageBuilder` object.
#[derive(Clone, Debug, PartialEq, Eq)]
pub struct EmailPayload {
    pub from: PayloadAddress,
    pub to: Vec<PayloadAddress>,
    pub cc: Vec<PayloadAddress>,
    pub bcc: Vec<PayloadAddress>,
    pub reply_to: Option<PayloadAddress>,
    pub subject: String,
    pub text: Option<String>,
    pub html: Option<String>,
    /// Header names and values, sorted by name, one entry per name up to
    /// ASCII case.
    pub headers: Vec<(String, String)>,
    pub attachments: Vec<PayloadAttachment>,
}

/// A payload as plain values.
pub struct EmailPayloadView {
    pub from: MailboxView,
    pub to: Seq<MailboxView>,
    pub cc: Seq<MailboxView>,
    pub bcc: Seq<MailboxView>,
    pub reply_to: Option<MailboxView>,
    pub subject: Seq<char>,
    pub text: Option<Seq<char>>,
    pub html: Option<Seq<char>>,
    pub headers: Seq<(Seq<char>, Seq<char>)>,
    pub attachments: Seq<PayloadAttachmentView>,
}

pub open spec fn payload_address_views(s: Seq<PayloadAddress>) -> Seq<MailboxView> {
    Seq::new(s.len(), |i: int| s[i]@)
}

pub open spec fn payload_attachment_views(s: Seq<PayloadAttachment>) -> Seq<PayloadAttachmentView> {
    Seq::new(s.len(), |i: int| s[i]@)
}

pub open spec fn string_pair_views(s: Seq<(String, String)>) -> Seq<(Seq<char>, Seq<char>)> {
    Seq::new(s.len(), |i: int| (s[i].0@, s[i].1@))
}

pub open spec fn opt_string_view(o: Option<String>) -> Option<Seq<char>> {
    match o {
        Some(s) => Some(s@),
        None => None,
    }
}

impl View for EmailPayload {
    type V = EmailPayloadView;

    open spec fn view(&self) -> EmailPayloadView {
        EmailPayloadView {
            from: self.from@,
            to: payload_address_views(self.to@),
            cc: payload_address_views(self.cc@),
            bcc: payload_address_views(self.bcc@),
            reply_to: match self.reply_to {
                Some(a) => Some(a@),
                None => None,
            },
            subject: self.subject@,
            text: opt_string_view(self.text),
            html: opt_string_view(self.html),
            headers: string_pair_views(self.headers@),
            attachments: payload_attachment_views(self.attachments@),
        }
    }
}

impl EmailPayload {
    /// The value of header `name` (exact spelling), if present.
    pub fn header(&self, name: &str) -> (r: Option<&str>)
        ensures
            match r {
                Some(v) => exists|i: int| 0 <= i < self.headers@.len() && self.headers@[i].0@ == name@ && self.headers@[i].1@ == v@,
                None => forall|i: int| 0 <= i < self.headers@.len() ==> self.headers@[i].0@ != name@,
            },
    {
        let mut i: usize = 0;
        while i < self.headers.len()
            invariant
                i <= self.headers@.len(),
                forall|j: int| 0 <= j < i ==> self.headers@[j].0@ != name@,
            decreases self.headers@.len() - i,
        {
            if str_eq(self.headers[i].0.as_str(), name) {
                return Some(self.headers[i].1.as_str());
            }
            i = i + 1;
        }
        None
    }
}

// ---------------------------------------------------------------------------
// Mapping
// ---------------------------------------------------------------------------

/// The mailboxes of an address list, groups flattened to their members.
pub open spec fn flat_mailboxes(a: Seq<AddressView>) -> Seq<MailboxView>
    decreases a.len(),
{
    if a.len() == 0 {
        seq![]
    } else {
        flat_mailboxes(a.drop_last()) + item_mailboxes(a.last())
    }
}

/// The payload addresses of `addresses`, groups flattened to their members.
pub fn collect_addresses(addresses: &[Address]) -> (r: Vec<PayloadAddress>)
    ensures
        payload_address_views(r@) == flat_mailboxes(address_views(addresses@)),
{
    let ghost av = address_views(addresses@);
    let mut out: Vec<PayloadAddress> = Vec::new();
    let mut i: usize = 0;
    assert(av.subrange(0, 0) =~= Seq::<AddressView>::empty());
    assert(payload_address_views(out@) =~= Seq::<MailboxView>::empty());
    while i < addresses.len()
        invariant
            i <= addresses@.len(),
            av == address_views(addresses@),
            payload_address_views(out@) == flat_mailboxes(av.subrange(0, i as int)),
        decreases addresses@.len() - i,
    {
        let ms = addresses[i].mailboxes();
        let ghost im = item_mailboxes(av[i as int]);
        let ghost before = payload_address_views(out@);
        let mut j: usize = 0;
        while j < ms.len()
            invariant
                j <= ms@.len(),
                ms@.len() == im.len(),
                forall|k: int| 0 <= k < ms@.len() ==> (#[trigger] ms@[k])@ == im[k],
                payload_address_views(out@) == before + im.subrange(0, j as int),
            decreases ms@.len() - j,
        {
            let a = PayloadAddress::from_mailbox(ms[j]);
            let ghost prev = out@;
            out.push(a);
            assert(payload_address_views(out@) =~= before + im.subrange(0, j + 1)) by {
                assert(payload_address_views(out@) =~= payload_address_views(prev).push(a@));
            }
            j = j + 1;
        }
        proof {
            let pre = av.subrange(0, i + 1);
            assert(pre.drop_last() =~= av.subrange(0, i as int));
            assert(im.subrange(0, im.len() as int) =~= im);
            assert(payload_address_views(out@) =~= flat_mailboxes(pre));
        }
        i = i + 1;
    }
    assert(av.subrange(0, av.len() as int) =~= av);
    out
}

/// `value`, unless it is empty.
pub open spec fn non_empty_spec(value: Seq<char>) -> Option<Seq<char>> {
    if value.len() == 0 {
        None
    } else {
        Some(value)
    }
}

/// `value` as an owned string, unless it is empty.
pub fn non_empty(value: &str) -> (r: Option<String>)
    ensures
        opt_string_view(r) == non_empty_spec(value@),
{
    if value.is_empty() {
        None
    } else {
        Some(value.to_owned())
    }
}

/// What a payload build reports, and when, as plain values.
pub enum PayloadDefect {
    MissingFrom,
    NoRecipients,
    MultipleReplyTo,
    UnsupportedBody,
    EmptyBody,
    AttachmentReference,
    InlineWithoutContentId,
}

pub open spec fn defect_error(d: PayloadDefect) -> (DeliveryErrorKind, Seq<char>) {
    match d {
        PayloadDefect::MissingFrom => (DeliveryErrorKind::Validation, "missing From mailbox"@),
        PayloadDefect::NoRecipients => (DeliveryErrorKind::Validation, "at least one recipient is required"@),
        PayloadDefect::MultipleReplyTo => (DeliveryErrorKind::UnsupportedFeature, "cloudflare accepts a single Reply-To mailbox"@),
        PayloadDefect::UnsupportedBody => (
            DeliveryErrorKind::UnsupportedFeature,
            "non-text/html body is not supported by the cloudflare structured send API"@,
        ),
        PayloadDefect::EmptyBody => (DeliveryErrorKind::Validation, "cloudflare requires a non-empty text or html body"@),
        PayloadDefect::AttachmentReference => (DeliveryErrorKind::UnsupportedFeature, ATTACHMENT_REFERENCE_MESSAGE@),
        PayloadDefect::InlineWithoutContentId => (
            DeliveryErrorKind::Validation,
            "cloudflare requires a content id on every inline attachment"@,
        ),
    }
}

/// `e` is the error reported for defect `d`.
pub open spec fn defect_reported(e: DeliveryErrorView, d: PayloadDefect) -> bool {
    e == (DeliveryErrorView { kind: defect_error(d).0, message: defect_error(d).1, provider_error_code: None, source: None, http_status: None, retry_after_secs: None })
}

/// What a reference-backed attachment is answered with.
pub const ATTACHMENT_REFERENCE_MESSAGE: &'static str = "AttachmentBody variant not supported by the cloudflare send_email binding; wrap the transport in `email_attachment::AttachmentResolvingTransport` or call `email_attachment::prepare_attachments` before send";

fn defect(d: PayloadDefect) -> (r: DeliveryError)
    ensures
        defect_reported(r@, d),
{
    match d {
        PayloadDefect::MissingFrom => DeliveryError::new(DeliveryErrorKind::Validation, "missing From mailbox"),
        PayloadDefect::NoRecipients => DeliveryError::new(
            DeliveryErrorKind::Validation,
            "at least one recipient is required",
        ),
        PayloadDefect::MultipleReplyTo => DeliveryError::new(
            DeliveryErrorKind::UnsupportedFeature,
            "cloudflare accepts a single Reply-To mailbox",
        ),
        PayloadDefect::UnsupportedBody => DeliveryError::new(
            DeliveryErrorKind::UnsupportedFeature,
            "non-text/html body is not supported by the cloudflare structured send API",
        ),
        PayloadDefect::EmptyBody => DeliveryError::new(
            DeliveryErrorKind::Validation,
            "cloudflare requires a non-empty text or html body",
        ),
        PayloadDefect::AttachmentReference => DeliveryError::new(
            DeliveryErrorKind::UnsupportedFeature,
            ATTACHMENT_REFERENCE_MESSAGE,
        ),
        PayloadDefect::InlineWithoutContentId => DeliveryError::new(
            DeliveryErrorKind::Validation,
            "cloudflare requires a content id on every inline attachment",
        ),
    }
}

/// The single Reply-To mailbox, if any.
pub fn map_reply_to(addresses: &[Address]) -> (r: Result<Option<PayloadAddress>, DeliveryError>)
    ensures
        flat_mailboxes(address_views(addresses@)).len() == 0 ==> r matches Ok(None),
        flat_mailboxes(address_views(addresses@)).len() == 1 ==> (r matches Ok(Some(a)) && a@ == flat_mailboxes(
            address_views(addresses@),
        )[0]),
        flat_mailboxes(address_views(addresses@)).len() > 1 ==> (r matches Err(e) && defect_reported(
            e@,
            PayloadDefect::MultipleReplyTo,
        )),
{
    let mut reply_to = collect_addresses(addresses);
    let n = reply_to.len();
    if n == 0 {
        Ok(None)
    } else if n == 1 {
        assert(payload_address_views(reply_to@)[0] == reply_to@[0]@);
        Ok(reply_to.pop())
    } else {
        Err(defect(PayloadDefect::MultipleReplyTo))
    }
}

/// The text and HTML parts of a body, each dropped when empty.
pub open spec fn body_parts(b: BodyView) -> Option<(Option<Seq<char>>, Option<Seq<char>>)> {
    match b {
        BodyView::Text(t) => Some((non_empty_spec(t), None)),
        BodyView::Html(h) => Some((None, non_empty_spec(h))),
        BodyView::TextAndHtml(t, h) => Some((non_empty_spec(t), non_empty_spec(h))),
        BodyView::Mime(_) => None,
    }
}

/// The text and HTML parts of `body`; a MIME body is unsupported.
pub fn map_body(body: &Body) -> (r: Result<(Option<String>, Option<String>), DeliveryError>)
    ensures
        match body_parts(body_view(*body)) {
            Some((t, h)) => r matches Ok((rt, rh)) && opt_string_view(rt) == t && opt_string_view(rh) == h,
            None => r matches Err(e) && defect_reported(e@, PayloadDefect::UnsupportedBody),
        },
{
    match body {
        Body::Text(text) => Ok((non_empty(text.as_str()), None)),
        Body::Html(html) => Ok((None, non_empty(html.as_str()))),
        Body::TextAndHtml { text, html } => Ok((non_empty(text.as_str()), non_empty(html.as_str()))),
        Body::Mime(_) => Err(defect(PayloadDefect::UnsupportedBody)),
    }
}

/// The name of the `position`-th attachment (1-based) when it has none.
pub open spec fn positional_name(position: nat) -> Seq<char> {
    "attachment-"@ + decimal(position)
}

/// The payload form of an attachment, or why it has none.
pub open spec fn attachment_payload(a: AttachmentView, position: nat) -> Result<PayloadAttachmentView, PayloadDefect> {
    match a.body {
        AttachmentBodyView::Reference(_) => Err(PayloadDefect::AttachmentReference),
        AttachmentBodyView::Bytes(content) => {
            if a.disposition is Inline && a.content_id is None {
                Err(PayloadDefect::InlineWithoutContentId)
            } else {
                let inline_id = if a.disposition is Inline {
                    a.content_id
                } else {
                    None
                };
                Ok(
                    PayloadAttachmentView {
                        filename: match a.filename {
                            Some(f) => f,
                            None => match inline_id {
                                Some(c) => c,
                                None => positional_name(position),
                            },
                        },
                        content_type: a.content_type,
                        inline_content_id: inline_id,
                        content: content,
                    },
                )
            }
        },
    }
}

/// Maps one attachment; `position` is its 1-based index in the message and
/// names a regular attachment that has no filename. A missing filename of an
/// inline part is its content id; a content id on a regular attachment is
/// dropped.
pub fn map_attachment(attachment: &Attachment, position: usize) -> (r: Result<PayloadAttachment, DeliveryError>)
    ensures
        match attachment_payload(attachment@, position as nat) {
            Ok(p) => r matches Ok(x) && x@ == p,
            Err(d) => r matches Err(e) && defect_reported(e@, d),
        },
{
    let content = match attachment.body() {
        AttachmentBody::Bytes(content) => content,
        AttachmentBody::Reference(_) => return Err(defect(PayloadDefect::AttachmentReference)),
    };
    let disposition = if attachment.is_inline() {
        match attachment.content_id() {
            Some(content_id) => PayloadDisposition::Inline { content_id: content_id.to_owned() },
            None => return Err(defect(PayloadDefect::InlineWithoutContentId)),
        }
    } else {
        PayloadDisposition::Attachment
    };
    let filename = match attachment.filename() {
        Some(filename) => filename.to_owned(),
        None => match &disposition {
            PayloadDisposition::Inline { content_id } => content_id.clone(),
            PayloadDisposition::Attachment => {
                let mut name = String::new();
                push_str(&mut name, "attachment-");
                push_decimal(&mut name, position);
                name
            },
        },
    };
    Ok(PayloadAttachment {
        filename,
        content_type: attachment.content_type().to_string(),
        disposition,
        content: content.clone(),
    })
}

/// The payload attachments of `atts`, or the first defect.
pub open spec fn attachments_payload(atts: Seq<AttachmentView>) -> Result<Seq<PayloadAttachmentView>, PayloadDefect>
    decreases atts.len(),
{
    if atts.len() == 0 {
        Ok(seq![])
    } else {
        match attachments_payload(atts.drop_last()) {
            Err(d) => Err(d),
            Ok(ps) => match attachment_payload(atts.last(), atts.len()) {
                Err(d) => Err(d),
                Ok(p) => Ok(ps.push(p)),
            },
        }
    }
}

proof fn lemma_attachments_payload_stops(atts: Seq<AttachmentView>, n: int)
    requires
        0 <= n <= atts.len(),
        attachments_payload(atts.take(n)) is Err,
    ensures
        attachments_payload(atts) == attachments_payload(atts.take(n)),
    decreases atts.len() - n,
{
    if n < atts.len() {
        assert(atts.take(n + 1).drop_last() =~= atts.take(n));
        lemma_attachments_payload_stops(atts, n + 1);
    } else {
        assert(atts.take(n) =~= atts);
    }
}

fn map_attachments(attachments: &[Attachment]) -> (r: Result<Vec<PayloadAttachment>, DeliveryError>)
    ensures
        match attachments_payload(attachment_views(attachments@)) {
            Ok(ps) => r matches Ok(v) && payload_attachment_views(v@) == ps,
            Err(d) => r matches Err(e) && defect_reported(e@, d),
        },
{
    let ghost views = attachment_views(attachments@);
    let mut out: Vec<PayloadAttachment> = Vec::new();
    let mut i: usize = 0;
    assert(views.take(0) =~= Seq::<AttachmentView>::empty());
    assert(payload_attachment_views(out@) =~= Seq::<PayloadAttachmentView>::empty());
    while i < attachments.len()
        invariant
            i <= attachments@.len(),
            views == attachment_views(attachments@),
            attachments_payload(views.take(i as int)) == Ok::<Seq<PayloadAttachmentView>, PayloadDefect>(
                payload_attachment_views(out@),
            ),
        decreases attachments@.len() - i,
    {
        assert(views.take(i + 1).drop_last() =~= views.take(i as int));
        assert(views.take(i + 1).last() == attachments@[i as int]@);
        match map_attachment(&attachments[i], i + 1) {
            Ok(p) => {
                let ghost prev = out@;
                out.push(p);
                assert(payload_attachment_views(out@) =~= payload_attachment_views(prev).push(p@));
            },
            Err(e) => {
                proof {
                    lemma_attachments_payload_stops(views, i + 1);
                }
                return Err(e);
            },
        }
        i = i + 1;
    }
    assert(views.take(attachments@.len() as int) =~= views);
    Ok(out)
}

/// The payload for `m`, or the first defect, in the order they are checked.
pub open spec fn payload_of(m: MessageView) -> Result<EmailPayloadView, PayloadDefect> {
    let to = flat_mailboxes(m.to);
    let cc = flat_mailboxes(m.cc);
    let bcc = flat_mailboxes(m.bcc);
    let replies = flat_mailboxes(m.reply_to);
    if m.from is None {
        Err(PayloadDefect::MissingFrom)
    } else if to.len() == 0 && cc.len() == 0 && bcc.len() == 0 {
        Err(PayloadDefect::NoRecipients)
    } else if replies.len() > 1 {
        Err(PayloadDefect::MultipleReplyTo)
    } else {
        match body_parts(m.body) {
            None => Err(PayloadDefect::UnsupportedBody),
            Some((text, html)) => if text is None && html is None {
                Err(PayloadDefect::EmptyBody)
            } else {
                match attachments_payload(m.attachments) {
                    Err(d) => Err(d),
                    Ok(atts) => Ok(
                        EmailPayloadView {
                            from: m.from->0,
                            to,
                            cc,
                            bcc,
                            reply_to: if replies.len() == 1 {
                                Some(replies[0])
                            } else {
                                None
                            },
                            subject: match m.subject {
                                Some(s) => s,
                                None => seq![],
                            },
                            text,
                            html,
                            headers: header_fold(m.headers),
                            attachments: atts,
                        },
                    ),
                }
            },
        }
    }
}

/// Flattening address items keeps every mailbox, in order: as many as the
/// items hold, the `k`-th mailbox of the `i`-th item after the mailboxes of
/// the items before it.
pub proof fn law_flat_mailboxes(a: Seq<AddressView>)
    ensures
        flat_mailboxes(a).len() == crate::address::mailbox_total(a),
        forall|i: int, k: int|
            0 <= i < a.len() && 0 <= k < item_mailboxes(a[i]).len() ==> flat_mailboxes(a)[crate::address::mailbox_total(
                a.take(i),
            ) + k] == #[trigger] item_mailboxes(a[i])[k],
    decreases a.len(),
{
    if a.len() > 0 {
        let p = a.drop_last();
        law_flat_mailboxes(p);
        assert forall|i: int, k: int|
            0 <= i < a.len() && 0 <= k < item_mailboxes(a[i]).len() implies flat_mailboxes(
            a,
        )[crate::address::mailbox_total(a.take(i)) + k] == #[trigger] item_mailboxes(a[i])[k] by {
            let last = item_mailboxes(a.last());
            assert(flat_mailboxes(a) == flat_mailboxes(p) + last);
            if i < a.len() - 1 {
                assert(a.take(i) =~= p.take(i));
                assert(a[i] == p[i]);
                crate::message::lemma_total_prefix(p, i);
                let j = crate::address::mailbox_total(p.take(i)) + k;
                assert(flat_mailboxes(p)[j] == item_mailboxes(p[i])[k]);
                assert((flat_mailboxes(p) + last)[j] == flat_mailboxes(p)[j]);
            } else {
                assert(a.take(i) =~= p);
                assert((flat_mailboxes(p) + last)[crate::address::mailbox_total(p) + k] == last[k]);
            }
        }
    }
}

/// What a built payload carries of its message: the `From` mailbox; the
/// subject, or the empty text when there is none; every mailbox of `To`,
/// `Cc` and `Bcc`, in order, groups flattened; the single `Reply-To` mailbox
/// when there is one; and the text or HTML of a plain text or HTML body.
pub proof fn law_payload_carries_message(m: MessageView)
    requires
        payload_of(m) is Ok,
    ensures
        ({
            let p = payload_of(m)->Ok_0;
            &&& m.from == Some(p.from)
            &&& (m.subject matches Some(s) ==> p.subject == s)
            &&& (m.subject is None ==> p.subject.len() == 0)
            &&& p.to.len() == crate::address::mailbox_total(m.to)
            &&& p.cc.len() == crate::address::mailbox_total(m.cc)
            &&& p.bcc.len() == crate::address::mailbox_total(m.bcc)
            &&& (forall|i: int, k: int|
                0 <= i < m.to.len() && 0 <= k < item_mailboxes(m.to[i]).len() ==> p.to[crate::address::mailbox_total(
                    m.to.take(i),
                ) + k] == #[trigger] item_mailboxes(m.to[i])[k])
            &&& (forall|i: int, k: int|
                0 <= i < m.cc.len() && 0 <= k < item_mailboxes(m.cc[i]).len() ==> p.cc[crate::address::mailbox_total(
                    m.cc.take(i),
                ) + k] == #[trigger] item_mailboxes(m.cc[i])[k])
            &&& (forall|i: int, k: int|
                0 <= i < m.bcc.len() && 0 <= k < item_mailboxes(m.bcc[i]).len() ==> p.bcc[crate::address::mailbox_total(
                    m.bcc.take(i),
                ) + k] == #[trigger] item_mailboxes(m.bcc[i])[k])
            &&& (crate::address::mailbox_total(m.reply_to) == 0 <==> p.reply_to is None)
            &&& (forall|i: int, k: int|
                0 <= i < m.reply_to.len() && 0 <= k < item_mailboxes(m.reply_to[i]).len() ==> p.reply_to == Some(
                    #[trigger] item_mailboxes(m.reply_to[i])[k],
                ))
            &&& (m.body matches BodyView::Text(t) ==> (t.len() > 0 ==> p.text == Some(t) && p.html is None))
            &&& (m.body matches BodyView::Html(h) ==> (h.len() > 0 ==> p.html == Some(h) && p.text is None))
        }),
{
    law_flat_mailboxes(m.to);
    law_flat_mailboxes(m.cc);
    law_flat_mailboxes(m.bcc);
    law_flat_mailboxes(m.reply_to);
    let r = flat_mailboxes(m.reply_to);
    assert forall|i: int, k: int|
        0 <= i < m.reply_to.len() && 0 <= k < item_mailboxes(m.reply_to[i]).len() implies payload_of(m)->Ok_0.reply_to
        == Some(#[trigger] item_mailboxes(m.reply_to[i])[k]) by {
        crate::message::lemma_total_prefix(m.reply_to, i);
        assert(r[crate::address::mailbox_total(m.reply_to.take(i)) + k] == item_mailboxes(m.reply_to[i])[k]);
    }
}

/// Maps a message to the payload handed to the `send_email` binding.
///
/// Only the message's custom headers are forwarded: `Date`, `Message-ID`
/// and `Sender` are left out (Cloudflare refuses the first two and stamps
/// its own `Message-ID`). Header names are folded up to ASCII case, the first
/// spelling kept and the last value winning. The `to`, `cc` and `bcc` lists
/// may each be empty, but not all three.
pub fn build_payload(message: &Message) -> (r: Result<EmailPayload, DeliveryError>)
    ensures
        match payload_of(message@) {
            Ok(p) => r matches Ok(x) && x@ == p,
            Err(d) => r matches Err(e) && defect_reported(e@, d),
        },
        r matches Ok(x) ==> message@.from == Some(x@.from),
        r matches Ok(x) ==> (message@.subject matches Some(s) ==> x@.subject == s),
        r matches Ok(x) ==> (message@.subject is None ==> x@.subject.len() == 0),
        r matches Ok(x) ==> x@.to.len() == crate::address::mailbox_total(message@.to) && x@.cc.len()
            == crate::address::mailbox_total(message@.cc) && x@.bcc.len() == crate::address::mailbox_total(message@.bcc),
{
    proof {
        if payload_of(message@) is Ok {
            law_payload_carries_message(message@);
        }
    }
    let from = match message.from_mailbox() {
        Some(m) => PayloadAddress::from_mailbox(m),
        None => return Err(defect(PayloadDefect::MissingFrom)),
    };
    let to = collect_addresses(message.to());
    let cc = collect_addresses(message.cc());
    let bcc = collect_addresses(message.bcc());
    if to.len() == 0 && cc.len() == 0 && bcc.len() == 0 {
        return Err(defect(PayloadDefect::NoRecipients));
    }
    let reply_to = match map_reply_to(message.reply_to()) {
        Ok(r) => r,
        Err(e) => return Err(e),
    };
    let subject = match message.subject() {
        Some(s) => s.to_owned(),
        None => String::new(),
    };
    let (text, html) = match map_body(message.body()) {
        Ok(parts) => parts,
        Err(e) => return Err(e),
    };
    if text.is_none() && html.is_none() {
        return Err(defect(PayloadDefect::EmptyBody));
    }
    let headers = collect_headers(message.headers());
    let attachments = match map_attachments(message.attachments()) {
        Ok(a) => a,
        Err(e) => return Err(e),
    };
    Ok(EmailPayload { from, to, cc, bcc, reply_to, subject, text, html, headers, attachments })
}

// ---------------------------------------------------------------------------
// Binding errors
// ---------------------------------------------------------------------------

/// The category of a Cloudflare error code. Unrecognised codes are permanent
/// failures, so a new platform code is never retried forever.
pub open spec fn code_kind(code: Seq<char>) -> DeliveryErrorKind {
    if code == "E_VALIDATION_ERROR"@ || code == "E_FIELD_MISSING"@ || code == "E_TOO_MANY_RECIPIENTS"@ || code
        == "E_TOO_MANY_ATTACHMENTS"@ || code == "E_CONTENT_TOO_LARGE"@ {
        DeliveryErrorKind::Validation
    } else if code == "E_SENDER_NOT_VERIFIED"@ || code == "E_SENDER_DOMAIN_NOT_AVAILABLE"@ || code
        == "E_RECIPIENT_NOT_ALLOWED"@ || code == "RCPT_NOT_ALLOWED"@ {
        DeliveryErrorKind::Authorization
    } else if code == "E_RECIPIENT_SUPPRESSED"@ || code == "E_DELIVERY_FAILED"@ {
        DeliveryErrorKind::PermanentProvider
    } else if code == "E_RATE_LIMIT_EXCEEDED"@ || code == "E_DAILY_LIMIT_EXCEEDED"@ {
        DeliveryErrorKind::RateLimited
    } else if code == "E_INTERNAL_SERVER_ERROR"@ {
        DeliveryErrorKind::TransientProvider
    } else if "E_HEADER"@.is_prefix_of(code) {
        DeliveryErrorKind::Validation
    } else {
        DeliveryErrorKind::PermanentProvider
    }
}

fn starts_with_chars(s: &str, prefix: &str) -> (r: bool)
    ensures
        r == prefix@.is_prefix_of(s@),
{
    let v = str_chars(s);
    let p = str_chars(prefix);
    if p.len() > v.len() {
        return false;
    }
    let mut i: usize = 0;
    while i < p.len()
        invariant
            v@ == s@,
            p@ == prefix@,
            p@.len() <= v@.len(),
            i <= p@.len(),
            forall|j: int| 0 <= j < i ==> p@[j] == v@[j],
        decreases p@.len() - i,
    {
        if p[i] != v[i] {
            return false;
        }
        i = i + 1;
    }
    true
}

/// Classifies a Cloudflare error code.
pub fn classify(code: &str) -> (r: DeliveryErrorKind)
    ensures
        r == code_kind(code@),
{
    if str_eq(code, "E_VALIDATION_ERROR") || str_eq(code, "E_FIELD_MISSING") || str_eq(code, "E_TOO_MANY_RECIPIENTS")
        || str_eq(code, "E_TOO_MANY_ATTACHMENTS") || str_eq(code, "E_CONTENT_TOO_LARGE") {
        DeliveryErrorKind::Validation
    } else if str_eq(code, "E_SENDER_NOT_VERIFIED") || str_eq(code, "E_SENDER_DOMAIN_NOT_AVAILABLE") || str_eq(
        code,
        "E_RECIPIENT_NOT_ALLOWED",
    ) || str_eq(code, "RCPT_NOT_ALLOWED") {
        DeliveryErrorKind::Authorization
    } else if str_eq(code, "E_RECIPIENT_SUPPRESSED") || str_eq(code, "E_DELIVERY_FAILED") {
        DeliveryErrorKind::PermanentProvider
    } else if str_eq(code, "E_RATE_LIMIT_EXCEEDED") || str_eq(code, "E_DAILY_LIMIT_EXCEEDED") {
        DeliveryErrorKind::RateLimited
    } else if str_eq(code, "E_INTERNAL_SERVER_ERROR") {
        DeliveryErrorKind::TransientProvider
    } else if starts_with_chars(code, "E_HEADER") {
        DeliveryErrorKind::Validation
    } else {
        DeliveryErrorKind::PermanentProvider
    }
}

/// Maps a failure thrown by the binding: with a code, classified by it and
/// carrying it; without one, an internal failure at the binding boundary.
pub fn map_binding_error(code: Option<&str>, message: &str) -> (r: DeliveryError)
    ensures
        match code {
            Some(c) => r@ == (DeliveryErrorView { kind: code_kind(c@), message: message@, provider_error_code: Some(c@), source: None, http_status: None, retry_after_secs: None }),
            None => r@ == (DeliveryErrorView {
                kind: DeliveryErrorKind::Internal,
                message: message@,
                provider_error_code: None,
                source: None,
                http_status: None,
                retry_after_secs: None,
            }),
        },
{
    match code {
        Some(c) => DeliveryError::new(classify(c), message).with_provider_error_code(c),
        None => DeliveryError::new(DeliveryErrorKind::Internal, message),
    }
}

} // verus!
