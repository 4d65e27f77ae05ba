//! The parts of the Resend mapping that decide what is sent: dashboard tags,
//! recipient strings, body parts and attachments.
use vstd::prelude::*;
use crate::address::{Address, AddressView, MailboxView, address_views, display_mailbox, item_mailboxes};
use crate::cloudflare::{flat_mailboxes, non_empty, non_empty_spec, opt_string_view};
use crate::keyed::{keyed_insert, keyed_map, keys_unique};
use crate::cloudflare::headers::{holds, lemma_sorted_put, names_sorted, pair_views, put_sorted, sorted_put};
use crate::delivery::{DeliveryError, DeliveryErrorKind, DeliveryErrorView};
use crate::message::{
    Attachment, AttachmentBody, AttachmentBodyView, AttachmentView, Body, BodyView, Header, Message, MessageView,
    attachment_views, body_view, header_views,
};

verus! {

/// A Resend tag attached to an outgoing email for filtering and
/// segmentation in the Resend dashboard. Neither field is validated here:
/// Resend checks tag tokens itself and answers a violation with a typed
/// validation error.
#[derive(Clone, Debug, PartialEq, Eq)]
pub struct ResendTag {
    /// Tag name used for filtering in Resend.
    pub name: String,
    /// Tag value used for filtering in Resend.
    pub value: String,
}

impl ResendTag {
    /// A tag, without provider-specific validation.
    pub fn new(name: &str, value: &str) -> (r: ResendTag)
        ensures
            r.name@ == name@,
            r.value@ == value@,
    {
        ResendTag { name: name.to_owned(), value: value.to_owned() }
    }
}

impl From<(String, String)> for ResendTag {
    fn from(pair: (String, String)) -> (r: ResendTag) {
        ResendTag { name: pair.0, value: pair.1 }
    }
}

impl vstd::std_specs::convert::FromSpecImpl<(String, String)> for ResendTag {
    open spec fn obeys_from_spec() -> bool {
        true
    }

    open spec fn from_spec(pair: (String, String)) -> ResendTag {
        ResendTag { name: pair.0, value: pair.1 }
    }
}

/// A JSON value of `serde_json`, carried as a template variable; nothing
/// here reads inside it.
#[verifier::external_type_specification]
#[verifier::external_body]
pub struct ExJsonValue(serde_json::Value);

/// `m` with each pair of `vars` put in, in order: a later pair for a key
/// replaces an earlier value.
pub open spec fn put_all(m: Map<Seq<char>, serde_json::Value>, vars: Seq<(String, serde_json::Value)>) -> Map<
    Seq<char>,
    serde_json::Value,
>
    decreases vars.len(),
{
    if vars.len() == 0 {
        m
    } else {
        put_all(m, vars.drop_last()).insert(vars.last().0@, vars.last().1)
    }
}

proof fn lemma_put_all_last(
    m: Map<Seq<char>, serde_json::Value>,
    vars: Seq<(String, serde_json::Value)>,
    k: Seq<char>,
    j: int,
)
    requires
        0 <= j < vars.len(),
        vars[j].0@ == k,
        forall|i: int| j < i < vars.len() ==> vars[i].0@ != k,
    ensures
        put_all(m, vars).contains_key(k),
        put_all(m, vars)[k] == vars[j].1,
    decreases vars.len(),
{
    let init = vars.drop_last();
    if j < vars.len() - 1 {
        assert(vars[vars.len() - 1].0@ != k);
        assert forall|i: int| j < i < init.len() implies init[i].0@ != k by {
            assert(init[i] == vars[i]);
        }
        lemma_put_all_last(m, init, k, j);
    }
}

proof fn lemma_put_all_untouched(
    m: Map<Seq<char>, serde_json::Value>,
    vars: Seq<(String, serde_json::Value)>,
    k: Seq<char>,
)
    requires
        forall|i: int| 0 <= i < vars.len() ==> vars[i].0@ != k,
    ensures
        put_all(m, vars).contains_key(k) == m.contains_key(k),
        m.contains_key(k) ==> put_all(m, vars)[k] == m[k],
    decreases vars.len(),
{
    if vars.len() > 0 {
        let init = vars.drop_last();
        assert(vars[vars.len() - 1].0@ != k);
        assert forall|i: int| 0 <= i < init.len() implies init[i].0@ != k by {
            assert(init[i] == vars[i]);
        }
        lemma_put_all_untouched(m, init, k);
    }
}

/// Setting several template variables at once: a name ends with the value
/// of its last pair (the pair at `j`, when no later pair names `k`), and a
/// name that no pair mentions keeps what it had.
pub proof fn law_template_variables_last_pair_wins(
    m: Map<Seq<char>, serde_json::Value>,
    vars: Seq<(String, serde_json::Value)>,
    k: Seq<char>,
    j: int,
)
    ensures
        0 <= j < vars.len() && vars[j].0@ == k && (forall|i: int| j < i < vars.len() ==> vars[i].0@ != k)
            ==> put_all(m, vars).contains_key(k) && put_all(m, vars)[k] == vars[j].1,
        (forall|i: int| 0 <= i < vars.len() ==> vars[i].0@ != k) ==> (put_all(m, vars).contains_key(k)
            == m.contains_key(k) && (m.contains_key(k) ==> put_all(m, vars)[k] == m[k])),
{
    if 0 <= j < vars.len() && vars[j].0@ == k && (forall|i: int| j < i < vars.len() ==> vars[i].0@ != k) {
        lemma_put_all_last(m, vars, k, j);
    }
    if forall|i: int| 0 <= i < vars.len() ==> vars[i].0@ != k {
        lemma_put_all_untouched(m, vars, k);
    }
}

/// The variables of a template, or none yet.
pub open spec fn vars_or_empty(v: Option<Map<Seq<char>, serde_json::Value>>) -> Map<Seq<char>, serde_json::Value> {
    match v {
        Some(m) => m,
        None => Map::empty(),
    }
}

/// A Resend template id and the variables used to render it, each variable
/// name held once.
#[derive(Debug)]
pub struct ResendTemplate {
    id: String,
    variables: Option<Vec<(String, serde_json::Value)>>,
}

impl View for ResendTemplate {
    type V = (Seq<char>, Option<Map<Seq<char>, serde_json::Value>>);

    closed spec fn view(&self) -> (Seq<char>, Option<Map<Seq<char>, serde_json::Value>>) {
        (
            self.id@,
            match self.variables {
                Some(vars) => Some(keyed_map(vars@)),
                None => None,
            },
        )
    }
}

impl ResendTemplate {
    #[verifier::type_invariant]
    spec fn names_unique(self) -> bool {
        match self.variables {
            Some(vars) => keys_unique(vars@),
            None => true,
        }
    }

    /// Template settings without variables.
    pub fn new(id: &str) -> (r: ResendTemplate)
        ensures
            r@ == (id@, None::<Map<Seq<char>, serde_json::Value>>),
    {
        ResendTemplate { id: id.to_owned(), variables: None }
    }

    /// The template identifier, for example `tmpl_...`.
    pub fn id(&self) -> (r: &str)
        ensures
            r@ == self@.0,
    {
        self.id.as_str()
    }

    /// The variables, each name once, if any were set.
    pub fn variables(&self) -> (r: Option<&[(String, serde_json::Value)]>)
        ensures
            match self@.1 {
                Some(m) => r matches Some(vars) && keys_unique(vars@) && keyed_map(vars@) == m,
                None => r is None,
            },
    {
        proof {
            use_type_invariant(self);
        }
        match &self.variables {
            Some(vars) => Some(vars.as_slice()),
            None => None,
        }
    }

    /// Inserts or replaces one template variable.
    pub fn with_variable(self, key: &str, value: serde_json::Value) -> (r: ResendTemplate)
        ensures
            r@ == (self@.0, Some(vars_or_empty(self@.1).insert(key@, value))),
    {
        proof {
            use_type_invariant(&self);
        }
        let ResendTemplate { id, variables } = self;
        let mut vars = match variables {
            Some(vars) => vars,
            None => Vec::new(),
        };
        assert(keyed_map(Seq::<(String, serde_json::Value)>::empty()) =~= Map::empty());
        keyed_insert(&mut vars, key, value);
        ResendTemplate { id, variables: Some(vars) }
    }

    /// Inserts or replaces template variables in order; the variables are
    /// set, possibly empty, even when `variables` is.
    pub fn with_variables(self, variables: Vec<(String, serde_json::Value)>) -> (r: ResendTemplate)
        ensures
            r@ == (self@.0, Some(put_all(vars_or_empty(self@.1), variables@))),
    {
        proof {
            use_type_invariant(&self);
        }
        let ghost base = vars_or_empty(self@.1);
        let ghost all = variables@;
        let ResendTemplate { id, variables: current } = self;
        let mut vars = match current {
            Some(vars) => vars,
            None => Vec::new(),
        };
        assert(keyed_map(Seq::<(String, serde_json::Value)>::empty()) =~= Map::empty());
        let mut rest = variables;
        let mut taken: usize = 0;
        assert(all.len() == rest.len());
        assert(all.subrange(0, 0) =~= Seq::<(String, serde_json::Value)>::empty());
        assert(all.subrange(0, all.len() as int) =~= all);
        while rest.len() > 0
            invariant
                keys_unique(vars@),
                taken + rest@.len() == all.len(),
                all.len() <= usize::MAX,
                rest@ == all.subrange(taken as int, all.len() as int),
                keyed_map(vars@) == put_all(base, all.subrange(0, taken as int)),
            decreases rest@.len(),
        {
            let ghost n = taken as int;
            let (k, v) = rest.remove(0);
            assert(all[n] == (k, v));
            keyed_insert(&mut vars, k.as_str(), v);
            taken = taken + 1;
            assert(all.subrange(0, n + 1).drop_last() =~= all.subrange(0, n));
            assert(rest@ =~= all.subrange(n + 1, all.len() as int));
        }
        assert(all.subrange(0, all.len() as int) =~= all);
        ResendTemplate { id, variables: Some(vars) }
    }
}

/// Resend-specific options for one send attempt: dashboard tags and the
/// template to render.
#[derive(Debug)]
pub struct ResendSendOptions {
    /// Dashboard tags, in the order they were added.
    pub tags: Vec<ResendTag>,
    /// Template render settings.
    pub template: Option<ResendTemplate>,
}

/// The name and value of each tag.
pub open spec fn tag_views(tags: Seq<ResendTag>) -> Seq<(Seq<char>, Seq<char>)> {
    Seq::new(tags.len(), |i: int| (tags[i].name@, tags[i].value@))
}

impl ResendSendOptions {
    /// Options with no tags and no template.
    pub fn new() -> (r: ResendSendOptions)
        ensures
            r.tags@.len() == 0,
            r.template is None,
    {
        ResendSendOptions { tags: Vec::new(), template: None }
    }

    /// Appends one dashboard tag.
    pub fn with_tag(self, name: &str, value: &str) -> (r: ResendSendOptions)
        ensures
            tag_views(r.tags@) == tag_views(self.tags@).push((name@, value@)),
            r.template == self.template,
    {
        let mut s = self;
        s.tags.push(ResendTag::new(name, value));
        assert(tag_views(s.tags@) =~= tag_views(self.tags@).push((name@, value@)));
        s
    }

    /// Appends dashboard tags in order.
    pub fn with_tags(self, tags: Vec<ResendTag>) -> (r: ResendSendOptions)
        ensures
            tag_views(r.tags@) == tag_views(self.tags@) + tag_views(tags@),
            r.template == self.template,
    {
        let mut s = self;
        let mut more = tags;
        s.tags.append(&mut more);
        assert(tag_views(s.tags@) =~= tag_views(self.tags@) + tag_views(tags@));
        s
    }

    /// Sets the template render settings.
    pub fn with_template(self, template: ResendTemplate) -> (r: ResendSendOptions)
        ensures
            r.tags == self.tags,
            r.template == Some(template),
    {
        ResendSendOptions { tags: self.tags, template: Some(template) }
    }

    /// Whether neither tags nor a template are set.
    pub fn is_empty(&self) -> (r: bool)
        ensures
            r == (self.tags@.len() == 0 && self.template is None),
    {
        self.tags.len() == 0 && self.template.is_none()
    }
}

impl Default for ResendSendOptions {
    fn default() -> (r: ResendSendOptions)
        ensures
            r.tags@.len() == 0,
            r.template is None,
    {
        ResendSendOptions::new()
    }
}

pub open spec fn string_views(s: Seq<String>) -> Seq<Seq<char>> {
    Seq::new(s.len(), |i: int| s[i]@)
}

/// The displayed mailboxes of an address list, groups flattened.
pub open spec fn displayed_mailboxes(ms: Seq<MailboxView>) -> Seq<Seq<char>> {
    Seq::new(ms.len(), |i: int| display_mailbox(ms[i]))
}

/// The recipient strings of `addresses`: each mailbox as it displays,
/// groups flattened to their members.
pub fn collect_mailboxes(addresses: &[Address]) -> (r: Vec<String>)
    ensures
        string_views(r@) == displayed_mailboxes(flat_mailboxes(address_views(addresses@))),
{
    let ghost av = address_views(addresses@);
    let mut out: Vec<String> = Vec::new();
    let mut i: usize = 0;
    assert(av.subrange(0, 0) =~= Seq::<AddressView>::empty());
    assert(string_views(out@) =~= displayed_mailboxes(flat_mailboxes(av.subrange(0, 0))));
    while i < addresses.len()
        invariant
            i <= addresses@.len(),
            av == address_views(addresses@),
            string_views(out@) == displayed_mailboxes(flat_mailboxes(av.subrange(0, i as int))),
        decreases addresses@.len() - i,
    {
        let ms = addresses[i].mailboxes();
        let ghost im = item_mailboxes(av[i as int]);
        let ghost prefix = flat_mailboxes(av.subrange(0, i as int));
        let mut j: usize = 0;
        assert(im.subrange(0, 0) =~= Seq::<MailboxView>::empty());
        assert(prefix + im.subrange(0, 0) =~= prefix);
        while j < ms.len()
            invariant
                j <= ms@.len(),
                ms@.len() == im.len(),
                forall|k: int| 0 <= k < ms@.len() ==> (#[trigger] ms@[k])@ == im[k],
                string_views(out@) == displayed_mailboxes(prefix + im.subrange(0, j as int)),
            decreases ms@.len() - j,
        {
            let s = ms[j].to_string();
            let ghost prev = out@;
            out.push(s);
            assert(string_views(out@) =~= displayed_mailboxes(prefix + im.subrange(0, j + 1))) by {
                assert(string_views(out@) =~= string_views(prev).push(s@));
                assert(prefix + im.subrange(0, j + 1) =~= (prefix + im.subrange(0, j as int)).push(im[j as int]));
            }
            j = j + 1;
        }
        proof {
            let pre = av.subrange(0, i + 1);
            assert(pre.drop_last() =~= av.subrange(0, i as int));
            assert(im.subrange(0, im.len() as int) =~= im);
        }
        i = i + 1;
    }
    assert(av.subrange(0, av.len() as int) =~= av);
    out
}

/// What the Resend mapping reports for a body it cannot send.
pub open spec fn unsupported_body_message() -> Seq<char> {
    "non-text/html body is not supported by resend structured endpoint"@
}

/// The text and HTML parts of a body, each dropped when empty.
pub open spec fn resend_body_parts(b: BodyView) -> Option<(Option<Seq<char>>, Option<Seq<char>>)> {
    match b {
        BodyView::Text(t) => Some((non_empty_spec(t), None)),
        BodyView::Html(h) => Some((None, non_empty_spec(h))),
        BodyView::TextAndHtml(t, h) => Some((non_empty_spec(t), non_empty_spec(h))),
        BodyView::Mime(_) => None,
    }
}

/// The text and HTML parts of `body`; a MIME body is unsupported.
pub fn map_body(body: &Body) -> (r: Result<(Option<String>, Option<String>), DeliveryError>)
    ensures
        match resend_body_parts(body_view(*body)) {
            Some((t, h)) => r matches Ok((rt, rh)) && opt_string_view(rt) == t && opt_string_view(rh) == h,
            None => r matches Err(e) && e@ == (DeliveryErrorView {
                kind: DeliveryErrorKind::UnsupportedFeature,
                message: unsupported_body_message(),
                provider_error_code: None,
                source: None,
                http_status: None,
                retry_after_secs: None,
            }),
        },
{
    match body {
        Body::Text(text) => Ok((non_empty(text.as_str()), None)),
        Body::Html(html) => Ok((None, non_empty(html.as_str()))),
        Body::TextAndHtml { text, html } => Ok((non_empty(text.as_str()), non_empty(html.as_str()))),
        Body::Mime(_) => Err(
            DeliveryError::new(
                DeliveryErrorKind::UnsupportedFeature,
                "non-text/html body is not supported by resend structured endpoint",
            ),
        ),
    }
}

/// Whether a message can be sent: it needs a text or HTML part, or a
/// template to render.
pub fn check_content(has_text_or_html: bool, has_template: bool) -> (r: Result<(), DeliveryError>)
    ensures
        (has_text_or_html || has_template) ==> r is Ok,
        !(has_text_or_html || has_template) ==> (r matches Err(e) && e@ == (DeliveryErrorView {
            kind: DeliveryErrorKind::Validation,
            message: "resend requires text/html body or template"@,
            provider_error_code: None,
            source: None,
            http_status: None,
            retry_after_secs: None,
        })),
{
    if !has_text_or_html && !has_template {
        return Err(DeliveryError::new(DeliveryErrorKind::Validation, "resend requires text/html body or template"));
    }
    Ok(())
}

/// A byte-backed attachment as Resend receives it.
#[derive(Clone, Debug, PartialEq, Eq)]
pub struct ResendAttachment {
    pub content: Vec<u8>,
    pub content_type: String,
    pub filename: Option<String>,
    pub content_id: Option<String>,
}

/// What a reference-backed attachment is answered with.
pub open spec fn reference_message() -> Seq<char> {
    "AttachmentBody variant not supported by structured Resend endpoint; wrap the transport in `email_attachment::ResolvingTransport` or call `email_attachment::prepare_attachments` before send"@
}

/// Maps one attachment: its bytes, content type, and filename and content id
/// where it has them; a reference-backed attachment is unsupported.
pub fn map_attachment(attachment: &Attachment) -> (r: Result<ResendAttachment, DeliveryError>)
    ensures
        match attachment@.body {
            AttachmentBodyView::Bytes(content) => r matches Ok(x) && x.content@ == content && x.content_type@
                == attachment@.content_type && opt_string_view(x.filename) == attachment@.filename
                && opt_string_view(x.content_id) == attachment@.content_id,
            AttachmentBodyView::Reference(_) => r matches Err(e) && e@ == (DeliveryErrorView {
                kind: DeliveryErrorKind::UnsupportedFeature,
                message: reference_message(),
                provider_error_code: None,
                source: None,
                http_status: None,
                retry_after_secs: None,
            }),
        },
{
    let content = match attachment.body() {
        AttachmentBody::Bytes(content) => content,
        AttachmentBody::Reference(_) => {
            return Err(
                DeliveryError::new(
                    DeliveryErrorKind::UnsupportedFeature,
                    "AttachmentBody variant not supported by structured Resend endpoint; wrap the transport in `email_attachment::ResolvingTransport` or call `email_attachment::prepare_attachments` before send",
                ),
            );
        },
    };
    Ok(ResendAttachment {
        content: content.clone(),
        content_type: attachment.content_type().to_string(),
        filename: match attachment.filename() {
            Some(f) => Some(f.to_owned()),
            None => None,
        },
        content_id: match attachment.content_id() {
            Some(c) => Some(c.to_owned()),
            None => None,
        },
    })
}

/// The attachment as Resend receives it, as plain values.
pub struct ResendAttachmentView {
    pub content: Seq<u8>,
    pub content_type: Seq<char>,
    pub filename: Option<Seq<char>>,
    pub content_id: Option<Seq<char>>,
}

impl View for ResendAttachment {
    type V = ResendAttachmentView;

    open spec fn view(&self) -> ResendAttachmentView {
        ResendAttachmentView {
            content: self.content@,
            content_type: self.content_type@,
            filename: opt_string_view(self.filename),
            content_id: opt_string_view(self.content_id),
        }
    }
}

/// The attachments as Resend receives them, or `None` when one of them is
/// reference-backed.
pub open spec fn resend_attachments_of(atts: Seq<AttachmentView>) -> Option<Seq<ResendAttachmentView>>
    decreases atts.len(),
{
    if atts.len() == 0 {
        Some(seq![])
    } else {
        match (resend_attachments_of(atts.drop_last()), atts.last().body) {
            (Some(done), AttachmentBodyView::Bytes(content)) => Some(
                done.push(
                    ResendAttachmentView {
                        content,
                        content_type: atts.last().content_type,
                        filename: atts.last().filename,
                        content_id: atts.last().content_id,
                    },
                ),
            ),
            _ => None,
        }
    }
}

/// The header object sent to Resend: the entries put in order into a map
/// ordered by name, a later value for the same name replacing an earlier.
pub open spec fn header_map(hs: Seq<(Seq<char>, Seq<char>)>) -> Seq<(Seq<char>, Seq<char>)>
    decreases hs.len(),
{
    if hs.len() == 0 {
        seq![]
    } else {
        sorted_put(header_map(hs.drop_last()), hs.last().0, hs.last().1)
    }
}

/// The value of the last entry of `hs` named exactly `n`.
pub open spec fn exact_last_value(hs: Seq<(Seq<char>, Seq<char>)>, n: Seq<char>) -> Seq<char>
    decreases hs.len(),
{
    if hs.len() == 0 {
        seq![]
    } else if hs.last().0 == n {
        hs.last().1
    } else {
        exact_last_value(hs.drop_last(), n)
    }
}

/// The header object sent to Resend: names in strictly increasing order
/// (so none twice); every header given is there under its own name with the
/// value of the last header so named, so a message header replaces a
/// standard header of the same name; and every entry comes from a header
/// given.
pub proof fn law_resend_header_map(hs: Seq<(Seq<char>, Seq<char>)>)
    ensures
        names_sorted(header_map(hs)),
        forall|j: int| 0 <= j < hs.len() ==> holds(header_map(hs), (#[trigger] hs[j].0, exact_last_value(hs, hs[j].0))),
        forall|i: int| 0 <= i < header_map(hs).len() ==> exists|j: int| 0 <= j < hs.len() && (#[trigger] header_map(hs)[i]).0 == hs[j].0,
    decreases hs.len(),
{
    if hs.len() == 0 {
        return;
    }
    let h = hs.drop_last();
    law_resend_header_map(h);
    let acc = header_map(h);
    let n = hs.last().0;
    let v = hs.last().1;
    let o = header_map(hs);
    assert(o == sorted_put(acc, n, v));
    lemma_sorted_put(acc, n, v);
    assert forall|j: int| 0 <= j < hs.len() implies holds(o, (#[trigger] hs[j].0, exact_last_value(hs, hs[j].0))) by {
        if hs[j].0 == n {
            assert(exact_last_value(hs, hs[j].0) == v);
        } else {
            assert(hs[j] == h[j]);
            assert(exact_last_value(hs, hs[j].0) == exact_last_value(h, h[j].0));
            assert(holds(acc, (h[j].0, exact_last_value(h, h[j].0))));
            let q = choose|q: int| 0 <= q < acc.len() && acc[q] == (h[j].0, exact_last_value(h, h[j].0));
            assert(acc[q].0 != n);
        }
    }
    assert forall|i: int| 0 <= i < o.len() implies exists|j: int| 0 <= j < hs.len() && (#[trigger] o[i]).0 == hs[j].0 by {
        if o[i] == (n, v) {
            assert(hs[hs.len() - 1].0 == o[i].0);
        } else {
            let q = choose|q: int| 0 <= q < acc.len() && acc[q] == o[i];
            let j = choose|j: int| 0 <= j < h.len() && (#[trigger] acc[q]).0 == h[j].0;
            assert(hs[j] == h[j]);
        }
    }
}

/// Why an email cannot be handed to Resend, in the order it is checked.
#[derive(Clone, Copy, Debug, PartialEq, Eq)]
pub enum ResendDefect {
    MissingFrom,
    NoRecipients,
    UnsupportedBody,
    ReferenceAttachment,
    NoContent,
}

/// The error reported for each defect.
pub open spec fn resend_defect_error(d: ResendDefect) -> DeliveryErrorView {
    match d {
        ResendDefect::MissingFrom => DeliveryErrorView {
            kind: DeliveryErrorKind::Validation,
            message: "missing From mailbox"@,
            provider_error_code: None,
            source: None,
            http_status: None,
            retry_after_secs: None,
        },
        ResendDefect::NoRecipients => DeliveryErrorView {
            kind: DeliveryErrorKind::Validation,
            message: "at least one recipient is required"@,
            provider_error_code: None,
            source: None,
            http_status: None,
            retry_after_secs: None,
        },
        ResendDefect::UnsupportedBody => DeliveryErrorView {
            kind: DeliveryErrorKind::UnsupportedFeature,
            message: unsupported_body_message(),
            provider_error_code: None,
            source: None,
            http_status: None,
            retry_after_secs: None,
        },
        ResendDefect::ReferenceAttachment => DeliveryErrorView {
            kind: DeliveryErrorKind::UnsupportedFeature,
            message: reference_message(),
            provider_error_code: None,
            source: None,
            http_status: None,
            retry_after_secs: None,
        },
        ResendDefect::NoContent => DeliveryErrorView {
            kind: DeliveryErrorKind::Validation,
            message: "resend requires text/html body or template"@,
            provider_error_code: None,
            source: None,
            http_status: None,
            retry_after_secs: None,
        },
    }
}

/// What Resend is asked to send, as plain values (tags and template
/// aside, which are handed over as they were given).
pub struct ResendEmailView {
    pub from: Seq<char>,
    pub to: Seq<Seq<char>>,
    pub cc: Seq<Seq<char>>,
    pub bcc: Seq<Seq<char>>,
    pub subject: Seq<char>,
    pub text: Option<Seq<char>>,
    pub html: Option<Seq<char>>,
    pub reply_to: Seq<Seq<char>>,
    pub headers: Seq<(Seq<char>, Seq<char>)>,
    pub attachments: Seq<ResendAttachmentView>,
}

/// The email for message `m`, given the standard headers that go first and
/// whether a template is set, or the first defect.
pub open spec fn resend_email_of(m: MessageView, standard: Seq<(Seq<char>, Seq<char>)>, has_template: bool) -> Result<
    ResendEmailView,
    ResendDefect,
> {
    let to = displayed_mailboxes(flat_mailboxes(m.to));
    let cc = displayed_mailboxes(flat_mailboxes(m.cc));
    let bcc = displayed_mailboxes(flat_mailboxes(m.bcc));
    if m.from is None {
        Err(ResendDefect::MissingFrom)
    } else if to.len() == 0 && cc.len() == 0 && bcc.len() == 0 {
        Err(ResendDefect::NoRecipients)
    } else {
        match resend_body_parts(m.body) {
            None => Err(ResendDefect::UnsupportedBody),
            Some((text, html)) => match resend_attachments_of(m.attachments) {
                None => Err(ResendDefect::ReferenceAttachment),
                Some(atts) => if text is None && html is None && !has_template {
                    Err(ResendDefect::NoContent)
                } else {
                    Ok(
                        ResendEmailView {
                            from: display_mailbox(m.from->0),
                            to,
                            cc,
                            bcc,
                            subject: match m.subject {
                                Some(s) => s,
                                None => seq![],
                            },
                            text,
                            html,
                            reply_to: displayed_mailboxes(flat_mailboxes(m.reply_to)),
                            headers: header_map(standard + m.headers),
                            attachments: atts,
                        },
                    )
                },
            },
        }
    }
}

/// An email as it is handed to the Resend API.
#[derive(Debug)]
pub struct ResendEmail {
    pub from: String,
    pub to: Vec<String>,
    pub cc: Vec<String>,
    pub bcc: Vec<String>,
    pub subject: String,
    pub text: Option<String>,
    pub html: Option<String>,
    /// Reply-To mailboxes; none are set when empty.
    pub reply_to: Vec<String>,
    /// Header object, ordered by name.
    pub headers: Vec<(String, String)>,
    pub attachments: Vec<ResendAttachment>,
    pub tags: Vec<ResendTag>,
    pub template: Option<ResendTemplate>,
}

pub open spec fn resend_attachment_views(s: Seq<ResendAttachment>) -> Seq<ResendAttachmentView> {
    Seq::new(s.len(), |i: int| s[i]@)
}

impl ResendEmail {
    pub open spec fn core_view(&self) -> ResendEmailView {
        ResendEmailView {
            from: self.from@,
            to: string_views(self.to@),
            cc: string_views(self.cc@),
            bcc: string_views(self.bcc@),
            subject: self.subject@,
            text: opt_string_view(self.text),
            html: opt_string_view(self.html),
            reply_to: string_views(self.reply_to@),
            headers: pair_views(self.headers@),
            attachments: resend_attachment_views(self.attachments@),
        }
    }
}

fn resend_defect(d: ResendDefect) -> (r: DeliveryError)
    ensures
        r@ == resend_defect_error(d),
{
    match d {
        ResendDefect::MissingFrom => DeliveryError::new(DeliveryErrorKind::Validation, "missing From mailbox"),
        ResendDefect::NoRecipients => DeliveryError::new(
            DeliveryErrorKind::Validation,
            "at least one recipient is required",
        ),
        ResendDefect::UnsupportedBody => DeliveryError::new(
            DeliveryErrorKind::UnsupportedFeature,
            "non-text/html body is not supported by resend structured endpoint",
        ),
        ResendDefect::ReferenceAttachment => DeliveryError::new(
            DeliveryErrorKind::UnsupportedFeature,
            "AttachmentBody variant not supported by structured Resend endpoint; wrap the transport in `email_attachment::ResolvingTransport` or call `email_attachment::prepare_attachments` before send",
        ),
        ResendDefect::NoContent => DeliveryError::new(
            DeliveryErrorKind::Validation,
            "resend requires text/html body or template",
        ),
    }
}

/// The header object for `standard` then `custom` headers.
fn collect_header_map(standard: &[Header], custom: &[Header]) -> (r: Vec<(String, String)>)
    ensures
        pair_views(r@) == header_map(header_views(standard@) + header_views(custom@)),
{
    let ghost sv = header_views(standard@);
    let ghost cv = header_views(custom@);
    let mut out: Vec<(String, String)> = Vec::new();
    let mut i: usize = 0;
    assert(sv.take(0) =~= Seq::<(Seq<char>, Seq<char>)>::empty());
    assert(pair_views(out@) =~= Seq::<(Seq<char>, Seq<char>)>::empty());
    while i < standard.len()
        invariant
            i <= standard@.len(),
            sv == header_views(standard@),
            pair_views(out@) == header_map(sv.take(i as int)),
        decreases standard@.len() - i,
    {
        assert(sv.take(i + 1).drop_last() =~= sv.take(i as int));
        assert(sv.take(i + 1).last() == sv[i as int]);
        put_sorted(&mut out, standard[i].name().to_owned(), standard[i].value().to_owned());
        i = i + 1;
    }
    assert(sv.take(standard@.len() as int) =~= sv);
    let mut j: usize = 0;
    assert(sv + cv.take(0) =~= sv);
    while j < custom.len()
        invariant
            j <= custom@.len(),
            sv == header_views(standard@),
            cv == header_views(custom@),
            pair_views(out@) == header_map(sv + cv.take(j as int)),
        decreases custom@.len() - j,
    {
        assert((sv + cv.take(j + 1)).drop_last() =~= sv + cv.take(j as int));
        assert((sv + cv.take(j + 1)).last() == cv[j as int]);
        put_sorted(&mut out, custom[j].name().to_owned(), custom[j].value().to_owned());
        j = j + 1;
    }
    assert(cv.take(custom@.len() as int) =~= cv);
    out
}

/// The attachments as Resend receives them; a reference-backed one is
/// unsupported.
fn map_attachments(attachments: &[Attachment]) -> (r: Result<Vec<ResendAttachment>, DeliveryError>)
    ensures
        match resend_attachments_of(attachment_views(attachments@)) {
            Some(atts) => r matches Ok(v) && resend_attachment_views(v@) == atts,
            None => r matches Err(e) && e@ == resend_defect_error(ResendDefect::ReferenceAttachment),
        },
{
    let ghost views = attachment_views(attachments@);
    let mut out: Vec<ResendAttachment> = Vec::new();
    let mut i: usize = 0;
    assert(views.take(0) =~= Seq::<AttachmentView>::empty());
    assert(resend_attachment_views(out@) =~= Seq::<ResendAttachmentView>::empty());
    while i < attachments.len()
        invariant
            i <= attachments@.len(),
            views == attachment_views(attachments@),
            resend_attachments_of(views.take(i as int)) == Some(resend_attachment_views(out@)),
        decreases attachments@.len() - i,
    {
        assert(views.take(i + 1).drop_last() =~= views.take(i as int));
        assert(views.take(i + 1).last() == attachments@[i as int]@);
        match map_attachment(&attachments[i]) {
            Ok(a) => {
                let ghost prev = out@;
                out.push(a);
                assert(resend_attachment_views(out@) =~= resend_attachment_views(prev).push(a@));
            },
            Err(e) => {
                proof {
                    lemma_resend_attachments_stop(views, i + 1);
                }
                return Err(e);
            },
        }
        i = i + 1;
    }
    assert(views.take(attachments@.len() as int) =~= views);
    Ok(out)
}

proof fn lemma_resend_attachments_stop(atts: Seq<AttachmentView>, n: int)
    requires
        0 <= n <= atts.len(),
        resend_attachments_of(atts.take(n)) is None,
    ensures
        resend_attachments_of(atts) is None,
    decreases atts.len() - n,
{
    if n < atts.len() {
        assert(atts.take(n + 1).drop_last() =~= atts.take(n));
        lemma_resend_attachments_stop(atts, n + 1);
    } else {
        assert(atts.take(n) =~= atts);
    }
}

/// Builds the email handed to Resend from a message, the Resend options of
/// the send (if any) and the standard headers derived from the message,
/// which go before the message's own headers. The checks come in this
/// order: a From mailbox, at least one recipient, a text or HTML body
/// (a MIME body is unsupported), byte-backed attachments, and finally some
/// content: a non-empty text or HTML part, or a template.
pub fn build_email_options(message: &Message, options: Option<ResendSendOptions>, standard: &[Header]) -> (r: Result<
    ResendEmail,
    DeliveryError,
>)
    ensures
        match resend_email_of(
            message@,
            header_views(standard@),
            options matches Some(o) && o.template is Some,
        ) {
            Ok(v) => r matches Ok(x) && x.core_view() == v && (match options {
                Some(o) => x.tags == o.tags && x.template == o.template,
                None => x.tags@.len() == 0 && x.template is None,
            }),
            Err(d) => r matches Err(e) && e@ == resend_defect_error(d),
        },
{
    let from = match message.from_mailbox() {
        Some(m) => m.to_string(),
        None => return Err(resend_defect(ResendDefect::MissingFrom)),
    };
    let to = collect_mailboxes(message.to());
    let cc = collect_mailboxes(message.cc());
    let bcc = collect_mailboxes(message.bcc());
    if to.len() == 0 && cc.len() == 0 && bcc.len() == 0 {
        return Err(resend_defect(ResendDefect::NoRecipients));
    }
    let subject = match message.subject() {
        Some(s) => s.to_owned(),
        None => String::new(),
    };
    let (text, html) = match map_body(message.body()) {
        Ok(parts) => parts,
        Err(e) => return Err(e),
    };
    let reply_to = collect_mailboxes(message.reply_to());
    let headers = collect_header_map(standard, message.headers());
    let attachments = match map_attachments(message.attachments()) {
        Ok(a) => a,
        Err(e) => return Err(e),
    };
    let (tags, template) = match options {
        Some(o) => (o.tags, o.template),
        None => (Vec::new(), None),
    };
    if let Err(e) = check_content(text.is_some() || html.is_some(), template.is_some()) {
        return Err(e);
    }
    Ok(ResendEmail { from, to, cc, bcc, subject, text, html, reply_to, headers, attachments, tags, template })
}


// ---------------------------------------------------------------------------
// Client failures
// ---------------------------------------------------------------------------

/// A failure of the Resend client, as plain values.
#[derive(Debug)]
pub enum ResendFailure {
    /// The HTTP request failed: it timed out, could not be built, or broke
    /// on the way; `message` describes it.
    Http { timeout: bool, builder: bool, message: String },
    /// Resend answered with an error body: the status it states, its
    /// message and the error's name.
    Api { status_code: u16, message: String, name: String },
    /// The answer could not be read.
    Parse { message: String },
    /// Any other failure of the client.
    Other { message: String },
    /// Resend throttled the request; `reset_secs` is when the limit resets,
    /// if it said.
    RateLimit { reset_secs: Option<u64> },
}

/// The delivery error for a Resend client failure. `status_kind` is the
/// category of the HTTP status an error body states, and `description` the
/// client failure's own text, kept as the source.
pub open spec fn resend_failure_error(f: ResendFailure, status_kind: DeliveryErrorKind, description: Seq<char>) -> DeliveryErrorView {
    match f {
        ResendFailure::Http { timeout, builder, message } => DeliveryErrorView {
            kind: if timeout {
                DeliveryErrorKind::Timeout
            } else if builder {
                DeliveryErrorKind::Validation
            } else {
                DeliveryErrorKind::TransientNetwork
            },
            message: message@,
            provider_error_code: None,
            source: Some(description),
            http_status: None,
            retry_after_secs: None,
        },
        ResendFailure::Api { status_code, message, name } => DeliveryErrorView {
            kind: if status_code >= 400 {
                status_kind
            } else {
                DeliveryErrorKind::TransientProvider
            },
            message: message@,
            provider_error_code: Some(name@),
            source: Some(description),
            http_status: if status_code >= 400 {
                Some(status_code)
            } else {
                None
            },
            retry_after_secs: None,
        },
        ResendFailure::Parse { message } => DeliveryErrorView {
            kind: DeliveryErrorKind::TransientProvider,
            message: message@,
            provider_error_code: None,
            source: Some(description),
            http_status: None,
            retry_after_secs: None,
        },
        ResendFailure::Other { message } => DeliveryErrorView {
            kind: DeliveryErrorKind::Internal,
            message: message@,
            provider_error_code: None,
            source: Some(description),
            http_status: None,
            retry_after_secs: None,
        },
        ResendFailure::RateLimit { reset_secs } => DeliveryErrorView {
            kind: DeliveryErrorKind::RateLimited,
            message: "resend rate limit exceeded"@,
            provider_error_code: Some("rate_limit_exceeded"@),
            source: Some(description),
            http_status: Some(429),
            retry_after_secs: reset_secs,
        },
    }
}

/// Classifies a Resend client failure. A status that an error body states
/// below 400 is not reported as the HTTP status, and the failure counts as
/// a transient provider failure; from 400 on, `status_kind` (the category of
/// that status) decides.
pub fn map_resend_error(failure: ResendFailure, status_kind: DeliveryErrorKind, description: &str) -> (r: DeliveryError)
    ensures
        r@ == resend_failure_error(failure, status_kind, description@),
{
    let ghost f = failure;
    let mapped = match failure {
        ResendFailure::Http { timeout, builder, message } => {
            let kind = if timeout {
                DeliveryErrorKind::Timeout
            } else if builder {
                DeliveryErrorKind::Validation
            } else {
                DeliveryErrorKind::TransientNetwork
            };
            DeliveryError::new(kind, message.as_str())
        },
        ResendFailure::Api { status_code, message, name } => {
            let e = if status_code >= 400 {
                DeliveryError::new(status_kind, message.as_str()).with_http_status(status_code)
            } else {
                DeliveryError::new(DeliveryErrorKind::TransientProvider, message.as_str())
            };
            e.with_provider_error_code(name.as_str())
        },
        ResendFailure::Parse { message } => DeliveryError::new(DeliveryErrorKind::TransientProvider, message.as_str()),
        ResendFailure::Other { message } => DeliveryError::new(DeliveryErrorKind::Internal, message.as_str()),
        ResendFailure::RateLimit { reset_secs } => {
            let e = DeliveryError::new(DeliveryErrorKind::RateLimited, "resend rate limit exceeded")
                .with_http_status(429)
                .with_provider_error_code("rate_limit_exceeded");
            match reset_secs {
                Some(secs) => e.with_retry_after_secs(secs),
                None => e,
            }
        },
    };
    mapped.with_source(description)
}

} // verus!
