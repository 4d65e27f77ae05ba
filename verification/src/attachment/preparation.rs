//! Materializing reference-backed attachments, one reference at a time, under
//! a size policy; and the decisions of the transport decorator that does it
//! before delivery.
use vstd::prelude::*;
use crate::attachment::{
    AttachmentResolveError, LimitBreach, PreparationLimits, ResolveErrorKind, ResolvedAttachment, admit_size,
    breach_reported, delivery_kind_of, size_step,
};
use crate::delivery::DeliveryErrorKind;
use crate::message::{
    Attachment, AttachmentBody, AttachmentBodyView, AttachmentReference, AttachmentView, Message, MessageView,
    OutboundMessage, attachment_defect, attachment_views, validation_defect,
};

verus! {

// ---------------------------------------------------------------------------
// Size pass over byte-backed attachments
// ---------------------------------------------------------------------------

/// The size checks over the byte-backed attachments of `atts`, in order,
/// starting from a total of zero: the final total, or the first limit broken.
pub open spec fn byte_pass(atts: Seq<AttachmentView>, limits: PreparationLimits) -> Result<nat, LimitBreach>
    decreases atts.len(),
{
    if atts.len() == 0 {
        Ok(0)
    } else {
        match byte_pass(atts.drop_last(), limits) {
            Err(b) => Err(b),
            Ok(t) => match atts.last().body {
                AttachmentBodyView::Bytes(x) => size_step(t, x.len(), limits),
                AttachmentBodyView::Reference(_) => Ok(t),
            },
        }
    }
}

/// Some attachment of `atts` is still a reference.
pub open spec fn has_references(atts: Seq<AttachmentView>) -> bool {
    exists|i: int| 0 <= i < atts.len() && (#[trigger] atts[i]).body is Reference
}

/// Runs `byte_pass` over `atts`.
fn byte_total(atts: &[Attachment], limits: &PreparationLimits) -> (r: Result<usize, AttachmentResolveError>)
    ensures
        match byte_pass(attachment_views(atts@), *limits) {
            Ok(t) => r matches Ok(x) && x as nat == t,
            Err(b) => r matches Err(e) && breach_reported(e@, b),
        },
{
    let ghost views = attachment_views(atts@);
    let mut total: usize = 0;
    let mut i: usize = 0;
    assert(views.take(0) =~= Seq::<AttachmentView>::empty());
    while i < atts.len()
        invariant
            i <= atts@.len(),
            views == attachment_views(atts@),
            byte_pass(views.take(i as int), *limits) == Ok::<nat, LimitBreach>(total as nat),
        decreases atts@.len() - i,
    {
        assert(views.take(i + 1).drop_last() =~= views.take(i as int));
        assert(views.take(i + 1).last() == atts@[i as int]@);
        match atts[i].body() {
            AttachmentBody::Bytes(bytes) => {
                match admit_size(total, bytes.len(), limits) {
                    Ok(t) => {
                        total = t;
                    },
                    Err(e) => {
                        proof {
                            lemma_byte_pass_stops(views, *limits, i + 1);
                        }
                        return Err(e);
                    },
                }
            },
            AttachmentBody::Reference(_) => {},
        }
        i = i + 1;
    }
    assert(views.take(atts@.len() as int) =~= views);
    Ok(total)
}

/// Once the pass has failed on a prefix, it fails the same way on the whole.
proof fn lemma_byte_pass_stops(atts: Seq<AttachmentView>, limits: PreparationLimits, n: int)
    requires
        0 <= n <= atts.len(),
        byte_pass(atts.take(n), limits) is Err,
    ensures
        byte_pass(atts, limits) == byte_pass(atts.take(n), limits),
    decreases atts.len() - n,
{
    if n < atts.len() {
        assert(atts.take(n + 1).drop_last() =~= atts.take(n));
        lemma_byte_pass_stops(atts, limits, n + 1);
    } else {
        assert(atts.take(n) =~= atts);
    }
}

/// Whether any attachment of `message` is still a reference.
pub fn has_attachment_references(message: &OutboundMessage) -> (r: bool)
    ensures
        r == has_references(message.message_view().attachments),
{
    let atts = message.as_message().attachments();
    let ghost views = attachment_views(atts@);
    let mut i: usize = 0;
    while i < atts.len()
        invariant
            i <= atts@.len(),
            views == attachment_views(atts@),
            views == message.message_view().attachments,
            forall|j: int| 0 <= j < i ==> !(views[j].body is Reference),
        decreases atts@.len() - i,
    {
        match atts[i].body() {
            AttachmentBody::Reference(_) => {
                assert(views[i as int].body is Reference);
                return true;
            },
            AttachmentBody::Bytes(_) => {},
        }
        i = i + 1;
    }
    false
}

/// Holds the byte-backed attachments of `message` to the size policy.
pub fn enforce_limits(message: &OutboundMessage, limits: &PreparationLimits) -> (r: Result<(), AttachmentResolveError>)
    ensures
        match byte_pass(message.message_view().attachments, *limits) {
            Ok(_) => r is Ok,
            Err(b) => r matches Err(e) && breach_reported(e@, b),
        },
{
    match byte_total(message.as_message().attachments(), limits) {
        Ok(_) => Ok(()),
        Err(e) => Err(e),
    }
}

// ---------------------------------------------------------------------------
// Validation only reads attachment metadata
// ---------------------------------------------------------------------------

/// Two attachment lists with the same filenames and content ids, in order.
pub open spec fn same_metadata(a: Seq<AttachmentView>, b: Seq<AttachmentView>) -> bool {
    &&& a.len() == b.len()
    &&& forall|i: int| 0 <= i < a.len() ==> (#[trigger] a[i]).filename == b[i].filename && a[i].content_id == b[i].content_id
}

proof fn lemma_attachment_defect_metadata(a: Seq<AttachmentView>, b: Seq<AttachmentView>, i: int)
    requires
        same_metadata(a, b),
        0 <= i,
    ensures
        attachment_defect(a, i) == attachment_defect(b, i),
    decreases a.len() - i,
{
    if i < a.len() {
        assert(a[i].filename == b[i].filename && a[i].content_id == b[i].content_id);
        lemma_attachment_defect_metadata(a, b, i + 1);
    }
}

/// A message passes validation whatever its attachments hold, as long as
/// their filenames and content ids stay the same.
pub proof fn lemma_validation_ignores_attachment_bodies(m: MessageView, atts: Seq<AttachmentView>)
    requires
        same_metadata(m.attachments, atts),
    ensures
        validation_defect(MessageView { attachments: atts, ..m }) == validation_defect(m),
{
    lemma_attachment_defect_metadata(m.attachments, atts, 0);
}

// ---------------------------------------------------------------------------
// Step-by-step preparation
// ---------------------------------------------------------------------------

/// The bytes an attachment contributes to the total: its length when
/// byte-backed, nothing while it is a reference.
pub open spec fn contribution(a: AttachmentView) -> nat {
    match a.body {
        AttachmentBodyView::Bytes(x) => x.len(),
        AttachmentBodyView::Reference(_) => 0,
    }
}

/// The total bytes of the byte-backed attachments of `atts`.
pub open spec fn bytes_sum(atts: Seq<AttachmentView>) -> nat
    decreases atts.len(),
{
    if atts.len() == 0 {
        0
    } else {
        bytes_sum(atts.drop_last()) + contribution(atts.last())
    }
}

/// Every byte-backed attachment of `atts` is within the per-attachment
/// limit.
pub open spec fn each_within(atts: Seq<AttachmentView>, limits: PreparationLimits) -> bool {
    forall|i: int| 0 <= i < atts.len() ==> (limits.max_attachment_bytes matches Some(l) ==> contribution(#[trigger] atts[i]) <= l)
}

/// `atts` keeps to `limits`: each attachment and the total.
pub open spec fn within_limits(atts: Seq<AttachmentView>, limits: PreparationLimits) -> bool {
    &&& each_within(atts, limits)
    &&& (limits.max_total_bytes matches Some(l) ==> bytes_sum(atts) <= l)
}

proof fn lemma_byte_pass_ok(atts: Seq<AttachmentView>, limits: PreparationLimits)
    requires
        byte_pass(atts, limits) is Ok,
    ensures
        byte_pass(atts, limits) == Ok::<nat, LimitBreach>(bytes_sum(atts)),
        within_limits(atts, limits),
    decreases atts.len(),
{
    if atts.len() > 0 {
        lemma_byte_pass_ok(atts.drop_last(), limits);
        assert forall|i: int| 0 <= i < atts.len() implies (limits.max_attachment_bytes matches Some(l) ==> contribution(#[trigger] atts[i]) <= l) by {
            if i < atts.len() - 1 {
                assert(atts[i] == atts.drop_last()[i]);
            }
        }
    }
}

proof fn lemma_bytes_sum_update(s: Seq<AttachmentView>, i: int, x: AttachmentView)
    requires
        0 <= i < s.len(),
    ensures
        bytes_sum(s.update(i, x)) + contribution(s[i]) == bytes_sum(s) + contribution(x),
    decreases s.len(),
{
    let t = s.update(i, x);
    if i == s.len() - 1 {
        assert(t.drop_last() =~= s.drop_last());
    } else {
        assert(t.drop_last() =~= s.drop_last().update(i, x));
        lemma_bytes_sum_update(s.drop_last(), i, x);
    }
}

/// `b` is `a` with the body of attachment `i` replaced by `bytes`.
pub open spec fn materialized(a: Seq<AttachmentView>, i: int, bytes: Seq<u8>) -> Seq<AttachmentView> {
    a.update(i, AttachmentView { body: AttachmentBodyView::Bytes(bytes), ..a[i] })
}

/// A message whose reference-backed attachments are being materialized in
/// order: the attachments before the cursor are all byte-backed, and the
/// running byte total covers every byte-backed attachment so far.
pub struct Preparation {
    message: Message,
    attachments: Vec<Attachment>,
    next: usize,
    total: usize,
    limits: PreparationLimits,
    original: Ghost<Seq<AttachmentView>>,
}

impl Preparation {
    /// The message around the attachments, with no attachments of its own.
    pub closed spec fn message_view(&self) -> MessageView {
        self.message@
    }

    /// The attachments: materialized up to the cursor, original after it.
    pub closed spec fn attachments_view(&self) -> Seq<AttachmentView> {
        attachment_views(self.attachments@)
    }

    /// The cursor: the position of the next attachment to look at.
    pub closed spec fn cursor(&self) -> int {
        self.next as int
    }

    /// The running byte total.
    pub closed spec fn total(&self) -> nat {
        self.total as nat
    }

    /// The size policy in force.
    pub closed spec fn limits(&self) -> PreparationLimits {
        self.limits
    }

    /// The attachments as the message had them.
    pub closed spec fn original(&self) -> Seq<AttachmentView> {
        self.original@
    }

    /// The preparation is consistent: the cursor is in range, everything
    /// before it is byte-backed, and the message with the current
    /// attachments passes validation.
    pub closed spec fn wf(&self) -> bool {
        let current = attachment_views(self.attachments@);
        let original = self.original@;
        &&& self.next <= self.attachments@.len()
        &&& forall|i: int| 0 <= i < self.next ==> (#[trigger] self.attachments@[i])@.body is Bytes
        &&& validation_defect(MessageView { attachments: current, ..self.message@ }) is None
        &&& same_metadata(original, current)
        &&& forall|i: int| 0 <= i < original.len() && (original[i].body is Bytes || i >= self.next) ==> #[trigger] current[i] == original[i]
        &&& self.total == bytes_sum(current)
        &&& within_limits(current, self.limits)
    }

    /// Starts preparing `message`: checks its byte-backed attachments against
    /// `limits` and puts the cursor on the first attachment.
    pub fn begin(message: OutboundMessage, limits: PreparationLimits) -> (r: Result<Preparation, AttachmentResolveError>)
        ensures
            match byte_pass(message.message_view().attachments, limits) {
                Err(b) => r matches Err(e) && breach_reported(e@, b),
                Ok(t) => r matches Ok(p) && {
                    &&& p.wf()
                    &&& p.attachments_view() == message.message_view().attachments
                    &&& p.message_view() == (MessageView { attachments: seq![], ..message.message_view() })
                    &&& p.cursor() == 0
                    &&& p.total() == t
                    &&& p.limits() == limits
                    &&& p.original() == message.message_view().attachments
                },
            },
    {
        let total = match byte_total(message.as_message().attachments(), &limits) {
            Ok(t) => t,
            Err(e) => return Err(e),
        };
        let whole = message.into_message();
        let ghost m = whole@;
        proof {
            lemma_byte_pass_ok(m.attachments, limits);
        }
        let (rest, attachments) = whole.into_attachments();
        assert((MessageView { attachments: attachment_views(attachments@), ..rest@ }) =~= m);
        Ok(Preparation { message: rest, attachments, next: 0, total, limits, original: Ghost(m.attachments) })
    }

    /// Moves the cursor past byte-backed attachments and returns the
    /// reference it stops on, or `None` at the end.
    pub fn next_reference(&mut self) -> (r: Option<AttachmentReference>)
        requires
            old(self).wf(),
        ensures
            final(self).wf(),
            final(self).attachments_view() == old(self).attachments_view(),
            final(self).message_view() == old(self).message_view(),
            final(self).total() == old(self).total(),
            final(self).limits() == old(self).limits(),
            final(self).original() == old(self).original(),
            old(self).cursor() <= final(self).cursor() <= old(self).attachments_view().len(),
            forall|i: int| old(self).cursor() <= i < final(self).cursor() ==> (#[trigger] old(self).attachments_view()[i]).body is Bytes,
            match r {
                None => final(self).cursor() == old(self).attachments_view().len(),
                Some(reference) => final(self).cursor() < old(self).attachments_view().len()
                    && old(self).attachments_view()[final(self).cursor()].body == AttachmentBodyView::Reference(reference@),
            },
    {
        let ghost start = self.next as int;
        while self.next < self.attachments.len()
            invariant
                start <= self.next <= self.attachments@.len(),
                forall|i: int| 0 <= i < self.next ==> (#[trigger] self.attachments@[i])@.body is Bytes,
                validation_defect(MessageView { attachments: attachment_views(self.attachments@), ..self.message@ }) is None,
                self.attachments@ == old(self).attachments@,
                self.message == old(self).message,
                self.total == old(self).total,
                self.limits == old(self).limits,
                self.original == old(self).original,
                start == old(self).next,
                same_metadata(self.original@, attachment_views(self.attachments@)),
                forall|i: int| 0 <= i < self.original@.len() && (self.original@[i].body is Bytes || i >= start) ==> #[trigger] attachment_views(self.attachments@)[i] == self.original@[i],
                self.total == bytes_sum(attachment_views(self.attachments@)),
                within_limits(attachment_views(self.attachments@), self.limits),
            decreases self.attachments@.len() - self.next,
        {
            match self.attachments[self.next].body() {
                AttachmentBody::Reference(reference) => {
                    return Some(reference.clone());
                },
                AttachmentBody::Bytes(_) => {},
            }
            self.next = self.next + 1;
        }
        None
    }

    /// Hands the resolver's `outcome` for the reference under the cursor to
    /// the preparation: a failure is passed on unchanged; resolved bytes are
    /// held to the size policy and, if they pass, replace the reference and
    /// the cursor moves on. A failed step leaves the preparation as it was.
    pub fn supply(&mut self, outcome: Result<ResolvedAttachment, AttachmentResolveError>) -> (r: Result<(), AttachmentResolveError>)
        requires
            old(self).wf(),
            old(self).cursor() < old(self).attachments_view().len(),
            old(self).attachments_view()[old(self).cursor()].body is Reference,
        ensures
            final(self).wf(),
            r is Err ==> *final(self) == *old(self),
            outcome matches Err(e) ==> r == Err::<(), AttachmentResolveError>(e),
            outcome matches Ok(a) ==> match size_step(old(self).total(), a.bytes@.len(), old(self).limits()) {
                Err(b) => r matches Err(e) && breach_reported(e@, b),
                Ok(t) => r is Ok && final(self).attachments_view() == materialized(
                    old(self).attachments_view(),
                    old(self).cursor(),
                    a.bytes@,
                ) && final(self).cursor() == old(self).cursor() + 1 && final(self).total() == t
                    && final(self).message_view() == old(self).message_view() && final(self).limits()
                    == old(self).limits() && final(self).original() == old(self).original(),
            },
    {
        let resolved = match outcome {
            Err(e) => return Err(e),
            Ok(a) => a,
        };
        let total = match admit_size(self.total, resolved.bytes.len(), &self.limits) {
            Ok(t) => t,
            Err(e) => return Err(e),
        };
        let ghost before = attachment_views(self.attachments@);
        let ghost bytes = resolved.bytes@;
        let i = self.next;
        let n = self.attachments.len();
        assert(i < n);
        let next = i + 1;
        let mut attachments = Vec::new();
        std::mem::swap(&mut attachments, &mut self.attachments);
        let mut attachment = attachments.remove(i);
        attachment.set_body(AttachmentBody::Bytes(resolved.bytes));
        attachments.insert(i, attachment);
        proof {
            assert(attachment_views(attachments@) =~= materialized(before, i as int, bytes));
            lemma_validation_ignores_attachment_bodies(
                MessageView { attachments: before, ..self.message@ },
                attachment_views(attachments@),
            );
            assert forall|j: int| 0 <= j < i + 1 implies (#[trigger] attachments@[j])@.body is Bytes by {
                if j < i {
                    assert(attachments@[j] == old(self).attachments@[j]);
                    assert(old(self).attachments@[j]@.body is Bytes);
                }
            }
            let after = attachment_views(attachments@);
            let original = self.original@;
            lemma_bytes_sum_update(before, i as int, after[i as int]);
            assert(original[i as int] == before[i as int]);
            assert(same_metadata(original, after));
            assert forall|j: int| 0 <= j < original.len() && (original[j].body is Bytes || j >= i + 1) implies #[trigger] after[j] == original[j] by {
                if j != i {
                    assert(after[j] == before[j]);
                }
            }
            assert forall|j: int| 0 <= j < after.len() implies (self.limits.max_attachment_bytes matches Some(l) ==> contribution(#[trigger] after[j]) <= l) by {
                if j != i {
                    assert(after[j] == before[j]);
                }
            }
        }
        self.attachments = attachments;
        self.next = next;
        self.total = total;
        Ok(())
    }

    /// The prepared message: every attachment materialized, metadata kept.
    pub fn finish(self) -> (r: OutboundMessage)
        requires
            self.wf(),
            self.cursor() == self.attachments_view().len(),
        ensures
            r.message_view() == (MessageView { attachments: self.attachments_view(), ..self.message_view() }),
            !has_references(r.message_view().attachments),
            same_metadata(self.original(), r.message_view().attachments),
            forall|i: int| 0 <= i < self.original().len() && (#[trigger] self.original()[i]).body is Bytes ==> r.message_view().attachments[i] == self.original()[i],
            within_limits(r.message_view().attachments, self.limits()),
    {
        let message = self.message.with_attachments(self.attachments);
        match OutboundMessage::new(message) {
            Ok(o) => o,
            Err(_) => vstd::pervasive::unreached(),
        }
    }
}

// ---------------------------------------------------------------------------
// Transport decorator decisions
// ---------------------------------------------------------------------------

/// How a resolving transport delivers a message.
#[derive(Clone, Copy, Debug, PartialEq, Eq, Structural)]
pub enum SendPlan {
    /// Hand the message to the inner transport as it is.
    PassThrough,
    /// Materialize its references first.
    Prepare,
}

/// Decides how a resolving transport delivers `message`: one without
/// references is held to the size policy and passed through as it is; one
/// with references is prepared first (which checks the policy itself).
pub fn plan_send(message: &OutboundMessage, limits: &PreparationLimits) -> (r: Result<SendPlan, AttachmentResolveError>)
    ensures
        has_references(message.message_view().attachments) ==> r == Ok::<SendPlan, AttachmentResolveError>(
            SendPlan::Prepare,
        ),
        !has_references(message.message_view().attachments) ==> match byte_pass(
            message.message_view().attachments,
            *limits,
        ) {
            Ok(_) => r == Ok::<SendPlan, AttachmentResolveError>(SendPlan::PassThrough),
            Err(b) => r matches Err(e) && breach_reported(e@, b),
        },
{
    if has_attachment_references(message) {
        return Ok(SendPlan::Prepare);
    }
    match enforce_limits(message, limits) {
        Ok(()) => Ok(SendPlan::PassThrough),
        Err(e) => Err(e),
    }
}

/// Classifies an attachment failure for delivery: unsupported references
/// are an unsupported feature, missing or oversized content a validation
/// failure, denied access and resolver faults internal, transient faults
/// transient.
pub fn delivery_error_kind(kind: ResolveErrorKind) -> (r: DeliveryErrorKind)
    ensures
        r == delivery_kind_of(kind),
{
    match kind {
        ResolveErrorKind::UnsupportedReference => DeliveryErrorKind::UnsupportedFeature,
        ResolveErrorKind::NotFound | ResolveErrorKind::TooLarge => DeliveryErrorKind::Validation,
        ResolveErrorKind::Denied | ResolveErrorKind::Internal => DeliveryErrorKind::Internal,
        ResolveErrorKind::Transient => DeliveryErrorKind::TransientProvider,
    }
}

/// Transport decorator that resolves attachment references before delivery,
/// under a size policy that applies to every send.
#[derive(Clone, Debug)]
pub struct ResolvingTransport<T, R> {
    inner: T,
    resolver: R,
    limits: PreparationLimits,
}

impl<T, R> ResolvingTransport<T, R> {
    pub closed spec fn inner_spec(&self) -> T {
        self.inner
    }

    pub closed spec fn resolver_spec(&self) -> R {
        self.resolver
    }

    pub closed spec fn limits_spec(&self) -> PreparationLimits {
        self.limits
    }

    /// Wraps `inner` with attachment resolution under an unlimited policy.
    pub fn new(inner: T, resolver: R) -> (r: ResolvingTransport<T, R>)
        ensures
            r.inner_spec() == inner,
            r.resolver_spec() == resolver,
            r.limits_spec() == (PreparationLimits { max_attachment_bytes: None, max_total_bytes: None }),
    {
        ResolvingTransport { inner, resolver, limits: PreparationLimits::new() }
    }

    /// Sets the size policy.
    pub fn with_limits(self, limits: PreparationLimits) -> (r: ResolvingTransport<T, R>)
        ensures
            r.inner_spec() == self.inner_spec(),
            r.resolver_spec() == self.resolver_spec(),
            r.limits_spec() == limits,
    {
        ResolvingTransport { limits, ..self }
    }

    /// The wrapped transport.
    pub fn inner(&self) -> (r: &T)
        ensures
            *r == self.inner_spec(),
    {
        &self.inner
    }

    /// The attachment resolver.
    pub fn resolver(&self) -> (r: &R)
        ensures
            *r == self.resolver_spec(),
    {
        &self.resolver
    }

    /// The size policy.
    pub fn limits(&self) -> (r: &PreparationLimits)
        ensures
            *r == self.limits_spec(),
    {
        &self.limits
    }

    /// Unwraps the inner transport.
    pub fn into_inner(self) -> (r: T)
        ensures
            r == self.inner_spec(),
    {
        self.inner
    }
}

} // verus!
