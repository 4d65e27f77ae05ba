//! What the header fields of a rendered message carry of the message: one
//! `To`, `Cc`, `Reply-To`, `Subject` (and, on request, `Bcc`) field exactly
//! when the message has that list or subject, holding it as written.
use vstd::prelude::*;
use crate::wire::header::{FieldView, address_list_header, mailbox_header};
use crate::wire::encoded_word::unstructured_encoded;
use crate::wire::{RenderOptions, field_if, leading_fields, rfc822_rendered};
use crate::wire::round_trip::{lemma_trailing_not_named, rendered_header_fields};
use crate::message::{MessageView, is_reserved_name};
use crate::address::{AddressView, address_items};
use crate::wire::encoded_word::quoted_words_escaped;
use crate::wire::{ParseState, field_step, fields_fold, rfc822_parsed};
use crate::wire::header::{header_fields, header_split};
use crate::text::{ascii_lower, eq_ignore_case};

verus! {

/// How many fields are named exactly `n`.
pub open spec fn named_count(fs: Seq<FieldView>, n: Seq<char>) -> nat
    decreases fs.len(),
{
    if fs.len() == 0 {
        0
    } else {
        named_count(fs.drop_last(), n) + if fs.last().0 == n {
            1nat
        } else {
            0nat
        }
    }
}

/// Every field named `n` has the value `v`.
pub open spec fn named_value(fs: Seq<FieldView>, n: Seq<char>, v: Seq<char>) -> bool {
    forall|i: int| 0 <= i < fs.len() && (#[trigger] fs[i]).0 == n ==> fs[i].1 == v
}

/// One when `b` holds, else zero.
pub open spec fn one_if(b: bool) -> nat {
    if b {
        1nat
    } else {
        0nat
    }
}

proof fn lemma_named_count_concat(a: Seq<FieldView>, b: Seq<FieldView>, n: Seq<char>)
    ensures
        named_count(a + b, n) == named_count(a, n) + named_count(b, n),
    decreases b.len(),
{
    if b.len() == 0 {
        assert(a + b =~= a);
    } else {
        lemma_named_count_concat(a, b.drop_last(), n);
        assert((a + b).drop_last() =~= a + b.drop_last());
        assert((a + b).last() == b.last());
    }
}

proof fn lemma_named_none(fs: Seq<FieldView>, n: Seq<char>, v: Seq<char>)
    requires
        forall|i: int| 0 <= i < fs.len() ==> (#[trigger] fs[i]).0 != n,
    ensures
        named_count(fs, n) == 0,
        named_value(fs, n, v),
    decreases fs.len(),
{
    if fs.len() > 0 {
        assert forall|i: int| 0 <= i < fs.drop_last().len() implies (#[trigger] fs.drop_last()[i]).0 != n by {
            assert(fs.drop_last()[i] == fs[i]);
        }
        lemma_named_none(fs.drop_last(), n, v);
        assert(fs.last() == fs[fs.len() - 1]);
    }
}

proof fn lemma_named_value_concat(a: Seq<FieldView>, b: Seq<FieldView>, n: Seq<char>, v: Seq<char>)
    requires
        named_value(a, n, v),
        named_value(b, n, v),
    ensures
        named_value(a + b, n, v),
{
    assert forall|i: int| 0 <= i < (a + b).len() && (#[trigger] (a + b)[i]).0 == n implies (a + b)[i].1 == v by {
        if i < a.len() {
            assert((a + b)[i] == a[i]);
        } else {
            assert((a + b)[i] == b[i - a.len()]);
        }
    }
}

proof fn lemma_field_if_named(c: bool, name: Seq<char>, w: Seq<char>, n: Seq<char>, v: Seq<char>)
    requires
        c && name == n ==> w == v,
    ensures
        named_count(field_if(c, name, w), n) == one_if(c && name == n),
        named_value(field_if(c, name, w), n, v),
{
    let f = field_if(c, name, w);
    assert(named_count(Seq::<FieldView>::empty(), n) == 0);
    if c {
        assert(f.drop_last() =~= Seq::<FieldView>::empty());
        assert(f.last() == (name, w));
        assert(named_count(f, n) == named_count(f.drop_last(), n) + if f.last().0 == n {
            1nat
        } else {
            0nat
        });
    } else {
        assert(f =~= Seq::<FieldView>::empty());
    }
}

proof fn lemma_differ(a: Seq<char>, b: Seq<char>)
    requires
        a.len() != b.len() || (a.len() > 0 && b.len() > 0 && a[0] != b[0]),
    ensures
        a != b,
{
}

/// The names of the leading fields differ from each other.
proof fn lemma_names_differ()
    ensures
        "From"@ != "Sender"@ && "From"@ != "To"@ && "From"@ != "Cc"@ && "From"@ != "Bcc"@ && "From"@ != "Reply-To"@
            && "From"@ != "Subject"@,
        "Sender"@ != "To"@ && "Sender"@ != "Cc"@ && "Sender"@ != "Bcc"@ && "Sender"@ != "Reply-To"@ && "Sender"@
            != "Subject"@,
        "To"@ != "Cc"@ && "To"@ != "Bcc"@ && "To"@ != "Reply-To"@ && "To"@ != "Subject"@,
        "Cc"@ != "Bcc"@ && "Cc"@ != "Reply-To"@ && "Cc"@ != "Subject"@,
        "Bcc"@ != "Reply-To"@ && "Bcc"@ != "Subject"@,
        "Reply-To"@ != "Subject"@,
{
    reveal_strlit("From");
    reveal_strlit("Sender");
    reveal_strlit("To");
    reveal_strlit("Cc");
    reveal_strlit("Bcc");
    reveal_strlit("Reply-To");
    reveal_strlit("Subject");
    let names = seq!["From"@, "Sender"@, "To"@, "Cc"@, "Bcc"@, "Reply-To"@, "Subject"@];
    assert forall|i: int, j: int| 0 <= i < j < 7 implies #[trigger] names[i] != #[trigger] names[j] by {
        lemma_differ(names[i], names[j]);
    }
    assert(names[0] != names[1] && names[0] != names[2] && names[0] != names[3] && names[0] != names[4]
        && names[0] != names[5] && names[0] != names[6]);
    assert(names[1] != names[2] && names[1] != names[3] && names[1] != names[4] && names[1] != names[5]
        && names[1] != names[6]);
    assert(names[2] != names[3] && names[2] != names[4] && names[2] != names[5] && names[2] != names[6]);
    assert(names[3] != names[4] && names[3] != names[5] && names[3] != names[6]);
    assert(names[4] != names[5] && names[4] != names[6]);
    assert(names[5] != names[6]);
}

/// The fields named `n` among the leading fields, for a name `n` that is
/// written with the value `v` when `cond` holds, and is not otherwise.
#[verifier::spinoff_prover]
proof fn lemma_leading_named(m: MessageView, include_bcc: bool, n: Seq<char>, cond: bool, v: Seq<char>)
    requires
        ({
            let f1 = ((m.from is Some) && "From"@ == n, mailbox_header(m.from->0));
            let f2 = ((m.sender is Some) && "Sender"@ == n, mailbox_header(m.sender->0));
            let f3 = ((m.to.len() > 0) && "To"@ == n, address_list_header(m.to, m.to.len() as int));
            let f4 = ((m.cc.len() > 0) && "Cc"@ == n, address_list_header(m.cc, m.cc.len() as int));
            let f5 = ((include_bcc && m.bcc.len() > 0) && "Bcc"@ == n, address_list_header(m.bcc, m.bcc.len() as int));
            let f6 = (
                (m.reply_to.len() > 0) && "Reply-To"@ == n,
                address_list_header(m.reply_to, m.reply_to.len() as int),
            );
            let f7 = ((m.subject is Some) && "Subject"@ == n, unstructured_encoded(m.subject->0));
            &&& one_if(f1.0) + one_if(f2.0) + one_if(f3.0) + one_if(f4.0) + one_if(f5.0) + one_if(f6.0) + one_if(f7.0)
                == one_if(cond)
            &&& (f1.0 ==> f1.1 == v) && (f2.0 ==> f2.1 == v) && (f3.0 ==> f3.1 == v) && (f4.0 ==> f4.1 == v) && (f5.0
                ==> f5.1 == v) && (f6.0 ==> f6.1 == v) && (f7.0 ==> f7.1 == v)
        }),
    ensures
        named_count(leading_fields(m, include_bcc), n) == one_if(cond),
        named_value(leading_fields(m, include_bcc), n, v),
{
    let f1 = field_if(m.from is Some, "From"@, mailbox_header(m.from->0));
    let f2 = field_if(m.sender is Some, "Sender"@, mailbox_header(m.sender->0));
    let f3 = field_if(m.to.len() > 0, "To"@, address_list_header(m.to, m.to.len() as int));
    let f4 = field_if(m.cc.len() > 0, "Cc"@, address_list_header(m.cc, m.cc.len() as int));
    let f5 = field_if(include_bcc && m.bcc.len() > 0, "Bcc"@, address_list_header(m.bcc, m.bcc.len() as int));
    let f6 = field_if(m.reply_to.len() > 0, "Reply-To"@, address_list_header(m.reply_to, m.reply_to.len() as int));
    let f7 = field_if(m.subject is Some, "Subject"@, unstructured_encoded(m.subject->0));
    lemma_field_if_named(m.from is Some, "From"@, mailbox_header(m.from->0), n, v);
    lemma_field_if_named(m.sender is Some, "Sender"@, mailbox_header(m.sender->0), n, v);
    lemma_field_if_named(m.to.len() > 0, "To"@, address_list_header(m.to, m.to.len() as int), n, v);
    lemma_field_if_named(m.cc.len() > 0, "Cc"@, address_list_header(m.cc, m.cc.len() as int), n, v);
    lemma_field_if_named(
        include_bcc && m.bcc.len() > 0,
        "Bcc"@,
        address_list_header(m.bcc, m.bcc.len() as int),
        n,
        v,
    );
    lemma_field_if_named(
        m.reply_to.len() > 0,
        "Reply-To"@,
        address_list_header(m.reply_to, m.reply_to.len() as int),
        n,
        v,
    );
    lemma_field_if_named(m.subject is Some, "Subject"@, unstructured_encoded(m.subject->0), n, v);
    lemma_named_count_concat(f1, f2, n);
    lemma_named_count_concat(f1 + f2, f3, n);
    lemma_named_count_concat(f1 + f2 + f3, f4, n);
    lemma_named_count_concat(f1 + f2 + f3 + f4, f5, n);
    lemma_named_count_concat(f1 + f2 + f3 + f4 + f5, f6, n);
    lemma_named_count_concat(f1 + f2 + f3 + f4 + f5 + f6, f7, n);
    lemma_named_value_concat(f1, f2, n, v);
    lemma_named_value_concat(f1 + f2, f3, n, v);
    lemma_named_value_concat(f1 + f2 + f3, f4, n, v);
    lemma_named_value_concat(f1 + f2 + f3 + f4, f5, n, v);
    lemma_named_value_concat(f1 + f2 + f3 + f4 + f5, f6, n, v);
    lemma_named_value_concat(f1 + f2 + f3 + f4 + f5 + f6, f7, n, v);
    assert(leading_fields(m, include_bcc) == f1 + f2 + f3 + f4 + f5 + f6 + f7);
}

/// A name that no field after the leading ones carries carries over from
/// the leading fields to all rendered fields.
#[verifier::spinoff_prover]
proof fn lemma_rendered_named(m: MessageView, opts: RenderOptions, n: Seq<char>, x: Seq<char>, cond: bool, v: Seq<char>)
    requires
        rfc822_rendered(m, opts) is Ok,
        is_reserved_name(x),
        x.len() != 10 && x.len() != 12 && x.len() != 19 && x.len() != 25,
        !eq_ignore_case(x, "date"@),
        eq_ignore_case(n, x),
        named_count(leading_fields(m, opts.include_bcc), n) == one_if(cond),
        named_value(leading_fields(m, opts.include_bcc), n, v),
    ensures
        named_count(rendered_header_fields(m, opts), n) == one_if(cond),
        named_value(rendered_header_fields(m, opts), n, v),
{
    let fs = rendered_header_fields(m, opts);
    let l = leading_fields(m, opts.include_bcc);
    lemma_trailing_not_named(m, opts, x);
    crate::wire::round_trip::lemma_rendered_message_shape(m, opts);
    assert(crate::message::validation_defect(m) is None);
    assert(crate::wire::date_fields(m) is Some);
    assert(crate::wire::mime_render::render_payload(m.body, m.attachments, opts.soft_fold_at) is Ok);
    let df = crate::wire::date_fields(m)->0;
    let d = df + field_if(m.message_id is Some, "Message-ID"@, m.message_id->0);
    let pay = crate::wire::mime_render::render_payload(m.body, m.attachments, opts.soft_fold_at)->Ok_0;
    let t = crate::wire::trailing_fields(m, pay.2, pay.0);
    assert(fs == l + d + t);
    let rest = fs.subrange(l.len() as int, fs.len() as int);
    assert(fs =~= l + rest);
    assert forall|i: int| 0 <= i < rest.len() implies (#[trigger] rest[i]).0 != n by {
        assert(rest[i] == fs[i + l.len()]);
        assert(!eq_ignore_case(fs[i + l.len()].0, x));
        if rest[i].0 == n {
            assert(ascii_lower(rest[i].0) == ascii_lower(n));
        }
    }
    lemma_named_none(rest, n, v);
    lemma_named_count_concat(l, rest, n);
    lemma_named_value_concat(l, rest, n, v);
}

proof fn lemma_not_date(x: Seq<char>)
    requires
        x.len() != 4 || (x.len() > 0 && crate::text::lower_char(x[0]) != 'd'),
    ensures
        !eq_ignore_case(x, "date"@),
{
    reveal_strlit("date");
    assert(ascii_lower("date"@).len() == 4);
    assert(ascii_lower("date"@)[0] == 'd');
    if eq_ignore_case(x, "date"@) {
        assert(ascii_lower(x).len() == x.len());
        if x.len() == 4 {
            assert(ascii_lower(x)[0] == ascii_lower("date"@)[0]);
        }
    }
}

proof fn lemma_lower_eq(a: Seq<char>, b: Seq<char>)
    requires
        ascii_lower(a) =~= ascii_lower(b),
    ensures
        eq_ignore_case(a, b),
{
}

/// A rendered message has one `To` field exactly when the message has `To` addresses, holding them; otherwise none.
#[verifier::spinoff_prover]
pub proof fn law_rendered_to_field(m: MessageView, opts: RenderOptions)
    requires
        rfc822_rendered(m, opts) is Ok,
    ensures
        named_count(rendered_header_fields(m, opts), "To"@) == one_if(m.to.len() > 0),
        named_value(rendered_header_fields(m, opts), "To"@, address_list_header(m.to, m.to.len() as int)),
{
    reveal_strlit("To");
    reveal_strlit("to");
    lemma_names_differ();
    lemma_leading_named(m, opts.include_bcc, "To"@, m.to.len() > 0, address_list_header(m.to, m.to.len() as int));
    lemma_lower_eq("To"@, "to"@);
    reveal_strlit("date");
    lemma_not_date("to"@);
    lemma_rendered_named(m, opts, "To"@, "to"@, m.to.len() > 0, address_list_header(m.to, m.to.len() as int));
}

/// A rendered message has one `Cc` field exactly when the message has `Cc` addresses, holding them; otherwise none.
#[verifier::spinoff_prover]
pub proof fn law_rendered_cc_field(m: MessageView, opts: RenderOptions)
    requires
        rfc822_rendered(m, opts) is Ok,
    ensures
        named_count(rendered_header_fields(m, opts), "Cc"@) == one_if(m.cc.len() > 0),
        named_value(rendered_header_fields(m, opts), "Cc"@, address_list_header(m.cc, m.cc.len() as int)),
{
    reveal_strlit("Cc");
    reveal_strlit("cc");
    lemma_names_differ();
    lemma_leading_named(m, opts.include_bcc, "Cc"@, m.cc.len() > 0, address_list_header(m.cc, m.cc.len() as int));
    lemma_lower_eq("Cc"@, "cc"@);
    reveal_strlit("date");
    lemma_not_date("cc"@);
    lemma_rendered_named(m, opts, "Cc"@, "cc"@, m.cc.len() > 0, address_list_header(m.cc, m.cc.len() as int));
}

/// A rendered message has one `Bcc` field exactly when blind copies are requested and the message has `Bcc` addresses, holding them; otherwise none.
#[verifier::spinoff_prover]
pub proof fn law_rendered_bcc_field(m: MessageView, opts: RenderOptions)
    requires
        rfc822_rendered(m, opts) is Ok,
    ensures
        named_count(rendered_header_fields(m, opts), "Bcc"@) == one_if(opts.include_bcc && m.bcc.len() > 0),
        named_value(rendered_header_fields(m, opts), "Bcc"@, address_list_header(m.bcc, m.bcc.len() as int)),
{
    reveal_strlit("Bcc");
    reveal_strlit("bcc");
    lemma_names_differ();
    lemma_leading_named(m, opts.include_bcc, "Bcc"@, opts.include_bcc && m.bcc.len() > 0, address_list_header(m.bcc, m.bcc.len() as int));
    lemma_lower_eq("Bcc"@, "bcc"@);
    reveal_strlit("date");
    lemma_not_date("bcc"@);
    lemma_rendered_named(m, opts, "Bcc"@, "bcc"@, opts.include_bcc && m.bcc.len() > 0, address_list_header(m.bcc, m.bcc.len() as int));
}

/// A rendered message has one `Reply-To` field exactly when the message has `Reply-To` addresses, holding them; otherwise none.
#[verifier::spinoff_prover]
pub proof fn law_rendered_reply_to_field(m: MessageView, opts: RenderOptions)
    requires
        rfc822_rendered(m, opts) is Ok,
    ensures
        named_count(rendered_header_fields(m, opts), "Reply-To"@) == one_if(m.reply_to.len() > 0),
        named_value(rendered_header_fields(m, opts), "Reply-To"@, address_list_header(m.reply_to, m.reply_to.len() as int)),
{
    reveal_strlit("Reply-To");
    reveal_strlit("reply-to");
    lemma_names_differ();
    lemma_leading_named(m, opts.include_bcc, "Reply-To"@, m.reply_to.len() > 0, address_list_header(m.reply_to, m.reply_to.len() as int));
    lemma_lower_eq("Reply-To"@, "reply-to"@);
    reveal_strlit("date");
    lemma_not_date("reply-to"@);
    lemma_rendered_named(m, opts, "Reply-To"@, "reply-to"@, m.reply_to.len() > 0, address_list_header(m.reply_to, m.reply_to.len() as int));
}

/// A rendered message has one `Subject` field exactly when the message has a subject, holding it as written; otherwise none.
#[verifier::spinoff_prover]
pub proof fn law_rendered_subject_field(m: MessageView, opts: RenderOptions)
    requires
        rfc822_rendered(m, opts) is Ok,
    ensures
        named_count(rendered_header_fields(m, opts), "Subject"@) == one_if(m.subject is Some),
        named_value(rendered_header_fields(m, opts), "Subject"@, unstructured_encoded(m.subject->0)),
{
    reveal_strlit("Subject");
    reveal_strlit("subject");
    lemma_names_differ();
    lemma_leading_named(m, opts.include_bcc, "Subject"@, m.subject is Some, unstructured_encoded(m.subject->0));
    lemma_lower_eq("Subject"@, "subject"@);
    reveal_strlit("date");
    lemma_not_date("subject"@);
    lemma_rendered_named(m, opts, "Subject"@, "subject"@, m.subject is Some, unstructured_encoded(m.subject->0));
}

/// A rendered message has one `From` field exactly when the message has a `From` mailbox, holding it; otherwise none.
#[verifier::spinoff_prover]
pub proof fn law_rendered_from_field(m: MessageView, opts: RenderOptions)
    requires
        rfc822_rendered(m, opts) is Ok,
    ensures
        named_count(rendered_header_fields(m, opts), "From"@) == one_if(m.from is Some),
        named_value(rendered_header_fields(m, opts), "From"@, mailbox_header(m.from->0)),
{
    reveal_strlit("From");
    reveal_strlit("from");
    lemma_names_differ();
    lemma_leading_named(m, opts.include_bcc, "From"@, m.from is Some, mailbox_header(m.from->0));
    lemma_lower_eq("From"@, "from"@);
    reveal_strlit("date");
    lemma_not_date("from"@);
    lemma_rendered_named(m, opts, "From"@, "from"@, m.from is Some, mailbox_header(m.from->0));
}

/// A rendered message has one `Sender` field exactly when the message has a `Sender` mailbox, holding it; otherwise none.
#[verifier::spinoff_prover]
pub proof fn law_rendered_sender_field(m: MessageView, opts: RenderOptions)
    requires
        rfc822_rendered(m, opts) is Ok,
    ensures
        named_count(rendered_header_fields(m, opts), "Sender"@) == one_if(m.sender is Some),
        named_value(rendered_header_fields(m, opts), "Sender"@, mailbox_header(m.sender->0)),
{
    reveal_strlit("Sender");
    reveal_strlit("sender");
    lemma_names_differ();
    lemma_leading_named(m, opts.include_bcc, "Sender"@, m.sender is Some, mailbox_header(m.sender->0));
    lemma_lower_eq("Sender"@, "sender"@);
    reveal_strlit("date");
    lemma_not_date("sender"@);
    lemma_rendered_named(m, opts, "Sender"@, "sender"@, m.sender is Some, mailbox_header(m.sender->0));
}

/// The address and subject fields of a rendered message: exactly one `From`
/// field when the message has a `From` mailbox and none otherwise, and
/// likewise `Sender`, `To`, `Cc`, `Reply-To`, `Subject`, and `Bcc` when
/// blind copies are requested; each such field carries the message's
/// mailbox, list or subject, as written.
pub proof fn law_rendered_address_fields(m: MessageView, opts: RenderOptions)
    requires
        rfc822_rendered(m, opts) is Ok,
    ensures
        ({
            let fs = rendered_header_fields(m, opts);
            &&& named_count(fs, "From"@) == one_if(m.from is Some)
            &&& named_value(fs, "From"@, mailbox_header(m.from->0))
            &&& named_count(fs, "Sender"@) == one_if(m.sender is Some)
            &&& named_value(fs, "Sender"@, mailbox_header(m.sender->0))
            &&& named_count(fs, "To"@) == one_if(m.to.len() > 0)
            &&& named_value(fs, "To"@, address_list_header(m.to, m.to.len() as int))
            &&& named_count(fs, "Cc"@) == one_if(m.cc.len() > 0)
            &&& named_value(fs, "Cc"@, address_list_header(m.cc, m.cc.len() as int))
            &&& named_count(fs, "Bcc"@) == one_if(opts.include_bcc && m.bcc.len() > 0)
            &&& named_value(fs, "Bcc"@, address_list_header(m.bcc, m.bcc.len() as int))
            &&& named_count(fs, "Reply-To"@) == one_if(m.reply_to.len() > 0)
            &&& named_value(fs, "Reply-To"@, address_list_header(m.reply_to, m.reply_to.len() as int))
            &&& named_count(fs, "Subject"@) == one_if(m.subject is Some)
            &&& named_value(fs, "Subject"@, unstructured_encoded(m.subject->0))
        }),
{
    law_rendered_from_field(m, opts);
    law_rendered_sender_field(m, opts);
    law_rendered_to_field(m, opts);
    law_rendered_cc_field(m, opts);
    law_rendered_bcc_field(m, opts);
    law_rendered_reply_to_field(m, opts);
    law_rendered_subject_field(m, opts);
}


// ---------------------------------------------------------------------------
// Address lists read from header fields
// ---------------------------------------------------------------------------

/// The address items of the fields from `k` on whose name is `n` up to
/// ASCII case, in order.
pub open spec fn list_items_named(fs: Seq<FieldView>, n: Seq<char>, k: int) -> Seq<AddressView>
    decreases fs.len() - k,
{
    if k < 0 || k >= fs.len() {
        seq![]
    } else {
        (if eq_ignore_case(fs[k].0, n) {
            match address_items(quoted_words_escaped(fs[k].1)) {
                Ok(items) => items,
                Err(_) => seq![],
            }
        } else {
            seq![]
        }) + list_items_named(fs, n, k + 1)
    }
}

proof fn lemma_lists_differ(n: Seq<char>)
    ensures
        eq_ignore_case(n, "to"@) ==> !eq_ignore_case(n, "from"@) && !eq_ignore_case(n, "sender"@),
        eq_ignore_case(n, "cc"@) ==> !eq_ignore_case(n, "from"@) && !eq_ignore_case(n, "sender"@) && !eq_ignore_case(
            n,
            "to"@,
        ),
        eq_ignore_case(n, "bcc"@) ==> !eq_ignore_case(n, "from"@) && !eq_ignore_case(n, "sender"@) && !eq_ignore_case(
            n,
            "to"@,
        ) && !eq_ignore_case(n, "cc"@),
        eq_ignore_case(n, "reply-to"@) ==> !eq_ignore_case(n, "from"@) && !eq_ignore_case(n, "sender"@)
            && !eq_ignore_case(n, "to"@) && !eq_ignore_case(n, "cc"@) && !eq_ignore_case(n, "bcc"@),
{
    reveal_strlit("to");
    reveal_strlit("cc");
    reveal_strlit("bcc");
    reveal_strlit("reply-to");
    reveal_strlit("from");
    reveal_strlit("sender");
    let l = ascii_lower(n);
    assert(ascii_lower("to"@).len() == 2 && ascii_lower("cc"@).len() == 2 && ascii_lower("bcc"@).len() == 3);
    assert(ascii_lower("from"@).len() == 4 && ascii_lower("sender"@).len() == 6 && ascii_lower("reply-to"@).len() == 8);
    if eq_ignore_case(n, "cc"@) && eq_ignore_case(n, "to"@) {
        assert(ascii_lower("cc"@)[0] == ascii_lower("to"@)[0]);
    }
}

/// Reading header fields gathers the `To`, `Cc`, `Bcc` and `Reply-To`
/// addresses of every field of that name, in the order of the fields.
proof fn lemma_fold_lists(fs: Seq<FieldView>, k: int, st: ParseState)
    requires
        0 <= k <= fs.len(),
        fields_fold(fs, k, st) is Ok,
    ensures
        fields_fold(fs, k, st)->Ok_0.to == st.to + list_items_named(fs, "to"@, k),
        fields_fold(fs, k, st)->Ok_0.cc == st.cc + list_items_named(fs, "cc"@, k),
        fields_fold(fs, k, st)->Ok_0.bcc == st.bcc + list_items_named(fs, "bcc"@, k),
        fields_fold(fs, k, st)->Ok_0.reply_to == st.reply_to + list_items_named(fs, "reply-to"@, k),
    decreases fs.len() - k,
{
    if k < fs.len() {
        let n = fs[k].0;
        let v = fs[k].1;
        lemma_lists_differ(n);
        let next = field_step(st, n, v)->Ok_0;
        lemma_fold_lists(fs, k + 1, next);
        let items = address_items(quoted_words_escaped(v));
        let gained = |name: Seq<char>| if eq_ignore_case(n, name) {
            match items {
                Ok(i) => i,
                Err(_) => Seq::<AddressView>::empty(),
            }
        } else {
            Seq::<AddressView>::empty()
        };
        assert(next.to == st.to + gained("to"@));
        assert(next.cc == st.cc + gained("cc"@));
        assert(next.bcc == st.bcc + gained("bcc"@));
        assert(next.reply_to == st.reply_to + gained("reply-to"@));
        assert(st.to + gained("to"@) + list_items_named(fs, "to"@, k + 1) =~= st.to + list_items_named(fs, "to"@, k));
        assert(st.cc + gained("cc"@) + list_items_named(fs, "cc"@, k + 1) =~= st.cc + list_items_named(fs, "cc"@, k));
        assert(st.bcc + gained("bcc"@) + list_items_named(fs, "bcc"@, k + 1) =~= st.bcc + list_items_named(
            fs,
            "bcc"@,
            k,
        ));
        assert(st.reply_to + gained("reply-to"@) + list_items_named(fs, "reply-to"@, k + 1) =~= st.reply_to
            + list_items_named(fs, "reply-to"@, k));
    } else {
        assert(st.to + list_items_named(fs, "to"@, k) =~= st.to);
        assert(st.cc + list_items_named(fs, "cc"@, k) =~= st.cc);
        assert(st.bcc + list_items_named(fs, "bcc"@, k) =~= st.bcc);
        assert(st.reply_to + list_items_named(fs, "reply-to"@, k) =~= st.reply_to);
    }
}

/// A parsed message's `To`, `Cc`, `Bcc` and `Reply-To` lists are the
/// addresses of all its header fields of that name (up to ASCII case), in
/// the order the fields stand.
pub proof fn law_parsed_address_lists(input: Seq<u8>)
    requires
        rfc822_parsed(input) is Ok,
    ensures
        ({
            let fs = header_fields(input.subrange(0, header_split(input).0))->Ok_0;
            let m = rfc822_parsed(input)->Ok_0;
            &&& m.to == list_items_named(fs, "to"@, 0)
            &&& m.cc == list_items_named(fs, "cc"@, 0)
            &&& m.bcc == list_items_named(fs, "bcc"@, 0)
            &&& m.reply_to == list_items_named(fs, "reply-to"@, 0)
        }),
{
    let fs = header_fields(input.subrange(0, header_split(input).0))->Ok_0;
    let st0 = crate::wire::empty_state();
    lemma_fold_lists(fs, 0, st0);
    assert(st0.to + list_items_named(fs, "to"@, 0) =~= list_items_named(fs, "to"@, 0));
    assert(st0.cc + list_items_named(fs, "cc"@, 0) =~= list_items_named(fs, "cc"@, 0));
    assert(st0.bcc + list_items_named(fs, "bcc"@, 0) =~= list_items_named(fs, "bcc"@, 0));
    assert(st0.reply_to + list_items_named(fs, "reply-to"@, 0) =~= list_items_named(fs, "reply-to"@, 0));
}

// ---------------------------------------------------------------------------
// Single-valued fields read from header fields
// ---------------------------------------------------------------------------

/// The index of the last field from `k` on whose name is `n` up to ASCII
/// case.
pub open spec fn last_named(fs: Seq<FieldView>, n: Seq<char>, k: int) -> Option<int>
    decreases fs.len() - k,
{
    if k < 0 || k >= fs.len() {
        None
    } else {
        match last_named(fs, n, k + 1) {
            Some(i) => Some(i),
            None => if eq_ignore_case(fs[k].0, n) {
                Some(k)
            } else {
                None
            },
        }
    }
}

proof fn lemma_singles_differ(n: Seq<char>)
    ensures
        eq_ignore_case(n, "sender"@) ==> !eq_ignore_case(n, "from"@),
        eq_ignore_case(n, "subject"@) ==> !eq_ignore_case(n, "from"@) && !eq_ignore_case(n, "sender"@)
            && !eq_ignore_case(n, "to"@) && !eq_ignore_case(n, "cc"@) && !eq_ignore_case(n, "bcc"@) && !eq_ignore_case(
            n,
            "reply-to"@,
        ),
        eq_ignore_case(n, "date"@) ==> !eq_ignore_case(n, "from"@) && !eq_ignore_case(n, "sender"@) && !eq_ignore_case(
            n,
            "to"@,
        ) && !eq_ignore_case(n, "cc"@) && !eq_ignore_case(n, "bcc"@) && !eq_ignore_case(n, "reply-to"@)
            && !eq_ignore_case(n, "subject"@),
        eq_ignore_case(n, "message-id"@) ==> !eq_ignore_case(n, "from"@) && !eq_ignore_case(n, "sender"@)
            && !eq_ignore_case(n, "to"@) && !eq_ignore_case(n, "cc"@) && !eq_ignore_case(n, "bcc"@) && !eq_ignore_case(
            n,
            "reply-to"@,
        ) && !eq_ignore_case(n, "subject"@) && !eq_ignore_case(n, "date"@),
{
    reveal_strlit("to");
    reveal_strlit("cc");
    reveal_strlit("bcc");
    reveal_strlit("reply-to");
    reveal_strlit("from");
    reveal_strlit("sender");
    reveal_strlit("subject");
    reveal_strlit("date");
    reveal_strlit("message-id");
    assert(ascii_lower("to"@).len() == 2 && ascii_lower("cc"@).len() == 2 && ascii_lower("bcc"@).len() == 3);
    assert(ascii_lower("from"@).len() == 4 && ascii_lower("sender"@).len() == 6 && ascii_lower("reply-to"@).len() == 8);
    assert(ascii_lower("subject"@).len() == 7 && ascii_lower("date"@).len() == 4 && ascii_lower("message-id"@).len()
        == 10);
    if eq_ignore_case(n, "date"@) && eq_ignore_case(n, "from"@) {
        assert(ascii_lower("date"@)[0] == ascii_lower("from"@)[0]);
    }
}

/// Reading header fields keeps, of the `From`, `Sender`, `Subject`, `Date`
/// and `Message-ID` fields, what the last field of each name gives; a name
/// with no field leaves what was there.
proof fn lemma_fold_singles(fs: Seq<FieldView>, k: int, st: ParseState)
    requires
        0 <= k <= fs.len(),
        fields_fold(fs, k, st) is Ok,
    ensures
        ({
            let r = fields_fold(fs, k, st)->Ok_0;
            &&& r.from == match last_named(fs, "from"@, k) {
                Some(i) => crate::wire::mailbox_parsed(quoted_words_escaped(fs[i].1)),
                None => st.from,
            }
            &&& r.sender == match last_named(fs, "sender"@, k) {
                Some(i) => crate::wire::mailbox_parsed(quoted_words_escaped(fs[i].1)),
                None => st.sender,
            }
            &&& r.subject == match last_named(fs, "subject"@, k) {
                Some(i) => Some(crate::wire::encoded_word::rfc2047_decoded(fs[i].1)),
                None => st.subject,
            }
            &&& r.date == match last_named(fs, "date"@, k) {
                Some(i) => crate::wire::rfc2822_parsed(crate::text::trim(fs[i].1)),
                None => st.date,
            }
            &&& r.message_id == match last_named(fs, "message-id"@, k) {
                Some(i) => crate::wire::message_id_parsed(crate::text::trim(fs[i].1)),
                None => st.message_id,
            }
        }),
    decreases fs.len() - k,
{
    if k < fs.len() {
        let n = fs[k].0;
        let v = fs[k].1;
        lemma_singles_differ(n);
        let next = field_step(st, n, v)->Ok_0;
        lemma_fold_singles(fs, k + 1, next);
    }
}

/// A parsed message's `From`, `Sender`, subject, date and message id come
/// from the last header field of that name (up to ASCII case): the mailbox
/// it names, its decoded text, its parsed date or id; with no such field
/// the message has none.
pub proof fn law_parsed_single_fields(input: Seq<u8>)
    requires
        rfc822_parsed(input) is Ok,
    ensures
        ({
            let fs = header_fields(input.subrange(0, header_split(input).0))->Ok_0;
            let m = rfc822_parsed(input)->Ok_0;
            &&& m.from == match last_named(fs, "from"@, 0) {
                Some(i) => crate::wire::mailbox_parsed(quoted_words_escaped(fs[i].1)),
                None => None,
            }
            &&& m.sender == match last_named(fs, "sender"@, 0) {
                Some(i) => crate::wire::mailbox_parsed(quoted_words_escaped(fs[i].1)),
                None => None,
            }
            &&& m.subject == match last_named(fs, "subject"@, 0) {
                Some(i) => Some(crate::wire::encoded_word::rfc2047_decoded(fs[i].1)),
                None => None,
            }
            &&& m.date == match last_named(fs, "date"@, 0) {
                Some(i) => crate::wire::rfc2822_parsed(crate::text::trim(fs[i].1)),
                None => None,
            }
            &&& m.message_id == match last_named(fs, "message-id"@, 0) {
                Some(i) => crate::wire::message_id_parsed(crate::text::trim(fs[i].1)),
                None => None,
            }
        }),
{
    let fs = header_fields(input.subrange(0, header_split(input).0))->Ok_0;
    lemma_fold_singles(fs, 0, crate::wire::empty_state());
}

} // verus!
