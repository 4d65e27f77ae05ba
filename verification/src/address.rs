//! RFC 5322 mailboxes, groups, addresses, and address lists.
use vstd::prelude::*;
use crate::email::{EmailAddress, EmailAddressParseError, parsed_address};
use crate::text::{contains_newline, has_newline, opt_view, push_bytes, push_char, push_str, str_chars};

verus! {

// ---------------------------------------------------------------------------
// Model
// ---------------------------------------------------------------------------

/// A mailbox as plain values: optional display name and the address.
pub struct MailboxView {
    pub name: Option<Seq<char>>,
    pub email: Seq<char>,
}

/// An address item as plain values.
pub enum AddressView {
    Mailbox(MailboxView),
    Group(Seq<char>, Seq<MailboxView>),
}

/// A mailbox address with optional display name.
#[derive(Debug, PartialEq, Eq, Hash)]
pub struct Mailbox {
    name: Option<String>,
    email: EmailAddress,
}

impl View for Mailbox {
    type V = MailboxView;

    closed spec fn view(&self) -> MailboxView {
        MailboxView { name: opt_view(self.name), email: self.email@ }
    }
}

impl Clone for Mailbox {
    fn clone(&self) -> (r: Self)
        ensures
            r@ == self@,
    {
        Mailbox { name: clone_opt_string(&self.name), email: self.email.clone() }
    }
}

pub fn clone_opt_string(o: &Option<String>) -> (r: Option<String>)
    ensures
        opt_view(r) == opt_view(*o),
{
    match o {
        Some(s) => Some(s.clone()),
        None => None,
    }
}

impl Mailbox {
    /// The optional display name.
    pub fn name(&self) -> (r: Option<&str>)
        ensures
            match r {
                Some(n) => self@.name == Some(n@),
                None => self@.name is None,
            },
    {
        match &self.name {
            Some(n) => Some(n.as_str()),
            None => None,
        }
    }

    /// The mailbox email address.
    pub fn email(&self) -> (r: &EmailAddress)
        ensures
            r@ == self@.email,
    {
        &self.email
    }

    /// A mailbox without display name.
    pub fn from_email(email: EmailAddress) -> (r: Mailbox)
        ensures
            r@ == (MailboxView { name: None, email: email@ }),
    {
        Mailbox { name: None, email }
    }

    /// A mailbox with a display name.
    pub fn from_name_and_email(name: String, email: EmailAddress) -> (r: Mailbox)
        ensures
            r@ == (MailboxView { name: Some(name@), email: email@ }),
    {
        Mailbox { name: Some(name), email }
    }

    /// A mailbox with an optional display name.
    pub fn from_parts(name: Option<String>, email: EmailAddress) -> (r: Mailbox)
        ensures
            r@ == (MailboxView { name: opt_view(name), email: email@ }),
    {
        Mailbox { name, email }
    }

    /// Parses a single mailbox: a bare `addr-spec`, or else exactly one
    /// mailbox item of the address-list grammar.
    pub fn from_str(s: &str) -> (r: Result<Mailbox, MailboxParseError>)
        ensures
            mailbox_outcome(s@, r),
    {
        if let Ok(email) = EmailAddress::from_str(s) {
            return Ok(Mailbox::from_email(email));
        }
        let mut addresses = match parse_address_items(s) {
            Ok(items) => items,
            Err(source) => return Err(MailboxParseError::Backend { source }),
        };
        if addresses.len() != 1 {
            return Err(MailboxParseError::ExpectedSingleMailbox { found: addresses.len() });
        }
        match addresses.pop() {
            Some(Address::Mailbox(mailbox)) => Ok(mailbox),
            _ => Err(MailboxParseError::UnexpectedAddressKind),
        }
    }

    /// Parses a single mailbox from a string slice.
    pub fn try_from(s: &str) -> (r: Result<Mailbox, MailboxParseError>)
        ensures
            parsed_address(s@) matches Some(e) ==> r matches Ok(m) && m@ == (MailboxView { name: None, email: e }),
    {
        Self::from_str(s)
    }

    /// Renders `"display name" <email>`, or just the address when there is
    /// no display name. Non-ASCII names are kept verbatim.
    pub fn to_string(&self) -> (r: String)
        ensures
            r@ == display_mailbox(self@),
    {
        let mut out = String::new();
        self.write_to(&mut out);
        out
    }

    fn write_to(&self, out: &mut String)
        ensures
            final(out)@ == old(out)@ + display_mailbox(self@),
    {
        match &self.name {
            Some(name) => {
                write_quoted(name.as_str(), out);
                push_char(out, ' ');
                push_char(out, '<');
                push_str(out, self.email.as_str());
                push_char(out, '>');
                assert(final(out)@ =~= old(out)@ + display_mailbox(self@));
            },
            None => {
                push_str(out, self.email.as_str());
            },
        }
    }
}

/// Error returned when parsing a single mailbox.
#[derive(Debug)]
pub enum MailboxParseError {
    ExpectedSingleMailbox { found: usize },
    UnexpectedAddressKind,
    ContainsGroupEntry,
    Backend { source: AddressBackendError },
}

/// A named group of mailboxes.
#[derive(Debug, PartialEq, Eq, Hash)]
pub struct Group {
    name: String,
    members: Vec<Mailbox>,
}

pub open spec fn mailbox_views(ms: Seq<Mailbox>) -> Seq<MailboxView> {
    Seq::new(ms.len(), |i: int| ms[i]@)
}

impl View for Group {
    type V = (Seq<char>, Seq<MailboxView>);

    closed spec fn view(&self) -> (Seq<char>, Seq<MailboxView>) {
        (self.name@, mailbox_views(self.members@))
    }
}

pub proof fn lemma_mailbox_views_push(ms: Seq<Mailbox>, m: Mailbox)
    ensures
        mailbox_views(ms.push(m)) == mailbox_views(ms).push(m@),
{
    assert(mailbox_views(ms.push(m)) =~= mailbox_views(ms).push(m@));
}

pub proof fn lemma_mailbox_views_prefix(ms: Seq<Mailbox>, i: int)
    requires
        0 <= i < ms.len(),
    ensures
        mailbox_views(ms.subrange(0, i + 1)) == mailbox_views(ms.subrange(0, i)).push(ms[i]@),
{
    assert(mailbox_views(ms.subrange(0, i + 1)) =~= mailbox_views(ms.subrange(0, i)).push(ms[i]@));
}

pub fn clone_mailboxes(ms: &Vec<Mailbox>) -> (r: Vec<Mailbox>)
    ensures
        mailbox_views(r@) == mailbox_views(ms@),
{
    let mut out: Vec<Mailbox> = Vec::new();
    let mut i: usize = 0;
    while i < ms.len()
        invariant
            i <= ms@.len(),
            mailbox_views(out@) == mailbox_views(ms@.subrange(0, i as int)),
        decreases ms@.len() - i,
    {
        let m = ms[i].clone();
        proof {
            lemma_mailbox_views_push(out@, m);
            lemma_mailbox_views_prefix(ms@, i as int);
        }
        out.push(m);
        i = i + 1;
    }
    assert(ms@.subrange(0, ms@.len() as int) =~= ms@);
    out
}

impl Clone for Group {
    fn clone(&self) -> (r: Self)
        ensures
            r@ == self@,
    {
        Group { name: self.name.clone(), members: clone_mailboxes(&self.members) }
    }
}

impl Group {
    /// The group display name.
    pub fn name(&self) -> (r: &str)
        ensures
            r@ == self@.0,
    {
        self.name.as_str()
    }

    /// The group members.
    pub fn members(&self) -> (r: &[Mailbox])
        ensures
            mailbox_views(r@) == self@.1,
    {
        self.members.as_slice()
    }

    /// A group from its name and members.
    pub fn new(name: String, members: Vec<Mailbox>) -> (r: Group)
        ensures
            r@ == (name@, mailbox_views(members@)),
    {
        Group { name, members }
    }

    /// Parses exactly one group item.
    pub fn from_str(s: &str) -> (r: Result<Group, GroupParseError>)
        ensures
            match address_items(s@) {
                Err(d) => r matches Err(GroupParseError::Backend { source }) && defect_reported(source, d),
                Ok(items) => if items.len() != 1 {
                    r matches Err(GroupParseError::ExpectedSingleGroup { found }) && found == items.len()
                } else {
                    match items[0] {
                        AddressView::Group(n, ms) => r matches Ok(g) && g@ == (n, ms),
                        AddressView::Mailbox(..) => r matches Err(GroupParseError::UnexpectedAddressKind),
                    }
                },
            },
    {
        let mut addresses = match parse_address_items(s) {
            Ok(items) => items,
            Err(source) => return Err(GroupParseError::Backend { source }),
        };
        if addresses.len() != 1 {
            return Err(GroupParseError::ExpectedSingleGroup { found: addresses.len() });
        }
        match addresses.pop() {
            Some(Address::Group(group)) => Ok(group),
            _ => Err(GroupParseError::UnexpectedAddressKind),
        }
    }

    /// Parses a single group from a string slice.
    pub fn try_from(s: &str) -> (r: Result<Group, GroupParseError>)
        ensures
            match address_items(s@) {
                Err(d) => r is Err,
                Ok(items) => r is Ok <==> (items.len() == 1 && items[0] is Group),
            },
    {
        Self::from_str(s)
    }

    /// Renders `"display name": member1, member2, ...;`.
    pub fn to_string(&self) -> (r: String)
        ensures
            r@ == display_group(self@),
    {
        let mut out = String::new();
        self.write_to(&mut out);
        out
    }

    fn write_to(&self, out: &mut String)
        ensures
            final(out)@ == old(out)@ + display_group(self@),
    {
        let ghost start = out@;
        write_quoted(self.name.as_str(), out);
        push_char(out, ':');
        let ghost views = mailbox_views(self.members@);
        let mut i: usize = 0;
        while i < self.members.len()
            invariant
                i <= self.members@.len(),
                views == mailbox_views(self.members@),
                out@ == start + quoted(self.name@) + seq![':'] + join_mailboxes(views.subrange(0, i as int)),
            decreases self.members@.len() - i,
        {
            if i > 0 {
                push_char(out, ',');
                push_char(out, ' ');
            }
            self.members[i].write_to(out);
            proof {
                lemma_join_mailboxes_push(views.subrange(0, i as int), views[i as int]);
                assert(views.subrange(0, i + 1) =~= views.subrange(0, i as int).push(views[i as int]));
            }
            i = i + 1;
        }
        push_char(out, ';');
        assert(views.subrange(0, views.len() as int) =~= views);
        assert(out@ =~= start + display_group(self@));
    }
}

/// Error returned when parsing a single group.
#[derive(Debug)]
pub enum GroupParseError {
    ExpectedSingleGroup { found: usize },
    UnexpectedAddressKind,
    Backend { source: AddressBackendError },
}

/// A single address item: either a mailbox or a group.
#[derive(Debug, PartialEq, Eq, Hash)]
pub enum Address {
    Mailbox(Mailbox),
    Group(Group),
}

impl View for Address {
    type V = AddressView;

    open spec fn view(&self) -> AddressView {
        match self {
            Address::Mailbox(m) => AddressView::Mailbox(m@),
            Address::Group(g) => AddressView::Group(g@.0, g@.1),
        }
    }
}

impl Clone for Address {
    fn clone(&self) -> (r: Self)
        ensures
            r@ == self@,
    {
        match self {
            Address::Mailbox(m) => Address::Mailbox(m.clone()),
            Address::Group(g) => Address::Group(g.clone()),
        }
    }
}

pub open spec fn address_views(a: Seq<Address>) -> Seq<AddressView> {
    Seq::new(a.len(), |i: int| a[i]@)
}

/// The mailboxes an address item stands for.
pub open spec fn item_mailboxes(a: AddressView) -> Seq<MailboxView> {
    match a {
        AddressView::Mailbox(m) => seq![m],
        AddressView::Group(_, ms) => ms,
    }
}

/// How many mailboxes address items hold, a group counting its members.
pub open spec fn mailbox_total(a: Seq<AddressView>) -> nat
    decreases a.len(),
{
    if a.len() == 0 {
        0
    } else {
        mailbox_total(a.drop_last()) + item_mailboxes(a.last()).len()
    }
}

pub proof fn lemma_address_views_push(a: Seq<Address>, x: Address)
    ensures
        address_views(a.push(x)) == address_views(a).push(x@),
{
    assert(address_views(a.push(x)) =~= address_views(a).push(x@));
}

pub proof fn lemma_address_views_prefix(a: Seq<Address>, i: int)
    requires
        0 <= i < a.len(),
    ensures
        address_views(a.subrange(0, i + 1)) == address_views(a.subrange(0, i)).push(a[i]@),
{
    assert(address_views(a.subrange(0, i + 1)) =~= address_views(a.subrange(0, i)).push(a[i]@));
}

pub fn clone_addresses(a: &Vec<Address>) -> (r: Vec<Address>)
    ensures
        address_views(r@) == address_views(a@),
{
    let mut out: Vec<Address> = Vec::new();
    let mut i: usize = 0;
    while i < a.len()
        invariant
            i <= a@.len(),
            address_views(out@) == address_views(a@.subrange(0, i as int)),
        decreases a@.len() - i,
    {
        let c = a[i].clone();
        proof {
            lemma_address_views_push(out@, c);
            lemma_address_views_prefix(a@, i as int);
        }
        out.push(c);
        i = i + 1;
    }
    assert(a@.subrange(0, a@.len() as int) =~= a@);
    out
}

impl Address {
    /// The mailbox entries represented by this item: the mailbox itself, or
    /// the group members.
    pub fn mailboxes(&self) -> (r: Vec<&Mailbox>)
        ensures
            r@.len() == item_mailboxes(self@).len(),
            forall|i: int| 0 <= i < r@.len() ==> (#[trigger] r@[i])@ == item_mailboxes(self@)[i],
    {
        let mut out: Vec<&Mailbox> = Vec::new();
        match self {
            Address::Mailbox(m) => {
                out.push(m);
            },
            Address::Group(g) => {
                let mut i: usize = 0;
                while i < g.members.len()
                    invariant
                        i <= g.members@.len(),
                        out@.len() == i,
                        forall|j: int| 0 <= j < i ==> (#[trigger] out@[j])@ == g.members@[j]@,
                    decreases g.members@.len() - i,
                {
                    out.push(&g.members[i]);
                    i = i + 1;
                }
            },
        }
        out
    }

    /// Parses a single address item (mailbox or group).
    pub fn from_str(s: &str) -> (r: Result<Address, AddressParseError>)
        ensures
            parsed_address(s@) matches Some(e) ==> r matches Ok(a) && a@ == AddressView::Mailbox(
                MailboxView { name: None, email: e },
            ),
            parsed_address(s@) is None ==> match address_items(s@) {
                Err(d) => r matches Err(AddressParseError::Backend { source }) && defect_reported(source, d),
                Ok(items) => if items.len() != 1 {
                    r matches Err(AddressParseError::ExpectedSingleAddress { found }) && found == items.len()
                } else {
                    r matches Ok(a) && a@ == items[0]
                },
            },
    {
        if let Ok(email) = EmailAddress::from_str(s) {
            return Ok(Address::Mailbox(Mailbox::from_email(email)));
        }
        let mut addresses = match parse_address_items(s) {
            Ok(items) => items,
            Err(source) => return Err(AddressParseError::Backend { source }),
        };
        if addresses.len() != 1 {
            return Err(AddressParseError::ExpectedSingleAddress { found: addresses.len() });
        }
        match addresses.pop() {
            Some(a) => Ok(a),
            None => Err(AddressParseError::ExpectedSingleAddress { found: 0 }),
        }
    }

    /// Parses a single address from a string slice.
    pub fn try_from(s: &str) -> (r: Result<Address, AddressParseError>)
        ensures
            parsed_address(s@) matches Some(e) ==> r matches Ok(a) && a@ == AddressView::Mailbox(
                MailboxView { name: None, email: e },
            ),
    {
        Self::from_str(s)
    }

    /// Renders the mailbox or the group.
    pub fn to_string(&self) -> (r: String)
        ensures
            r@ == display_address(self@),
    {
        match self {
            Address::Mailbox(m) => m.to_string(),
            Address::Group(g) => g.to_string(),
        }
    }

    fn write_to(&self, out: &mut String)
        ensures
            final(out)@ == old(out)@ + display_address(self@),
    {
        match self {
            Address::Mailbox(m) => m.write_to(out),
            Address::Group(g) => g.write_to(out),
        }
    }
}

/// Error returned when parsing a single address.
#[derive(Debug)]
pub enum AddressParseError {
    ExpectedSingleAddress { found: usize },
    Backend { source: AddressBackendError },
}

// ---------------------------------------------------------------------------
// Rendering
// ---------------------------------------------------------------------------

/// `value` with `\` and `"` escaped by a backslash.
pub open spec fn escape_quoted(value: Seq<char>) -> Seq<char>
    decreases value.len(),
{
    if value.len() == 0 {
        seq![]
    } else {
        let c = value.last();
        escape_quoted(value.drop_last()) + if c == '\\' || c == '"' {
            seq!['\\', c]
        } else {
            seq![c]
        }
    }
}

/// `value` as a quoted string.
pub open spec fn quoted(value: Seq<char>) -> Seq<char> {
    seq!['"'] + escape_quoted(value) + seq!['"']
}

pub open spec fn display_mailbox(m: MailboxView) -> Seq<char> {
    match m.name {
        Some(name) => quoted(name) + seq![' ', '<'] + m.email + seq!['>'],
        None => m.email,
    }
}

/// Mailboxes joined by `", "`.
pub open spec fn join_mailboxes(ms: Seq<MailboxView>) -> Seq<char>
    decreases ms.len(),
{
    if ms.len() == 0 {
        seq![]
    } else if ms.len() == 1 {
        display_mailbox(ms[0])
    } else {
        join_mailboxes(ms.drop_last()) + seq![',', ' '] + display_mailbox(ms.last())
    }
}

pub proof fn lemma_join_mailboxes_push(ms: Seq<MailboxView>, m: MailboxView)
    ensures
        join_mailboxes(ms.push(m)) == if ms.len() == 0 {
            display_mailbox(m)
        } else {
            join_mailboxes(ms) + seq![',', ' '] + display_mailbox(m)
        },
{
    assert(ms.push(m).drop_last() =~= ms);
}

pub open spec fn display_group(g: (Seq<char>, Seq<MailboxView>)) -> Seq<char> {
    quoted(g.0) + seq![':'] + join_mailboxes(g.1) + seq![';']
}

pub open spec fn display_address(a: AddressView) -> Seq<char> {
    match a {
        AddressView::Mailbox(m) => display_mailbox(m),
        AddressView::Group(n, ms) => display_group((n, ms)),
    }
}

/// Address items joined by `", "`.
pub open spec fn join_addresses(a: Seq<AddressView>) -> Seq<char>
    decreases a.len(),
{
    if a.len() == 0 {
        seq![]
    } else if a.len() == 1 {
        display_address(a[0])
    } else {
        join_addresses(a.drop_last()) + seq![',', ' '] + display_address(a.last())
    }
}

pub fn write_quoted(value: &str, out: &mut String)
    ensures
        final(out)@ == old(out)@ + quoted(value@),
{
    let v = str_chars(value);
    let ghost start = out@;
    push_char(out, '"');
    let mut i: usize = 0;
    while i < v.len()
        invariant
            i <= v@.len(),
            v@ == value@,
            out@ == start + seq!['"'] + escape_quoted(v@.subrange(0, i as int)),
        decreases v@.len() - i,
    {
        let c = v[i];
        if c == '\\' || c == '"' {
            push_char(out, '\\');
        }
        push_char(out, c);
        proof {
            let pre = v@.subrange(0, i + 1);
            assert(pre.drop_last() =~= v@.subrange(0, i as int));
            assert(pre.last() == c);
        }
        i = i + 1;
        assert(out@ =~= start + seq!['"'] + escape_quoted(v@.subrange(0, i as int)));
    }
    push_char(out, '"');
    assert(v@.subrange(0, v@.len() as int) =~= v@);
    assert(out@ =~= start + quoted(value@));
}

// ---------------------------------------------------------------------------
// Backend: the mail-parser address grammar
// ---------------------------------------------------------------------------

/// One address of a parsed header: display name and address, as plain values.
pub type RawAddr = (Option<String>, Option<String>);

/// A parsed `To:` field as plain values: a flat list, or groups whose name
/// may be absent.
pub enum RawAddressField {
    List(Vec<RawAddr>),
    Group(Vec<(Option<String>, Vec<RawAddr>)>),
}

pub type RawAddrView = (Option<Seq<char>>, Option<Seq<char>>);

pub enum RawAddressFieldView {
    List(Seq<RawAddrView>),
    Group(Seq<(Option<Seq<char>>, Seq<RawAddrView>)>),
}

pub open spec fn raw_addr_view(a: RawAddr) -> RawAddrView {
    (opt_view(a.0), opt_view(a.1))
}

pub open spec fn raw_addrs_view(a: Seq<RawAddr>) -> Seq<RawAddrView> {
    Seq::new(a.len(), |i: int| raw_addr_view(a[i]))
}

impl View for RawAddressField {
    type V = RawAddressFieldView;

    open spec fn view(&self) -> RawAddressFieldView {
        match self {
            RawAddressField::List(l) => RawAddressFieldView::List(raw_addrs_view(l@)),
            RawAddressField::Group(g) => RawAddressFieldView::Group(
                Seq::new(g@.len(), |i: int| (opt_view(g@[i].0), raw_addrs_view(g@[i].1@))),
            ),
        }
    }
}

/// What `mail_parser` produces for a raw header block: `None` when
/// `MessageParser::parse_headers` fails, `Some(None)` when the message has
/// no `To` address field, else that field's content.
pub uninterp spec fn mail_parser_to_field(raw: Seq<u8>) -> Option<Option<RawAddressFieldView>>;

/// Runs `mail_parser::MessageParser::new().with_address_headers()`, then
/// `parse_headers` on `raw` and `Message::to`, and converts the
/// `mail_parser::Address` it finds into plain values, one for one. The
/// contract claims only that the outcome is the named function of `raw`.
#[verifier::external_body]
fn mail_parser_to_address(raw: &[u8]) -> (r: Option<Option<RawAddressField>>)
    ensures
        match r {
            None => mail_parser_to_field(raw@) is None,
            Some(None) => mail_parser_to_field(raw@) == Some(None::<RawAddressFieldView>),
            Some(Some(f)) => mail_parser_to_field(raw@) == Some(Some(f@)),
        },
{
    let conv = |a: &mail_parser::Addr| (a.name().map(String::from), a.address().map(String::from));
    let message = mail_parser::MessageParser::new().with_address_headers().parse_headers(raw)?;
    Some(match message.to() {
        None => None,
        Some(mail_parser::Address::List(list)) => Some(RawAddressField::List(list.iter().map(conv).collect())),
        Some(mail_parser::Address::Group(groups)) => Some(RawAddressField::Group(
            groups.iter().map(|g| (g.name.as_deref().map(String::from), g.addresses.iter().map(conv).collect())).collect(),
        )),
    })
}

/// Maximum byte length accepted by the address-list parser.
pub const MAX_ADDRESS_INPUT_BYTES: usize = 65536;

/// Why the backend rejected an input, as plain values.
pub enum BackendDefect {
    InputContainsRawNewlines,
    InputTooLong(int),
    HeaderParse,
    MissingAddress,
    MissingAddrSpec,
    InvalidAddrSpec(Seq<char>),
    GroupMemberMissingAddrSpec(int),
    InvalidGroupMemberAddrSpec(int, Seq<char>),
    GroupMissingName,
}

/// Errors of the address-list backend.
#[derive(Debug)]
pub enum AddressBackendError {
    InputContainsRawNewlines,
    InputTooLong { len: usize, max: usize },
    HeaderParse,
    MissingAddress,
    MissingAddrSpec,
    InvalidAddrSpec { input: String, source: EmailAddressParseError },
    GroupMemberMissingAddrSpec { index: usize },
    InvalidGroupMemberAddrSpec { index: usize, input: String, source: EmailAddressParseError },
    GroupMissingName,
}

/// The error value corresponds to the defect.
pub open spec fn defect_reported(e: AddressBackendError, d: BackendDefect) -> bool {
    match d {
        BackendDefect::InputContainsRawNewlines => e is InputContainsRawNewlines,
        BackendDefect::InputTooLong(n) => e matches AddressBackendError::InputTooLong { len, max } && len == n && max
            == MAX_ADDRESS_INPUT_BYTES,
        BackendDefect::HeaderParse => e is HeaderParse,
        BackendDefect::MissingAddress => e is MissingAddress,
        BackendDefect::MissingAddrSpec => e is MissingAddrSpec,
        BackendDefect::InvalidAddrSpec(i) => e matches AddressBackendError::InvalidAddrSpec { input, .. } && input@
            == i,
        BackendDefect::GroupMemberMissingAddrSpec(k) => e matches AddressBackendError::GroupMemberMissingAddrSpec {
            index,
        } && index == k,
        BackendDefect::InvalidGroupMemberAddrSpec(k, i) => e matches AddressBackendError::InvalidGroupMemberAddrSpec {
            index,
            input,
            ..
        } && index == k && input@ == i,
        BackendDefect::GroupMissingName => e is GroupMissingName,
    }
}

/// One parsed address converted to a mailbox.
pub open spec fn convert_addr(a: RawAddrView) -> Result<MailboxView, BackendDefect> {
    match a.1 {
        None => Err(BackendDefect::MissingAddrSpec),
        Some(addr) => match parsed_address(addr) {
            None => Err(BackendDefect::InvalidAddrSpec(addr)),
            Some(e) => Ok(MailboxView { name: a.0, email: e }),
        },
    }
}

/// Addresses `list[i..]` converted to mailbox items (first failure wins).
pub open spec fn convert_flat(list: Seq<RawAddrView>, i: int) -> Result<Seq<AddressView>, BackendDefect>
    decreases list.len() - i,
{
    if i >= list.len() {
        Ok(seq![])
    } else {
        match convert_addr(list[i]) {
            Err(d) => Err(d),
            Ok(m) => match convert_flat(list, i + 1) {
                Err(d) => Err(d),
                Ok(rest) => Ok(seq![AddressView::Mailbox(m)] + rest),
            },
        }
    }
}

/// A member failure reported with the member's index.
pub open spec fn member_defect(d: BackendDefect, i: int) -> BackendDefect {
    match d {
        BackendDefect::MissingAddrSpec => BackendDefect::GroupMemberMissingAddrSpec(i),
        BackendDefect::InvalidAddrSpec(input) => BackendDefect::InvalidGroupMemberAddrSpec(i, input),
        other => other,
    }
}

/// Group members `ms[i..]` converted to mailboxes.
pub open spec fn convert_members(ms: Seq<RawAddrView>, i: int) -> Result<Seq<MailboxView>, BackendDefect>
    decreases ms.len() - i,
{
    if i >= ms.len() {
        Ok(seq![])
    } else {
        match convert_addr(ms[i]) {
            Err(d) => Err(member_defect(d, i)),
            Ok(m) => match convert_members(ms, i + 1) {
                Err(d) => Err(d),
                Ok(rest) => Ok(seq![m] + rest),
            },
        }
    }
}

/// The items of one group entry: a named group, or the flattened mailboxes
/// of an unnamed one.
pub open spec fn convert_group_entry(g: (Option<Seq<char>>, Seq<RawAddrView>)) -> Result<Seq<AddressView>, BackendDefect> {
    match g.0 {
        Some(name) => match convert_members(g.1, 0) {
            Err(d) => Err(d),
            Ok(ms) => Ok(seq![AddressView::Group(name, ms)]),
        },
        None => convert_flat(g.1, 0),
    }
}

/// Group entries `gs[i..]` converted and concatenated.
pub open spec fn convert_groups(gs: Seq<(Option<Seq<char>>, Seq<RawAddrView>)>, i: int) -> Result<Seq<AddressView>, BackendDefect>
    decreases gs.len() - i,
{
    if i >= gs.len() {
        Ok(seq![])
    } else {
        match convert_group_entry(gs[i]) {
            Err(d) => Err(d),
            Ok(h) => match convert_groups(gs, i + 1) {
                Err(d) => Err(d),
                Ok(rest) => Ok(h + rest),
            },
        }
    }
}

/// The bytes handed to the header parser: `To: <input>\r\n\r\n`.
pub open spec fn to_field_bytes(input: Seq<char>) -> Seq<u8> {
    seq![84u8, 111u8, 58u8, 32u8] + vstd::utf8::encode_utf8(input) + seq![13u8, 10u8, 13u8, 10u8]
}

/// The address items of an address-list string, or the backend defect.
pub open spec fn address_items(input: Seq<char>) -> Result<Seq<AddressView>, BackendDefect> {
    let n = vstd::utf8::encode_utf8(input).len();
    if n > MAX_ADDRESS_INPUT_BYTES {
        Err(BackendDefect::InputTooLong(n as int))
    } else if has_newline(input) {
        Err(BackendDefect::InputContainsRawNewlines)
    } else {
        match mail_parser_to_field(to_field_bytes(input)) {
            None => Err(BackendDefect::HeaderParse),
            Some(None) => Err(BackendDefect::MissingAddress),
            Some(Some(RawAddressFieldView::List(list))) => convert_flat(list, 0),
            Some(Some(RawAddressFieldView::Group(gs))) => convert_groups(gs, 0),
        }
    }
}

fn convert_mailbox(a: &RawAddr) -> (r: Result<Mailbox, AddressBackendError>)
    ensures
        match convert_addr(raw_addr_view(*a)) {
            Err(d) => r matches Err(e) && defect_reported(e, d),
            Ok(m) => r matches Ok(mb) && mb@ == m,
        },
{
    match &a.1 {
        None => Err(AddressBackendError::MissingAddrSpec),
        Some(raw) => match EmailAddress::from_str(raw.as_str()) {
            Err(source) => Err(AddressBackendError::InvalidAddrSpec { input: raw.clone(), source }),
            Ok(email) => Ok(Mailbox::from_parts(clone_opt_string(&a.0), email)),
        },
    }
}

fn convert_flat_exec(list: &Vec<RawAddr>, out: &mut Vec<Address>) -> (r: Result<(), AddressBackendError>)
    ensures
        match convert_flat(raw_addrs_view(list@), 0) {
            Err(d) => r matches Err(e) && defect_reported(e, d),
            Ok(items) => r is Ok && address_views(final(out)@) == address_views(old(out)@) + items,
        },
{
    let ghost lv = raw_addrs_view(list@);
    let ghost base = address_views(out@);
    let mut i: usize = 0;
    while i < list.len()
        invariant
            i <= list@.len(),
            lv == raw_addrs_view(list@),
            convert_flat(lv, 0) == match convert_flat(lv, i as int) {
                Err(d) => Err(d),
                Ok(rest) => Ok(address_views(out@).subrange(base.len() as int, address_views(out@).len() as int) + rest),
            },
            address_views(out@).subrange(0, base.len() as int) == base,
            base.len() <= address_views(out@).len(),
        decreases list@.len() - i,
    {
        assert(lv[i as int] == raw_addr_view(list@[i as int]));
        let m = convert_mailbox(&list[i])?;
        let ghost before = address_views(out@);
        out.push(Address::Mailbox(m));
        proof {
            let after = address_views(out@);
            assert(after =~= before.push(AddressView::Mailbox(m@)));
            assert(after.subrange(0, base.len() as int) =~= before.subrange(0, base.len() as int));
            assert(after.subrange(base.len() as int, after.len() as int) =~= before.subrange(base.len() as int,
                before.len() as int).push(AddressView::Mailbox(m@)));
            match convert_flat(lv, i + 1) {
                Err(d) => {},
                Ok(rest) => {
                    assert(before.subrange(base.len() as int, before.len() as int) + (seq![AddressView::Mailbox(m@)] + rest)
                        =~= after.subrange(base.len() as int, after.len() as int) + rest);
                },
            }
        }
        i = i + 1;
    }
    proof {
        let after = address_views(out@);
        assert(after =~= after.subrange(0, base.len() as int) + after.subrange(base.len() as int, after.len() as int));
        assert(after.subrange(base.len() as int, after.len() as int) + Seq::<AddressView>::empty() =~= after.subrange(
            base.len() as int, after.len() as int));
    }
    Ok(())
}

fn convert_group_members(name: &String, ms: &Vec<RawAddr>) -> (r: Result<Group, AddressBackendError>)
    ensures
        match convert_members(raw_addrs_view(ms@), 0) {
            Err(d) => r matches Err(e) && defect_reported(e, d),
            Ok(mv) => r matches Ok(g) && g@ == (name@, mv),
        },
{
    let ghost lv = raw_addrs_view(ms@);
    let mut members: Vec<Mailbox> = Vec::new();
    let mut i: usize = 0;
    while i < ms.len()
        invariant
            i <= ms@.len(),
            lv == raw_addrs_view(ms@),
            convert_members(lv, 0) == match convert_members(lv, i as int) {
                Err(d) => Err(d),
                Ok(rest) => Ok(mailbox_views(members@) + rest),
            },
        decreases ms@.len() - i,
    {
        assert(lv[i as int] == raw_addr_view(ms@[i as int]));
        match convert_mailbox(&ms[i]) {
            Err(error) => {
                let mapped = match error {
                    AddressBackendError::MissingAddrSpec => AddressBackendError::GroupMemberMissingAddrSpec { index: i },
                    AddressBackendError::InvalidAddrSpec { input, source } =>
                        AddressBackendError::InvalidGroupMemberAddrSpec { index: i, input, source },
                    other => other,
                };
                return Err(mapped);
            },
            Ok(m) => {
                let ghost before = mailbox_views(members@);
                members.push(m);
                proof {
                    assert(mailbox_views(members@) =~= before.push(m@));
                    match convert_members(lv, i + 1) {
                        Err(d) => {},
                        Ok(rest) => {
                            assert(before + (seq![m@] + rest) =~= mailbox_views(members@) + rest);
                        },
                    }
                }
            },
        }
        i = i + 1;
    }
    assert(mailbox_views(members@) + Seq::<MailboxView>::empty() =~= mailbox_views(members@));
    Ok(Group { name: name.clone(), members })
}

fn parse_address_items(input: &str) -> (r: Result<Vec<Address>, AddressBackendError>)
    ensures
        match address_items(input@) {
            Err(d) => r matches Err(e) && defect_reported(e, d),
            Ok(items) => r matches Ok(v) && address_views(v@) == items,
        },
{
    let bytes = input.as_bytes();
    if bytes.len() > MAX_ADDRESS_INPUT_BYTES {
        return Err(AddressBackendError::InputTooLong { len: bytes.len(), max: MAX_ADDRESS_INPUT_BYTES });
    }
    if contains_newline(input) {
        return Err(AddressBackendError::InputContainsRawNewlines);
    }
    let mut raw: Vec<u8> = Vec::new();
    raw.push(84u8);
    raw.push(111u8);
    raw.push(58u8);
    raw.push(32u8);
    push_bytes(&mut raw, bytes);
    raw.push(13u8);
    raw.push(10u8);
    raw.push(13u8);
    raw.push(10u8);
    assert(raw@ =~= to_field_bytes(input@));
    let field = match mail_parser_to_address(raw.as_slice()) {
        None => return Err(AddressBackendError::HeaderParse),
        Some(None) => return Err(AddressBackendError::MissingAddress),
        Some(Some(f)) => f,
    };
    let mut items: Vec<Address> = Vec::new();
    match field {
        RawAddressField::List(list) => {
            convert_flat_exec(&list, &mut items)?;
            assert(address_views(items@) =~= Seq::<AddressView>::empty() + address_views(items@));
        },
        RawAddressField::Group(groups) => {
            let ghost gv = Seq::new(groups@.len(), |i: int| (opt_view(groups@[i].0), raw_addrs_view(groups@[i].1@)));
            assert(address_items(input@) == convert_groups(gv, 0));
            let mut i: usize = 0;
            while i < groups.len()
                invariant
                    i <= groups@.len(),
                    address_items(input@) == convert_groups(gv, 0),
                    gv == Seq::new(groups@.len(), |i: int| (opt_view(groups@[i].0), raw_addrs_view(groups@[i].1@))),
                    convert_groups(gv, 0) == match convert_groups(gv, i as int) {
                        Err(d) => Err(d),
                        Ok(rest) => Ok(address_views(items@) + rest),
                    },
                decreases groups@.len() - i,
            {
                let ghost before = address_views(items@);
                let (name, members) = &groups[i];
                assert(gv[i as int] == (opt_view(*name), raw_addrs_view(members@)));
                match name {
                    Some(n) => {
                        let g = match convert_group_members(n, members) {
                            Ok(g) => g,
                            Err(e) => {
                                assert(convert_group_entry(gv[i as int]) is Err);
                                return Err(e);
                            },
                        };
                        items.push(Address::Group(g));
                        proof {
                            assert(address_views(items@) =~= before.push(AddressView::Group(g@.0, g@.1)));
                            match convert_groups(gv, i + 1) {
                                Err(d) => {},
                                Ok(rest) => {
                                    assert(before + (seq![AddressView::Group(g@.0, g@.1)] + rest) =~= address_views(items@)
                                        + rest);
                                },
                            }
                        }
                    },
                    None => {
                        match convert_flat_exec(members, &mut items) {
                            Ok(()) => {},
                            Err(e) => {
                                assert(convert_group_entry(gv[i as int]) is Err);
                                return Err(e);
                            },
                        }
                        proof {
                            match convert_groups(gv, i + 1) {
                                Err(d) => {},
                                Ok(rest) => {
                                    let h = convert_flat(raw_addrs_view(members@), 0)->Ok_0;
                                    assert(before + (h + rest) =~= address_views(items@) + rest);
                                },
                            }
                        }
                    },
                }
                i = i + 1;
            }
            assert(address_views(items@) + Seq::<AddressView>::empty() =~= address_views(items@));
        },
    }
    Ok(items)
}

// ---------------------------------------------------------------------------
// Lists
// ---------------------------------------------------------------------------

/// A parsed list of address items.
#[derive(Debug, Default, PartialEq, Eq, Hash)]
pub struct AddressList {
    items: Vec<Address>,
}

impl View for AddressList {
    type V = Seq<AddressView>;

    closed spec fn view(&self) -> Seq<AddressView> {
        address_views(self.items@)
    }
}

impl Clone for AddressList {
    fn clone(&self) -> (r: Self)
        ensures
            r@ == self@,
    {
        AddressList { items: clone_addresses(&self.items) }
    }
}

impl AddressList {
    pub fn len(&self) -> (r: usize)
        ensures
            r == self@.len(),
    {
        self.items.len()
    }

    pub fn is_empty(&self) -> (r: bool)
        ensures
            r == (self@.len() == 0),
    {
        self.items.len() == 0
    }

    pub fn as_slice(&self) -> (r: &[Address])
        ensures
            address_views(r@) == self@,
    {
        self.items.as_slice()
    }

    pub fn into_vec(self) -> (r: Vec<Address>)
        ensures
            address_views(r@) == self@,
    {
        self.items
    }

    pub fn from_vec(items: Vec<Address>) -> (r: AddressList)
        ensures
            r@ == address_views(items@),
    {
        AddressList { items }
    }

    /// Parses an address list.
    pub fn from_str(s: &str) -> (r: Result<AddressList, AddressParseError>)
        ensures
            match address_items(s@) {
                Err(d) => r matches Err(AddressParseError::Backend { source }) && defect_reported(source, d),
                Ok(items) => r matches Ok(l) && l@ == items,
            },
    {
        match parse_address_items(s) {
            Ok(items) => Ok(AddressList { items }),
            Err(source) => Err(AddressParseError::Backend { source }),
        }
    }

    /// Parses each string as a single address.
    pub fn try_from_strs(values: &[&str]) -> (r: Result<AddressList, AddressParseError>)
        ensures
            r matches Ok(l) ==> l@.len() == values@.len(),
            r is Ok <==> forall|i: int| 0 <= i < values@.len() ==> single_address_ok(#[trigger] values@[i]@),
    {
        let mut items: Vec<Address> = Vec::new();
        let mut i: usize = 0;
        while i < values.len()
            invariant
                i <= values@.len(),
                items@.len() == i,
                forall|j: int| 0 <= j < i ==> single_address_ok(#[trigger] values@[j]@),
            decreases values@.len() - i,
        {
            let a = Address::from_str(values[i])?;
            proof {
                lemma_address_from_str_ok(values@[i as int]@);
            }
            items.push(a);
            i = i + 1;
        }
        Ok(AddressList { items })
    }

    /// Renders the items joined by `", "`.
    pub fn to_string(&self) -> (r: String)
        ensures
            r@ == join_addresses(self@),
    {
        let mut out = String::new();
        let ghost views = address_views(self.items@);
        let mut i: usize = 0;
        while i < self.items.len()
            invariant
                i <= self.items@.len(),
                views == address_views(self.items@),
                out@ == join_addresses(views.subrange(0, i as int)),
            decreases self.items@.len() - i,
        {
            if i > 0 {
                push_char(&mut out, ',');
                push_char(&mut out, ' ');
            }
            self.items[i].write_to(&mut out);
            proof {
                let pre = views.subrange(0, i + 1);
                assert(pre.drop_last() =~= views.subrange(0, i as int));
            }
            i = i + 1;
        }
        assert(views.subrange(0, views.len() as int) =~= views);
        out
    }
}

/// Whether `Address::from_str` accepts `s`.
pub open spec fn single_address_ok(s: Seq<char>) -> bool {
    parsed_address(s) is Some || (address_items(s) matches Ok(items) && items.len() == 1)
}

pub proof fn lemma_address_from_str_ok(s: Seq<char>)
    ensures
        single_address_ok(s) <==> (parsed_address(s) is Some || (address_items(s) matches Ok(items) && items.len()
            == 1)),
{
}

/// What `Mailbox::from_str` returns for `s`.
pub open spec fn mailbox_outcome(s: Seq<char>, r: Result<Mailbox, MailboxParseError>) -> bool {
    &&& parsed_address(s) matches Some(e) ==> r matches Ok(m) && m@ == (MailboxView { name: None, email: e })
    &&& parsed_address(s) is None ==> match address_items(s) {
        Err(d) => r matches Err(MailboxParseError::Backend { source }) && defect_reported(source, d),
        Ok(items) => if items.len() != 1 {
            r matches Err(MailboxParseError::ExpectedSingleMailbox { found }) && found == items.len()
        } else {
            match items[0] {
                AddressView::Mailbox(mv) => r matches Ok(m) && m@ == mv,
                AddressView::Group(..) => r matches Err(MailboxParseError::UnexpectedAddressKind),
            }
        },
    }
}

/// The mailbox that `s` spells on its own, if it spells one: a bare address,
/// or a single mailbox item.
pub open spec fn single_mailbox(s: Seq<char>) -> Option<MailboxView> {
    match parsed_address(s) {
        Some(e) => Some(MailboxView { name: None, email: e }),
        None => match address_items(s) {
            Err(_) => None,
            Ok(items) => if items.len() != 1 {
                None
            } else {
                match items[0] {
                    AddressView::Mailbox(mv) => Some(mv),
                    AddressView::Group(..) => None,
                }
            },
        },
    }
}

pub proof fn lemma_mailbox_outcome(s: Seq<char>, r: Result<Mailbox, MailboxParseError>)
    requires
        mailbox_outcome(s, r),
    ensures
        r is Ok <==> single_mailbox(s) is Some,
        r matches Ok(m) ==> single_mailbox(s) == Some(m@),
{
}

/// A parsed list of mailboxes; groups are rejected.
#[derive(Debug, Default, PartialEq, Eq, Hash)]
pub struct MailboxList {
    items: Vec<Mailbox>,
}

impl View for MailboxList {
    type V = Seq<MailboxView>;

    closed spec fn view(&self) -> Seq<MailboxView> {
        mailbox_views(self.items@)
    }
}

/// Only mailboxes, no groups.
pub open spec fn all_mailboxes(items: Seq<AddressView>) -> bool {
    forall|i: int| 0 <= i < items.len() ==> (#[trigger] items[i]) is Mailbox
}

pub open spec fn mailboxes_of(items: Seq<AddressView>) -> Seq<MailboxView> {
    Seq::new(items.len(), |i: int| items[i]->Mailbox_0)
}

impl MailboxList {
    pub fn len(&self) -> (r: usize)
        ensures
            r == self@.len(),
    {
        self.items.len()
    }

    pub fn is_empty(&self) -> (r: bool)
        ensures
            r == (self@.len() == 0),
    {
        self.items.len() == 0
    }

    pub fn as_slice(&self) -> (r: &[Mailbox])
        ensures
            mailbox_views(r@) == self@,
    {
        self.items.as_slice()
    }

    pub fn into_vec(self) -> (r: Vec<Mailbox>)
        ensures
            mailbox_views(r@) == self@,
    {
        self.items
    }

    pub fn from_vec(items: Vec<Mailbox>) -> (r: MailboxList)
        ensures
            r@ == mailbox_views(items@),
    {
        MailboxList { items }
    }

    /// Parses a mailbox list; a group entry is an error.
    pub fn from_str(s: &str) -> (r: Result<MailboxList, MailboxParseError>)
        ensures
            match address_items(s@) {
                Err(d) => r matches Err(MailboxParseError::Backend { source }) && defect_reported(source, d),
                Ok(items) => if all_mailboxes(items) {
                    r matches Ok(l) && l@ == mailboxes_of(items)
                } else {
                    r matches Err(MailboxParseError::ContainsGroupEntry)
                },
            },
    {
        let addresses = match parse_address_items(s) {
            Ok(items) => items,
            Err(source) => return Err(MailboxParseError::Backend { source }),
        };
        let ghost av = address_views(addresses@);
        let mut items: Vec<Mailbox> = Vec::new();
        let mut i: usize = 0;
        while i < addresses.len()
            invariant
                i <= addresses@.len(),
                av == address_views(addresses@),
                address_items(s@) == Ok::<Seq<AddressView>, BackendDefect>(av),
                all_mailboxes(av.subrange(0, i as int)),
                mailbox_views(items@) == mailboxes_of(av.subrange(0, i as int)),
            decreases addresses@.len() - i,
        {
            match &addresses[i] {
                Address::Mailbox(m) => {
                    let c = m.clone();
                    assert(av[i as int] == AddressView::Mailbox(c@));
                    items.push(c);
                    proof {
                        assert(mailboxes_of(av.subrange(0, i + 1)) =~= mailboxes_of(av.subrange(0, i as int)).push(c@));
                        assert(mailbox_views(items@) =~= mailboxes_of(av.subrange(0, i + 1)));
                    }
                },
                Address::Group(_) => {
                    assert(av[i as int] is Group);
                    assert(!all_mailboxes(av));
                    return Err(MailboxParseError::ContainsGroupEntry);
                },
            }
            i = i + 1;
        }
        assert(av.subrange(0, av.len() as int) =~= av);
        Ok(MailboxList { items })
    }

    /// Parses each string as a single mailbox: the list of them, in order, or
    /// the error of the first string that is not one.
    pub fn try_from_strs(values: &[&str]) -> (r: Result<MailboxList, MailboxParseError>)
        ensures
            r is Ok <==> forall|i: int| 0 <= i < values@.len() ==> (#[trigger] single_mailbox(values@[i]@)) is Some,
            r matches Ok(l) ==> l@.len() == values@.len() && forall|i: int|
                0 <= i < values@.len() ==> Some(#[trigger] l@[i]) == single_mailbox(values@[i]@),
            r matches Err(e) ==> exists|k: int|
                0 <= k < values@.len() && (forall|j: int| 0 <= j < k ==> (#[trigger] single_mailbox(values@[j]@)) is Some)
                    && #[trigger] mailbox_outcome(values@[k]@, Err(e)),
    {
        let mut items: Vec<Mailbox> = Vec::new();
        let mut i: usize = 0;
        while i < values.len()
            invariant
                i <= values@.len(),
                items@.len() == i,
                forall|j: int| 0 <= j < i ==> (#[trigger] single_mailbox(values@[j]@)) is Some,
                forall|j: int| 0 <= j < i ==> Some(#[trigger] mailbox_views(items@)[j]) == single_mailbox(values@[j]@),
            decreases values@.len() - i,
        {
            let r = Mailbox::from_str(values[i]);
            proof {
                lemma_mailbox_outcome(values@[i as int]@, r);
            }
            match r {
                Ok(m) => {
                    let ghost before = mailbox_views(items@);
                    items.push(m);
                    assert(mailbox_views(items@) =~= before.push(m@));
                },
                Err(e) => {
                    return Err(e);
                },
            }
            i = i + 1;
        }
        let l = MailboxList { items };
        Ok(l)
    }

    /// Renders the mailboxes joined by `", "`.
    pub fn to_string(&self) -> (r: String)
        ensures
            r@ == join_mailboxes(self@),
    {
        let mut out = String::new();
        let ghost views = mailbox_views(self.items@);
        let mut i: usize = 0;
        while i < self.items.len()
            invariant
                i <= self.items@.len(),
                views == mailbox_views(self.items@),
                out@ == join_mailboxes(views.subrange(0, i as int)),
            decreases self.items@.len() - i,
        {
            if i > 0 {
                push_char(&mut out, ',');
                push_char(&mut out, ' ');
            }
            self.items[i].write_to(&mut out);
            proof {
                let pre = views.subrange(0, i + 1);
                assert(pre.drop_last() =~= views.subrange(0, i as int));
            }
            i = i + 1;
        }
        assert(views.subrange(0, views.len() as int) =~= views);
        out
    }
}

impl std::str::FromStr for Mailbox {
    type Err = MailboxParseError;

    fn from_str(s: &str) -> (r: Result<Mailbox, MailboxParseError>)
        ensures
            mailbox_outcome(s@, r),
    {
        Mailbox::from_str(s)
    }
}

impl std::str::FromStr for Group {
    type Err = GroupParseError;

    fn from_str(s: &str) -> (r: Result<Group, GroupParseError>)
        ensures
            match address_items(s@) {
                Err(d) => r matches Err(GroupParseError::Backend { source }) && defect_reported(source, d),
                Ok(items) => if items.len() != 1 {
                    r matches Err(GroupParseError::ExpectedSingleGroup { found }) && found == items.len()
                } else {
                    match items[0] {
                        AddressView::Group(n, ms) => r matches Ok(g) && g@ == (n, ms),
                        AddressView::Mailbox(..) => r matches Err(GroupParseError::UnexpectedAddressKind),
                    }
                },
            },
    {
        Group::from_str(s)
    }
}

impl std::str::FromStr for Address {
    type Err = AddressParseError;

    fn from_str(s: &str) -> (r: Result<Address, AddressParseError>)
        ensures
            parsed_address(s@) matches Some(e) ==> r matches Ok(a) && a@ == AddressView::Mailbox(
                MailboxView { name: None, email: e },
            ),
            parsed_address(s@) is None ==> match address_items(s@) {
                Err(d) => r matches Err(AddressParseError::Backend { source }) && defect_reported(source, d),
                Ok(items) => if items.len() != 1 {
                    r matches Err(AddressParseError::ExpectedSingleAddress { found }) && found == items.len()
                } else {
                    r matches Ok(a) && a@ == items[0]
                },
            },
    {
        Address::from_str(s)
    }
}

impl std::str::FromStr for AddressList {
    type Err = AddressParseError;

    fn from_str(s: &str) -> (r: Result<AddressList, AddressParseError>)
        ensures
            match address_items(s@) {
                Err(d) => r matches Err(AddressParseError::Backend { source }) && defect_reported(source, d),
                Ok(items) => r matches Ok(l) && l@ == items,
            },
    {
        AddressList::from_str(s)
    }
}

impl std::str::FromStr for MailboxList {
    type Err = MailboxParseError;

    fn from_str(s: &str) -> (r: Result<MailboxList, MailboxParseError>)
        ensures
            match address_items(s@) {
                Err(d) => r matches Err(MailboxParseError::Backend { source }) && defect_reported(source, d),
                Ok(items) => if all_mailboxes(items) {
                    r matches Ok(l) && l@ == mailboxes_of(items)
                } else {
                    r matches Err(MailboxParseError::ContainsGroupEntry)
                },
            },
    {
        MailboxList::from_str(s)
    }
}

impl From<EmailAddress> for Mailbox {
    fn from(email: EmailAddress) -> (r: Mailbox) {
        Mailbox { name: None, email }
    }
}

impl vstd::std_specs::convert::FromSpecImpl<EmailAddress> for Mailbox {
    open spec fn obeys_from_spec() -> bool {
        true
    }

    closed spec fn from_spec(email: EmailAddress) -> Mailbox {
        Mailbox { name: None, email }
    }
}

impl From<(String, EmailAddress)> for Mailbox {
    fn from(parts: (String, EmailAddress)) -> (r: Mailbox) {
        Mailbox { name: Some(parts.0), email: parts.1 }
    }
}

impl vstd::std_specs::convert::FromSpecImpl<(String, EmailAddress)> for Mailbox {
    open spec fn obeys_from_spec() -> bool {
        true
    }

    closed spec fn from_spec(parts: (String, EmailAddress)) -> Mailbox {
        Mailbox { name: Some(parts.0), email: parts.1 }
    }
}

impl From<(Option<String>, EmailAddress)> for Mailbox {
    fn from(parts: (Option<String>, EmailAddress)) -> (r: Mailbox) {
        Mailbox { name: parts.0, email: parts.1 }
    }
}

impl vstd::std_specs::convert::FromSpecImpl<(Option<String>, EmailAddress)> for Mailbox {
    open spec fn obeys_from_spec() -> bool {
        true
    }

    closed spec fn from_spec(parts: (Option<String>, EmailAddress)) -> Mailbox {
        Mailbox { name: parts.0, email: parts.1 }
    }
}

impl From<Mailbox> for Address {
    fn from(mailbox: Mailbox) -> (r: Address) {
        Address::Mailbox(mailbox)
    }
}

impl vstd::std_specs::convert::FromSpecImpl<Mailbox> for Address {
    open spec fn obeys_from_spec() -> bool {
        true
    }

    open spec fn from_spec(mailbox: Mailbox) -> Address {
        Address::Mailbox(mailbox)
    }
}

impl From<Group> for Address {
    fn from(group: Group) -> (r: Address) {
        Address::Group(group)
    }
}

impl vstd::std_specs::convert::FromSpecImpl<Group> for Address {
    open spec fn obeys_from_spec() -> bool {
        true
    }

    open spec fn from_spec(group: Group) -> Address {
        Address::Group(group)
    }
}

/// Error returned when parsing one of the crate's core string value types.
#[derive(Debug)]
pub enum ValueParseError {
    /// An email address failed validation.
    EmailAddress(EmailAddressParseError),
    /// A mailbox failed to parse.
    Mailbox(MailboxParseError),
    /// An address group failed to parse.
    Group(GroupParseError),
    /// A mailbox-or-group address failed to parse.
    Address(AddressParseError),
}

impl From<EmailAddressParseError> for ValueParseError {
    fn from(e: EmailAddressParseError) -> (r: ValueParseError) {
        ValueParseError::EmailAddress(e)
    }
}

impl vstd::std_specs::convert::FromSpecImpl<EmailAddressParseError> for ValueParseError {
    open spec fn obeys_from_spec() -> bool {
        true
    }

    open spec fn from_spec(e: EmailAddressParseError) -> ValueParseError {
        ValueParseError::EmailAddress(e)
    }
}

impl From<MailboxParseError> for ValueParseError {
    fn from(e: MailboxParseError) -> (r: ValueParseError) {
        ValueParseError::Mailbox(e)
    }
}

impl vstd::std_specs::convert::FromSpecImpl<MailboxParseError> for ValueParseError {
    open spec fn obeys_from_spec() -> bool {
        true
    }

    open spec fn from_spec(e: MailboxParseError) -> ValueParseError {
        ValueParseError::Mailbox(e)
    }
}

impl From<GroupParseError> for ValueParseError {
    fn from(e: GroupParseError) -> (r: ValueParseError) {
        ValueParseError::Group(e)
    }
}

impl vstd::std_specs::convert::FromSpecImpl<GroupParseError> for ValueParseError {
    open spec fn obeys_from_spec() -> bool {
        true
    }

    open spec fn from_spec(e: GroupParseError) -> ValueParseError {
        ValueParseError::Group(e)
    }
}

impl From<AddressParseError> for ValueParseError {
    fn from(e: AddressParseError) -> (r: ValueParseError) {
        ValueParseError::Address(e)
    }
}

impl vstd::std_specs::convert::FromSpecImpl<AddressParseError> for ValueParseError {
    open spec fn obeys_from_spec() -> bool {
        true
    }

    open spec fn from_spec(e: AddressParseError) -> ValueParseError {
        ValueParseError::Address(e)
    }
}

} // verus!
