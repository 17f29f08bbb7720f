use vstd::prelude::*;

use crate::text::{append_chars, chars_of, contains, contains_chars, dec, dec_signed, ends_with, ends_with_chars, lower, lower_chars, push_decimal, push_signed, string_of, trim, trim_chars};
use crate::types::{AttachmentMeta, ImapErrorContext};

verus! {

/// Settings of the scripted command mode.
#[derive(Debug, Clone)]
pub struct CliConfig {
    pub enabled: bool,
    pub default_account: Option<String>,
    pub load_error: Option<String>,
}

/// The message fields that the command mode may print.
pub open spec fn message_field_names() -> Seq<Seq<char>> {
    seq![
        "id"@, "folder_id"@, "imap_uid"@, "date"@, "from"@, "to"@, "cc"@, "subject"@, "unread"@,
        "preview"@, "body"@, "raw"@, "attachments"@, "links"@,
    ]
}

/// Every message field name.
pub fn all_message_fields() -> (r: Vec<String>)
    ensures
        r.deep_view() == message_field_names(),
{
    let mut out: Vec<String> = Vec::new();
    out.push(crate::store::string_of_str("id"));
    out.push(crate::store::string_of_str("folder_id"));
    out.push(crate::store::string_of_str("imap_uid"));
    out.push(crate::store::string_of_str("date"));
    out.push(crate::store::string_of_str("from"));
    out.push(crate::store::string_of_str("to"));
    out.push(crate::store::string_of_str("cc"));
    out.push(crate::store::string_of_str("subject"));
    out.push(crate::store::string_of_str("unread"));
    out.push(crate::store::string_of_str("preview"));
    out.push(crate::store::string_of_str("body"));
    out.push(crate::store::string_of_str("raw"));
    out.push(crate::store::string_of_str("attachments"));
    out.push(crate::store::string_of_str("links"));
    assert(out.deep_view() =~= message_field_names());
    out
}

/// The fields the command mode may print: all of them.
pub fn allowed_fields(_config: &CliConfig) -> (r: Vec<String>)
    ensures
        r.deep_view() == message_field_names(),
{
    all_message_fields()
}

/// The command mode runs every command.
pub fn cli_allows_command(_config: &CliConfig, _command_id: &str, _is_mutation: bool) -> (r: bool)
    ensures
        r,
{
    true
}

/// The command mode reaches every account.
pub fn cli_allows_account(_config: &CliConfig, _account: &str) -> (r: bool)
    ensures
        r,
{
    true
}

/// The command mode reaches every folder.
pub fn cli_allows_folder(_config: &CliConfig, _folder: &str) -> (r: bool)
    ensures
        r,
{
    true
}

/// The command mode accepts every sender filter.
pub fn cli_allows_from(_config: &CliConfig, _from: &str) -> (r: bool)
    ensures
        r,
{
    true
}

/// The command mode may print bodies.
pub fn cli_allows_body(_config: &CliConfig) -> (r: bool)
    ensures
        r,
{
    true
}

/// The command mode may print raw messages.
pub fn cli_allows_raw(_config: &CliConfig) -> (r: bool)
    ensures
        r,
{
    true
}

/// The command mode may save attachments.
pub fn cli_allows_attachments(_config: &CliConfig) -> (r: bool)
    ensures
        r,
{
    true
}

/// The command mode may move messages.
pub fn cli_allows_move(_config: &CliConfig) -> (r: bool)
    ensures
        r,
{
    true
}

/// The command mode may delete messages.
pub fn cli_allows_delete(_config: &CliConfig) -> (r: bool)
    ensures
        r,
{
    true
}

/// The command mode may mark messages read or unread.
pub fn cli_allows_mark(_config: &CliConfig) -> (r: bool)
    ensures
        r,
{
    true
}

/// The command mode may send mail.
pub fn cli_allows_send(_config: &CliConfig) -> (r: bool)
    ensures
        r,
{
    true
}

/// First position of `c` in `t`, if any.
pub open spec fn first_index_of(t: Seq<char>, c: char) -> Option<int> {
    if exists|k: int| 0 <= k < t.len() && t[k] == c {
        Some(choose|k: int| 0 <= k < t.len() && t[k] == c && forall|j: int| 0 <= j < k ==> t[j] != c)
    } else {
        None
    }
}

fn index_of_char(t: &[char], c: char) -> (r: Option<usize>)
    ensures
        r matches Some(k) ==> k < t@.len() && t@[k as int] == c && forall|j: int| 0 <= j < k ==> t@[j] != c,
        r is None ==> forall|j: int| 0 <= j < t@.len() ==> t@[j] != c,
{
    let mut k: usize = 0;
    while k < t.len()
        invariant
            k <= t@.len(),
            forall|j: int| 0 <= j < k ==> t@[j] != c,
        decreases t.len() - k,
    {
        if t[k] == c {
            return Some(k);
        }
        k += 1;
    }
    None
}

/// The address of a mailbox: what stands between the first `<` and the first `>` after it
/// (trimmed), else the whole input trimmed.
pub open spec fn extracted_email(input: Seq<char>) -> Seq<char> {
    let t = trim(input);
    match (first_index_of(t, '<'), first_index_of(t, '>')) {
        (Some(a), Some(b)) => if a < b {
            trim(t.subrange(a + 1, b))
        } else {
            t
        },
        _ => t,
    }
}

/// The address part of a mailbox such as `Name <addr>`.
pub fn extract_email(input: &str) -> (r: String)
    ensures
        r@ == extracted_email(input@),
{
    let t = trim_chars(&chars_of(input));
    let a = index_of_char(&t, '<');
    let b = index_of_char(&t, '>');
    proof {
        if a is Some {
            let k = a->0 as int;
            assert(first_index_of(t@, '<') == Some(k)) by {
                let w = choose|w: int| 0 <= w < t@.len() && t@[w] == '<' && forall|j: int| 0 <= j < w ==> t@[j] != '<';
                assert(w == k);
            }
        } else {
            assert(first_index_of(t@, '<') is None);
        }
        if b is Some {
            let k = b->0 as int;
            assert(first_index_of(t@, '>') == Some(k)) by {
                let w = choose|w: int| 0 <= w < t@.len() && t@[w] == '>' && forall|j: int| 0 <= j < w ==> t@[j] != '>';
                assert(w == k);
            }
        } else {
            assert(first_index_of(t@, '>') is None);
        }
    }
    match (a, b) {
        (Some(a), Some(b)) => {
            if a < b {
                let inner = crate::text::slice_chars(&t, a + 1, b);
                string_of(&trim_chars(&inner))
            } else {
                string_of(&t)
            }
        },
        _ => string_of(&t),
    }
}

/// The addresses that `mailparse::addrparse` reads from a header value, one list per entry
/// (a single mailbox, or the members of a group); nothing when it does not parse.
pub uninterp spec fn parsed_addrs(s: Seq<char>) -> Option<Seq<Seq<Seq<char>>>>;

/// Relies on `mailparse::addrparse`: parses an address list; each single mailbox gives its
/// address, each group the addresses of its members. The result depends on the text alone.
#[verifier::external_body]
fn parse_address_list(s: &str) -> (r: Option<Vec<Vec<String>>>)
    ensures
        r.deep_view() == parsed_addrs(s@),
{
    match mailparse::addrparse(s) {
        Ok(list) => Some(
            list.iter().map(|a| match a {
                mailparse::MailAddr::Single(info) => vec![info.addr.clone()],
                mailparse::MailAddr::Group(group) => group.addrs.iter().map(|i| i.addr.clone()).collect(),
            }).collect(),
        ),
        Err(_) => None,
    }
}

/// The trimmed, non-empty addresses of parsed entries, in order.
pub open spec fn emails_of(groups: Seq<Seq<Seq<char>>>) -> Seq<Seq<char>>
    decreases groups.len(),
{
    if groups.len() == 0 {
        Seq::empty()
    } else {
        emails_of(groups.drop_last()) + kept_emails(groups.last())
    }
}

pub open spec fn kept_emails(addrs: Seq<Seq<char>>) -> Seq<Seq<char>>
    decreases addrs.len(),
{
    if addrs.len() == 0 {
        Seq::empty()
    } else {
        kept_emails(addrs.drop_last()) + if trim(addrs.last()).len() > 0 {
            seq![trim(addrs.last())]
        } else {
            Seq::empty()
        }
    }
}

/// The sender addresses of a `From` value: the parsed addresses, or else the extracted one.
pub open spec fn from_addresses(s: Seq<char>) -> Seq<Seq<char>> {
    match parsed_addrs(s) {
        Some(g) => emails_of(g),
        None => if extracted_email(s).len() > 0 {
            seq![extracted_email(s)]
        } else {
            Seq::empty()
        },
    }
}

fn push_kept(out: &mut Vec<String>, addrs: &Vec<String>)
    ensures
        final(out).deep_view() == old(out).deep_view() + kept_emails(addrs.deep_view()),
{
    let mut k: usize = 0;
    while k < addrs.len()
        invariant
            k <= addrs@.len(),
            out.deep_view() == old(out).deep_view() + kept_emails(addrs.deep_view().subrange(0, k as int)),
        decreases addrs.len() - k,
    {
        let ghost before = out.deep_view();
        let e = trim_chars(&chars_of(addrs[k].as_str()));
        proof {
            let s1 = addrs.deep_view().subrange(0, k as int + 1);
            assert(s1.drop_last() =~= addrs.deep_view().subrange(0, k as int));
            assert(s1.last() == addrs[k as int]@);
        }
        if e.len() > 0 {
            out.push(string_of(&e));
            assert(out.deep_view() =~= before.push(e@));
        }
        proof {
            let s1 = addrs.deep_view().subrange(0, k as int + 1);
            assert(out.deep_view() =~= old(out).deep_view() + kept_emails(s1));
        }
        k += 1;
    }
    assert(addrs.deep_view().subrange(0, addrs@.len() as int) =~= addrs.deep_view());
}

fn emails_from_groups(groups: &Vec<Vec<String>>) -> (r: Vec<String>)
    ensures
        r.deep_view() == emails_of(groups.deep_view()),
{
    let mut out: Vec<String> = Vec::new();
    let mut g: usize = 0;
    while g < groups.len()
        invariant
            g <= groups@.len(),
            out.deep_view() == emails_of(groups.deep_view().subrange(0, g as int)),
        decreases groups.len() - g,
    {
        proof {
            let s1 = groups.deep_view().subrange(0, g as int + 1);
            assert(s1.drop_last() =~= groups.deep_view().subrange(0, g as int));
            assert(s1.last() == groups[g as int].deep_view());
        }
        push_kept(&mut out, &groups[g]);
        g += 1;
    }
    assert(groups.deep_view().subrange(0, groups@.len() as int) =~= groups.deep_view());
    out
}

/// The addresses named in a `From` value.
pub fn parse_from_addrs(input: &str) -> (r: Vec<String>)
    ensures
        r.deep_view() == from_addresses(input@),
{
    match parse_address_list(input) {
        Some(groups) => emails_from_groups(&groups),
        None => {
            let fallback = extract_email(input);
            let mut out: Vec<String> = Vec::new();
            if chars_of(fallback.as_str()).len() > 0 {
                out.push(fallback);
                assert(out.deep_view() =~= seq![extracted_email(input@)]);
            } else {
                assert(out.deep_view() =~= Seq::<Seq<char>>::empty());
            }
            out
        },
    }
}

/// Whether a sender filter matches: the whole value or one of its addresses contains the
/// filter, ignoring ASCII case.
pub open spec fn from_matches(from_raw: Seq<char>, filter: Seq<char>) -> bool {
    contains(lower(from_raw), lower(filter)) || exists|k: int|
        0 <= k < from_addresses(from_raw).len() && contains(lower(#[trigger] from_addresses(from_raw)[k]), lower(filter))
}

pub fn from_matches_filter(from_raw: &str, filter: &str) -> (r: bool)
    ensures
        r == from_matches(from_raw@, filter@),
{
    let needle = lower_chars(&chars_of(filter));
    if contains_chars(&lower_chars(&chars_of(from_raw)), &needle) {
        return true;
    }
    let addrs = parse_from_addrs(from_raw);
    any_contains(&addrs, &needle)
}

/// Some entry of `list`, lower-cased, contains `needle`.
fn any_contains(list: &Vec<String>, needle: &Vec<char>) -> (r: bool)
    ensures
        r == exists|k: int| 0 <= k < list.deep_view().len() && contains(lower(#[trigger] list.deep_view()[k]), needle@),
{
    let mut k: usize = 0;
    while k < list.len()
        invariant
            k <= list@.len(),
            forall|j: int| 0 <= j < k ==> !contains(lower(#[trigger] list.deep_view()[j]), needle@),
        decreases list.len() - k,
    {
        assert(list.deep_view()[k as int] == list@[k as int]@);
        if contains_chars(&lower_chars(&chars_of(list[k].as_str())), needle) {
            return true;
        }
        k += 1;
    }
    false
}

/// The parsed search query of the interactive search and the command mode.
#[derive(Debug, Clone)]
pub struct SearchSpec {
    pub text: String,
    pub attachment_name: Vec<String>,
    pub attachment_type: Vec<String>,
    pub from: Vec<String>,
    pub subject: Vec<String>,
    pub to: Vec<String>,
    pub date: Vec<String>,
    pub since_ts: Option<i64>,
    pub before_ts: Option<i64>,
}

impl SearchSpec {
    /// An empty query.
    pub fn new() -> (r: Self)
        ensures
            r.text@.len() == 0,
            r.attachment_name@.len() == 0,
            r.attachment_type@.len() == 0,
            r.from@.len() == 0,
            r.subject@.len() == 0,
            r.to@.len() == 0,
            r.date@.len() == 0,
            r.since_ts is None,
            r.before_ts is None,
    {
        SearchSpec {
            text: String::new(),
            attachment_name: Vec::new(),
            attachment_type: Vec::new(),
            from: Vec::new(),
            subject: Vec::new(),
            to: Vec::new(),
            date: Vec::new(),
            since_ts: None,
            before_ts: None,
        }
    }

    /// The query filters on attachments.
    pub fn needs_attachments(&self) -> (r: bool)
        ensures
            r == (self.attachment_name@.len() > 0 || self.attachment_type@.len() > 0),
    {
        self.attachment_name.len() > 0 || self.attachment_type.len() > 0
    }

    /// The query needs the raw message: attachments or recipients.
    pub fn needs_raw(&self) -> (r: bool)
        ensures
            r == (self.attachment_name@.len() > 0 || self.attachment_type@.len() > 0 || self.to@.len() > 0),
    {
        self.needs_attachments() || self.to.len() > 0
    }
}

impl Default for SearchSpec {
    fn default() -> (r: Self)
        ensures
            r.text@.len() == 0,
            r.attachment_name@.len() == 0,
            r.attachment_type@.len() == 0,
            r.from@.len() == 0,
            r.subject@.len() == 0,
            r.to@.len() == 0,
            r.date@.len() == 0,
            r.since_ts is None,
            r.before_ts is None,
    {
        SearchSpec::new()
    }
}

/// Some attachment's file name contains `name` (file name lower-cased).
pub open spec fn name_hit(atts: Seq<AttachmentMeta>, name: Seq<char>) -> bool {
    exists|a: int| 0 <= a < atts.len() && contains(lower((#[trigger] atts[a]).filename@), name)
}

/// Attachment `a` has type `ty`: its MIME type contains it, or, for a type without `/`, its
/// file name ends in `.ty` (both lower-cased).
pub open spec fn type_match(a: AttachmentMeta, ty: Seq<char>) -> bool {
    contains(lower(a.mime@), ty) || (!contains(ty, "/"@) && ends_with(lower(a.filename@), "."@ + ty))
}

pub open spec fn type_hit(atts: Seq<AttachmentMeta>, ty: Seq<char>) -> bool {
    exists|a: int| 0 <= a < atts.len() && type_match(#[trigger] atts[a], ty)
}

/// Every attachment filter of the query is met by some attachment.
pub open spec fn attachments_match(spec: SearchSpec, atts: Seq<AttachmentMeta>) -> bool {
    (forall|n: int| 0 <= n < spec.attachment_name@.len() ==> name_hit(atts, (#[trigger] spec.attachment_name@[n])@))
        && (forall|t: int| 0 <= t < spec.attachment_type@.len() ==> type_hit(atts, (#[trigger] spec.attachment_type@[t])@))
}

fn any_name_hit(atts: &[AttachmentMeta], name: &String) -> (r: bool)
    ensures
        r == name_hit(atts@, name@),
{
    let n = chars_of(name.as_str());
    let mut a: usize = 0;
    while a < atts.len()
        invariant
            a <= atts@.len(),
            n@ == name@,
            forall|j: int| 0 <= j < a ==> !contains(lower((#[trigger] atts@[j]).filename@), name@),
        decreases atts.len() - a,
    {
        if contains_chars(&lower_chars(&chars_of(atts[a].filename.as_str())), &n) {
            return true;
        }
        a += 1;
    }
    false
}

fn any_type_hit(atts: &[AttachmentMeta], ty: &String) -> (r: bool)
    ensures
        r == type_hit(atts@, ty@),
{
    let t = chars_of(ty.as_str());
    let slash = chars_of("/");
    let mut ext = chars_of(".");
    append_chars(&mut ext, &t);
    let mut a: usize = 0;
    while a < atts.len()
        invariant
            a <= atts@.len(),
            t@ == ty@,
            slash@ == "/"@,
            ext@ == "."@ + ty@,
            forall|j: int| 0 <= j < a ==> !type_match(#[trigger] atts@[j], ty@),
        decreases atts.len() - a,
    {
        let mime = lower_chars(&chars_of(atts[a].mime.as_str()));
        if contains_chars(&mime, &t) {
            return true;
        }
        if !contains_chars(&t, &slash) {
            let file = lower_chars(&chars_of(atts[a].filename.as_str()));
            if ends_with_chars(&file, &ext) {
                return true;
            }
        }
        a += 1;
    }
    false
}

/// Whether the attachments meet every attachment filter of the query.
pub fn spec_matches_attachments_cli(spec: &SearchSpec, attachments: &[AttachmentMeta]) -> (r: bool)
    ensures
        r == attachments_match(*spec, attachments@),
{
    let mut n: usize = 0;
    while n < spec.attachment_name.len()
        invariant
            n <= spec.attachment_name@.len(),
            forall|j: int| 0 <= j < n ==> name_hit(attachments@, (#[trigger] spec.attachment_name@[j])@),
        decreases spec.attachment_name.len() - n,
    {
        if !any_name_hit(attachments, &spec.attachment_name[n]) {
            return false;
        }
        n += 1;
    }
    let mut t: usize = 0;
    while t < spec.attachment_type.len()
        invariant
            t <= spec.attachment_type@.len(),
            forall|j: int| 0 <= j < spec.attachment_name@.len() ==> name_hit(attachments@, (#[trigger] spec.attachment_name@[j])@),
            forall|j: int| 0 <= j < t ==> type_hit(attachments@, (#[trigger] spec.attachment_type@[j])@),
        decreases spec.attachment_type.len() - t,
    {
        if !any_type_hit(attachments, &spec.attachment_type[t]) {
            return false;
        }
        t += 1;
    }
    true
}

/// The label of what a mail protocol error was about.
pub open spec fn context_label(c: ImapErrorContext) -> Seq<char> {
    match c {
        ImapErrorContext::SyncAll => "sync-all"@,
        ImapErrorContext::SyncFolder { folder_name } => "sync-folder "@ + folder_name@,
        ImapErrorContext::FetchBody { message_id, folder_name, uid } => "fetch-body id="@ + dec_signed(
            message_id as int,
        ) + " folder="@ + folder_name@ + " uid="@ + dec(uid as nat),
        ImapErrorContext::MoveMessages { folder_name, target_folder, count } => "move-messages "@ + folder_name@
            + " -> "@ + target_folder@ + " ("@ + dec(count as nat) + ")"@,
        ImapErrorContext::DeleteMessages { folder_name, count } => "delete-messages "@ + folder_name@ + " ("@
            + dec(count as nat) + ")"@,
    }
}

fn push_text(out: &mut Vec<char>, s: &str)
    ensures
        final(out)@ == old(out)@ + s@,
{
    append_chars(out, &chars_of(s));
}

pub fn imap_error_context_label(context: &ImapErrorContext) -> (r: String)
    ensures
        r@ == context_label(*context),
{
    let mut out: Vec<char> = Vec::new();
    match context {
        ImapErrorContext::SyncAll => {
            push_text(&mut out, "sync-all");
        },
        ImapErrorContext::SyncFolder { folder_name } => {
            push_text(&mut out, "sync-folder ");
            push_text(&mut out, folder_name.as_str());
        },
        ImapErrorContext::FetchBody { message_id, folder_name, uid } => {
            push_text(&mut out, "fetch-body id=");
            push_signed(&mut out, *message_id);
            push_text(&mut out, " folder=");
            push_text(&mut out, folder_name.as_str());
            push_text(&mut out, " uid=");
            push_decimal(&mut out, *uid as u64);
        },
        ImapErrorContext::MoveMessages { folder_name, target_folder, count } => {
            push_text(&mut out, "move-messages ");
            push_text(&mut out, folder_name.as_str());
            push_text(&mut out, " -> ");
            push_text(&mut out, target_folder.as_str());
            push_text(&mut out, " (");
            push_decimal(&mut out, *count as u64);
            push_text(&mut out, ")");
        },
        ImapErrorContext::DeleteMessages { folder_name, count } => {
            push_text(&mut out, "delete-messages ");
            push_text(&mut out, folder_name.as_str());
            push_text(&mut out, " (");
            push_decimal(&mut out, *count as u64);
            push_text(&mut out, ")");
        },
    }
    proof {
        assert(out@ =~= context_label(*context));
    }
    string_of(&out)
}

/// Why a message cannot be sent.
#[derive(Debug, Clone, Copy, PartialEq, Eq, Structural)]
pub enum RecipientError {
    /// A recipient field does not parse as an address list.
    InvalidAddress,
    /// No field names anybody.
    NoRecipients,
}

/// The addresses of one recipient field: none for a blank field, the parsed ones otherwise,
/// nothing when it does not parse.
pub open spec fn field_addresses(s: Seq<char>) -> Option<Seq<Seq<char>>> {
    if trim(s).len() == 0 {
        Some(Seq::empty())
    } else {
        match parsed_addrs(trim(s)) {
            Some(g) => Some(emails_of(g)),
            None => None,
        }
    }
}

fn field_list(s: &str) -> (r: Option<Vec<String>>)
    ensures
        match field_addresses(s@) {
            Some(v) => r matches Some(x) && x.deep_view() == v,
            None => r is None,
        },
{
    let t = trim_chars(&chars_of(s));
    if t.len() == 0 {
        let v: Vec<String> = Vec::new();
        assert(v.deep_view() =~= Seq::<Seq<char>>::empty());
        return Some(v);
    }
    let ts = string_of(&t);
    match parse_address_list(ts.as_str()) {
        Some(groups) => Some(emails_from_groups(&groups)),
        None => None,
    }
}

/// The To, Cc and Bcc addresses of an outgoing message; a field that does not parse is an
/// error, and so is a message with no recipient at all.
pub fn send_recipients(to: &str, cc: &str, bcc: &str) -> (r: Result<(Vec<String>, Vec<String>, Vec<String>), RecipientError>)
    ensures
        match (field_addresses(to@), field_addresses(cc@), field_addresses(bcc@)) {
            (Some(a), Some(b), Some(c)) => if a.len() + b.len() + c.len() == 0 {
                r == Err::<(Vec<String>, Vec<String>, Vec<String>), RecipientError>(RecipientError::NoRecipients)
            } else {
                r matches Ok(x) && x.0.deep_view() == a && x.1.deep_view() == b && x.2.deep_view() == c
            },
            _ => r == Err::<(Vec<String>, Vec<String>, Vec<String>), RecipientError>(RecipientError::InvalidAddress),
        },
{
    let a = match field_list(to) {
        Some(v) => v,
        None => {
            return Err(RecipientError::InvalidAddress);
        },
    };
    let b = match field_list(cc) {
        Some(v) => v,
        None => {
            return Err(RecipientError::InvalidAddress);
        },
    };
    let c = match field_list(bcc) {
        Some(v) => v,
        None => {
            return Err(RecipientError::InvalidAddress);
        },
    };
    if a.len() == 0 && b.len() == 0 && c.len() == 0 {
        return Err(RecipientError::NoRecipients);
    }
    Ok((a, b, c))
}

} // verus!
