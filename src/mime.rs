use mailparse::MailHeaderMap;
use vstd::prelude::*;

use crate::content::{cid_data_url, prepared, prepare_html_from_parts, base64_of};
use crate::display::{display_from_parts, display_of, labelled, urls_from};
use crate::links::links_view;
use crate::text::{chars_of, lower, lower_chars, string_of, trim, trim_chars};
use crate::types::{AttachmentData, AttachmentMeta, DisplayText, PreparedHtml};

verus! {

/// Why a message could not be read.
#[derive(Debug, Clone, Copy, PartialEq, Eq, Structural)]
pub enum ContentError {
    MalformedMime,
    NoDisplayableBody,
}

/// One MIME part as plain values, as met in a depth-first walk of the message.
#[derive(Debug, Clone)]
pub struct MailPart {
    pub subpart_count: usize,
    pub mimetype: String,
    pub attachment: bool,
    pub filename: Option<String>,
    pub name_param: Option<String>,
    pub content_id: Option<String>,
    pub body: Option<String>,
    pub raw: Option<Vec<u8>>,
}

/// A MIME part as plain values.
pub struct PartView {
    pub subpart_count: nat,
    pub mimetype: Seq<char>,
    pub attachment: bool,
    pub filename: Option<Seq<char>>,
    pub name_param: Option<Seq<char>>,
    pub content_id: Option<Seq<char>>,
    pub body: Option<Seq<char>>,
    pub raw: Option<Seq<u8>>,
}

pub open spec fn opt_view(o: Option<String>) -> Option<Seq<char>> {
    match o {
        Some(s) => Some(s@),
        None => None,
    }
}

impl View for MailPart {
    type V = PartView;

    open spec fn view(&self) -> PartView {
        PartView {
            subpart_count: self.subpart_count as nat,
            mimetype: self.mimetype@,
            attachment: self.attachment,
            filename: opt_view(self.filename),
            name_param: opt_view(self.name_param),
            content_id: opt_view(self.content_id),
            body: opt_view(self.body),
            raw: match self.raw {
                Some(r) => Some(r@),
                None => None,
            },
        }
    }
}

pub open spec fn parts_view(v: Seq<MailPart>) -> Seq<PartView> {
    v.map_values(|p: MailPart| p@)
}

/// The parts that `mailparse::parse_mail` finds in raw bytes, depth-first from the root with
/// subparts in the order mailparse keeps them; each with its number of subparts, its MIME
/// type, whether its disposition is `attachment`, its `filename` and `name` parameters, its
/// first Content-ID, its decoded text and its decoded bytes; nothing when the bytes do not
/// parse.
pub uninterp spec fn parsed_parts(raw: Seq<u8>) -> Option<Seq<PartView>>;

/// Relies on `mailparse::parse_mail` and the part accessors: the part tree flattened
/// depth-first, each part as plain values; the result depends on the bytes alone.
#[verifier::external_body]
pub(crate) fn parse_parts(raw: &[u8]) -> (r: Option<Vec<MailPart>>)
    ensures
        r matches Some(v) ==> parsed_parts(raw@) == Some(parts_view(v@)),
        r is None ==> parsed_parts(raw@) is None,
{
    let parsed = mailparse::parse_mail(raw).ok()?;
    let (mut out, mut stack) = (Vec::new(), vec![&parsed]);
    while let Some(p) = stack.pop() {
        let d = p.get_content_disposition();
        out.push(MailPart { subpart_count: p.subparts.len(), mimetype: p.ctype.mimetype.clone(),
            attachment: match d.disposition { mailparse::DispositionType::Attachment => true, _ => false },
            filename: d.params.get("filename").cloned(), name_param: p.ctype.params.get("name").cloned(),
            content_id: p.headers.get_first_value("Content-ID"), body: p.get_body().ok(), raw: p.get_body_raw().ok() });
        stack.extend(p.subparts.iter().rev());
    }
    Some(out)
}

/// HTML as the mail sanitiser leaves it.
pub uninterp spec fn sanitized_of(html: Seq<char>) -> Seq<char>;

/// Relies on `ammonia::Builder::clean`, configured with the standard safe set plus `style`,
/// `font` and the background and colour attributes; the result depends on the HTML alone.
#[verifier::external_body]
pub(crate) fn sanitize(html: &str) -> (r: String)
    ensures
        r@ == sanitized_of(html@),
{
    let mut builder = ammonia::Builder::default();
    builder.rm_clean_content_tags(["style"]).add_tags(["style", "font"]);
    builder.add_generic_attributes(["style", "background", "bgcolor"]);
    builder.add_tag_attributes("font", ["face", "size", "color"]);
    builder.add_tag_attributes("table", ["background", "bgcolor"]).add_tag_attributes("td", ["background", "bgcolor"]);
    builder.add_tag_attributes("body", ["background", "bgcolor"]);
    builder.clean(html).to_string()
}

/// HTML rendered as plain text `width` columns wide by `html2text`; nothing when it cannot
/// be rendered at that width.
pub uninterp spec fn reflowed(html: Seq<char>, width: usize) -> Option<Seq<char>>;

/// Relies on `html2text`'s plain configuration (`string_from_read`): the text of some HTML at
/// a width; the result depends on the HTML and the width alone.
#[verifier::external_body]
pub(crate) fn reflow(html: &str, width: usize) -> (r: Option<String>)
    ensures
        opt_view(r) == reflowed(html@, width),
{
    html2text::config::plain().string_from_read(html.as_bytes(), width).ok()
}

/// The MIME type compared without case.
pub open spec fn is_type(p: PartView, t: Seq<char>) -> bool {
    lower(p.mimetype) == t
}

/// The first part of type `t` whose text decodes.
pub open spec fn first_text_of(parts: Seq<PartView>, t: Seq<char>) -> Option<Seq<char>>
    decreases parts.len(),
{
    if parts.len() == 0 {
        None
    } else if is_type(parts[0], t) && parts[0].body is Some {
        parts[0].body
    } else {
        first_text_of(parts.drop_first(), t)
    }
}

/// The body to display, and whether it is HTML: a single-part message shows its own text;
/// otherwise the first plain-text part, else the first HTML part.
pub open spec fn chosen_body(parts: Seq<PartView>) -> Result<(Seq<char>, bool), ContentError> {
    if parts.len() == 0 {
        Err(ContentError::NoDisplayableBody)
    } else if parts[0].subpart_count == 0 {
        match parts[0].body {
            Some(b) => Ok((b, is_type(parts[0], "text/html"@))),
            None => Err(ContentError::MalformedMime),
        }
    } else if first_text_of(parts, "text/plain"@) is Some {
        Ok((first_text_of(parts, "text/plain"@)->0, false))
    } else if first_text_of(parts, "text/html"@) is Some {
        Ok((first_text_of(parts, "text/html"@)->0, true))
    } else {
        Err(ContentError::NoDisplayableBody)
    }
}

fn type_is(p: &MailPart, t: &str) -> (r: bool)
    ensures
        r == is_type(p@, t@),
{
    let a = lower_chars(&chars_of(p.mimetype.as_str()));
    let b = chars_of(t);
    if a.len() != b.len() {
        return false;
    }
    let r = crate::text::matches_at(&a, &b, 0);
    assert(a@.subrange(0, b@.len() as int) =~= a@);
    r
}

/// The first part of type `t` whose text decodes.
pub fn first_text(parts: &Vec<MailPart>, t: &str) -> (r: Option<String>)
    ensures
        opt_view(r) == first_text_of(parts_view(parts@), t@),
{
    let mut k: usize = 0;
    assert(parts_view(parts@).subrange(0, parts@.len() as int) =~= parts_view(parts@));
    while k < parts.len()
        invariant
            k <= parts@.len(),
            first_text_of(parts_view(parts@), t@) == first_text_of(parts_view(parts@).subrange(k as int, parts@.len() as int), t@),
        decreases parts.len() - k,
    {
        proof {
            let s = parts_view(parts@).subrange(k as int, parts@.len() as int);
            assert(s.drop_first() =~= parts_view(parts@).subrange(k as int + 1, parts@.len() as int));
            assert(s[0] == parts@[k as int]@);
        }
        if type_is(&parts[k], t) && parts[k].body.is_some() {
            return parts[k].body.clone();
        }
        k += 1;
    }
    None
}

/// Chooses the body to display.
pub fn select_body(parts: &Vec<MailPart>) -> (r: Result<(String, bool), ContentError>)
    ensures
        match r {
            Ok((b, h)) => chosen_body(parts_view(parts@)) == Ok::<(Seq<char>, bool), ContentError>((b@, h)),
            Err(e) => chosen_body(parts_view(parts@)) == Err::<(Seq<char>, bool), ContentError>(e),
        },
{
    if parts.len() == 0 {
        return Err(ContentError::NoDisplayableBody);
    }
    assert(parts_view(parts@)[0] == parts@[0]@);
    if parts[0].subpart_count == 0 {
        return match &parts[0].body {
            Some(b) => Ok((b.clone(), type_is(&parts[0], "text/html"))),
            None => Err(ContentError::MalformedMime),
        };
    }
    if let Some(t) = first_text(parts, "text/plain") {
        return Ok((t, false));
    }
    if let Some(h) = first_text(parts, "text/html") {
        return Ok((h, true));
    }
    Err(ContentError::NoDisplayableBody)
}

/// The file name of a leaf part: its disposition's `filename`, else its type's `name`.
pub open spec fn part_filename(p: PartView) -> Option<Seq<char>> {
    if p.filename is Some { p.filename } else { p.name_param }
}

/// A leaf part is an attachment when its disposition says so or it has a file name.
pub open spec fn is_attachment(p: PartView) -> bool {
    p.subpart_count == 0 && (p.attachment || part_filename(p) is Some)
}

/// The attachment inventory: every attachment leaf in walk order with its name
/// (`attachment` when it has none), lower-cased type and size; a leaf whose bytes do not
/// decode makes the message malformed.
pub open spec fn inventory(parts: Seq<PartView>) -> Result<Seq<(Seq<char>, Seq<char>, nat)>, ContentError>
    decreases parts.len(),
{
    if parts.len() == 0 {
        Ok(Seq::empty())
    } else {
        match inventory(parts.drop_last()) {
            Err(e) => Err(e),
            Ok(prev) => {
                let p = parts.last();
                if !is_attachment(p) {
                    Ok(prev)
                } else {
                    match p.raw {
                        None => Err(ContentError::MalformedMime),
                        Some(bytes) => Ok(prev.push((
                            match part_filename(p) {
                                Some(n) => n,
                                None => "attachment"@,
                            },
                            lower(p.mimetype),
                            bytes.len(),
                        ))),
                    }
                }
            },
        }
    }
}

/// A failure in the first `k` parts is the failure of the whole inventory.
pub proof fn lemma_inventory_err(parts: Seq<PartView>, k: int)
    requires
        0 <= k <= parts.len(),
        inventory(parts.subrange(0, k)) is Err,
    ensures
        inventory(parts) == inventory(parts.subrange(0, k)),
    decreases parts.len() - k,
{
    if k == parts.len() {
        assert(parts.subrange(0, k) =~= parts);
    } else {
        let s1 = parts.subrange(0, k + 1);
        assert(s1.drop_last() =~= parts.subrange(0, k));
        lemma_inventory_err(parts, k + 1);
    }
}

pub open spec fn meta_view(v: Seq<AttachmentMeta>) -> Seq<(Seq<char>, Seq<char>, nat)> {
    v.map_values(|a: AttachmentMeta| (a.filename@, a.mime@, a.size as nat))
}

fn part_attachment(p: &MailPart) -> (r: bool)
    ensures
        r == is_attachment(p@),
{
    p.subpart_count == 0 && (p.attachment || p.filename.is_some() || p.name_param.is_some())
}

fn part_name(p: &MailPart) -> (r: String)
    ensures
        r@ == match part_filename(p@) {
            Some(n) => n,
            None => "attachment"@,
        },
{
    match &p.filename {
        Some(f) => f.clone(),
        None => match &p.name_param {
            Some(n) => n.clone(),
            None => crate::store::string_of_str("attachment"),
        },
    }
}

/// The attachments of the parts, in walk order.
pub fn attachments_of(parts: &Vec<MailPart>) -> (r: Result<Vec<AttachmentMeta>, ContentError>)
    ensures
        match r {
            Ok(v) => inventory(parts_view(parts@)) == Ok::<Seq<(Seq<char>, Seq<char>, nat)>, ContentError>(meta_view(v@)),
            Err(e) => inventory(parts_view(parts@)) == Err::<Seq<(Seq<char>, Seq<char>, nat)>, ContentError>(e),
        },
{
    let mut out: Vec<AttachmentMeta> = Vec::new();
    let mut k: usize = 0;
    assert(parts_view(parts@).subrange(0, 0) =~= Seq::<PartView>::empty());
    assert(meta_view(out@) =~= Seq::<(Seq<char>, Seq<char>, nat)>::empty());
    while k < parts.len()
        invariant
            k <= parts@.len(),
            inventory(parts_view(parts@).subrange(0, k as int)) == Ok::<Seq<(Seq<char>, Seq<char>, nat)>, ContentError>(meta_view(out@)),
        decreases parts.len() - k,
    {
        proof {
            let s1 = parts_view(parts@).subrange(0, k as int + 1);
            assert(s1.drop_last() =~= parts_view(parts@).subrange(0, k as int));
            assert(s1.last() == parts@[k as int]@);
        }
        let p = &parts[k];
        if part_attachment(p) {
            match &p.raw {
                None => {
                    proof {
                        lemma_inventory_err(parts_view(parts@), k as int + 1);
                    }
                    return Err(ContentError::MalformedMime);
                },
                Some(bytes) => {
                    let ghost before = out@;
                    out.push(AttachmentMeta {
                        filename: part_name(p),
                        mime: string_of(&lower_chars(&chars_of(p.mimetype.as_str()))),
                        size: bytes.len(),
                    });
                    assert(meta_view(out@) =~= meta_view(before).push(meta_view(out@).last()));
                },
            }
        }
        k += 1;
    }
    assert(parts_view(parts@).subrange(0, parts@.len() as int) =~= parts_view(parts@));
    Ok(out)
}

/// The attachment inventory of a raw message.
pub fn extract_attachments(raw: &[u8]) -> (r: Result<Vec<AttachmentMeta>, ContentError>)
    ensures
        parsed_parts(raw@) is None ==> r == Err::<Vec<AttachmentMeta>, ContentError>(ContentError::MalformedMime),
        parsed_parts(raw@) matches Some(ps) ==> match r {
            Ok(v) => inventory(ps) == Ok::<Seq<(Seq<char>, Seq<char>, nat)>, ContentError>(meta_view(v@)),
            Err(e) => inventory(ps) == Err::<Seq<(Seq<char>, Seq<char>, nat)>, ContentError>(e),
        },
{
    match parse_parts(raw) {
        None => Err(ContentError::MalformedMime),
        Some(parts) => attachments_of(&parts),
    }
}

/// The attachment at position `index` of the inventory, with its bytes.
pub fn extract_attachment_data(raw: &[u8], index: usize) -> (r: Result<Option<AttachmentData>, ContentError>)
    ensures
        parsed_parts(raw@) is None ==> r == Err::<Option<AttachmentData>, ContentError>(ContentError::MalformedMime),
        r matches Ok(Some(d)) ==> attachment_found(parsed_parts(raw@), index, d),
        r matches Ok(None) ==> attachments_exhausted(parsed_parts(raw@), index),
        parsed_parts(raw@) is Some && r is Err ==> attachment_undecodable(parsed_parts(raw@), index),
{
    let parts = match parse_parts(raw) {
        None => {
            return Err(ContentError::MalformedMime);
        },
        Some(p) => p,
    };
    let ghost ps = parts_view(parts@);
    let mut current: usize = 0;
    let mut k: usize = 0;
    while k < parts.len()
        invariant
            ps == parts_view(parts@),
            parsed_parts(raw@) == Some(ps),
            k <= parts@.len(),
            current as int == attachments_before(ps, k as int),
            current <= index,
        decreases parts.len() - k,
    {
        assert(ps[k as int] == parts@[k as int]@);
        let p = &parts[k];
        if part_attachment(p) {
            if current == index {
                assert(is_attachment(ps[k as int]) && attachments_before(ps, k as int) == index);
                return match &p.raw {
                    None => {
                        assert(ps[k as int].raw is None);
                        assert(exists|q: int|
                            0 <= q < ps.len() && is_attachment(#[trigger] ps[q]) && ps[q].raw is None && attachments_before(ps, q) == index);
                        Err(ContentError::MalformedMime)
                    },
                    Some(bytes) => {
                        let d = AttachmentData {
                            filename: part_name(p),
                            mime: string_of(&lower_chars(&chars_of(p.mimetype.as_str()))),
                            data: crate::store::copy_bytes(bytes),
                        };
                        assert(ps[k as int].raw == Some(d.data@));
                        assert(d.mime@ == lower(ps[k as int].mimetype));
                        assert(d.filename@ == match part_filename(ps[k as int]) {
                            Some(n) => n,
                            None => "attachment"@,
                        });
                        assert(exists|q: int|
                            0 <= q < ps.len() && is_attachment(#[trigger] ps[q]) && ps[q].raw == Some(d.data@)
                                && d.mime@ == lower(ps[q].mimetype) && d.filename@ == match part_filename(ps[q]) {
                                    Some(n) => n,
                                    None => "attachment"@,
                                } && attachments_before(ps, q) == index);
                        Ok(Some(d))
                    },
                };
            }
            current += 1;
        }
        k += 1;
    }
    Ok(None)
}

/// Attachment `index` of the parts is `d`.
pub open spec fn attachment_found(parts: Option<Seq<PartView>>, index: usize, d: AttachmentData) -> bool {
    match parts {
        None => false,
        Some(ps) => exists|k: int|
            0 <= k < ps.len() && is_attachment(#[trigger] ps[k]) && ps[k].raw == Some(d.data@)
                && d.mime@ == lower(ps[k].mimetype) && d.filename@ == match part_filename(ps[k]) {
                    Some(n) => n,
                    None => "attachment"@,
                } && attachments_before(ps, k) == index,
    }
}

/// The parts hold no more than `index` attachments.
pub open spec fn attachments_exhausted(parts: Option<Seq<PartView>>, index: usize) -> bool {
    match parts {
        None => false,
        Some(ps) => attachments_before(ps, ps.len() as int) <= index,
    }
}

/// Attachment `index` of the parts has bytes that do not decode.
pub open spec fn attachment_undecodable(parts: Option<Seq<PartView>>, index: usize) -> bool {
    match parts {
        None => false,
        Some(ps) => exists|k: int|
            0 <= k < ps.len() && is_attachment(#[trigger] ps[k]) && ps[k].raw is None && attachments_before(ps, k) == index,
    }
}

/// Number of attachments among the first `k` parts.
pub open spec fn attachments_before(ps: Seq<PartView>, k: int) -> int
    decreases k,
{
    if k <= 0 || k > ps.len() {
        0
    } else {
        attachments_before(ps, k - 1) + if is_attachment(ps[k - 1]) { 1int } else { 0int }
    }
}

/// `s` without leading `<` and trailing `>`.
pub open spec fn unbracketed(s: Seq<char>) -> Seq<char>
    decreases s.len(),
{
    if s.len() > 0 && s[0] == '<' {
        unbracketed(s.drop_first())
    } else if s.len() > 0 && s.last() == '>' {
        unbracketed(s.drop_last())
    } else {
        s
    }
}

fn strip_brackets(s: &Vec<char>, lo: usize, hi: usize) -> (r: (usize, usize))
    requires
        lo <= hi <= s@.len(),
    ensures
        lo <= r.0 <= r.1 <= hi,
        s@.subrange(r.0 as int, r.1 as int) == unbracketed(s@.subrange(lo as int, hi as int)),
    decreases hi - lo,
{
    let ghost sub = s@.subrange(lo as int, hi as int);
    if lo < hi && s[lo] == '<' {
        assert(sub.drop_first() =~= s@.subrange(lo as int + 1, hi as int));
        strip_brackets(s, lo + 1, hi)
    } else if lo < hi && s[hi - 1] == '>' {
        assert(sub.drop_last() =~= s@.subrange(lo as int, hi as int - 1));
        strip_brackets(s, lo, hi - 1)
    } else {
        (lo, hi)
    }
}

/// The inline images of the parts: each part with a Content-ID and decodable bytes (within
/// the encodable size) gives the bare id and a `data:` URL of its lower-cased type and bytes.
pub open spec fn cid_entries(parts: Seq<PartView>) -> Seq<(Seq<char>, Seq<char>)>
    decreases parts.len(),
{
    if parts.len() == 0 {
        Seq::empty()
    } else {
        let prev = cid_entries(parts.drop_last());
        let p = parts.last();
        match (p.content_id, p.raw) {
            (Some(c), Some(b)) => if b.len() <= usize::MAX / 2 {
                prev.push((unbracketed(trim(c)), "data:"@ + lower(p.mimetype) + ";base64,"@ + base64_of(b)))
            } else {
                prev
            },
            _ => prev,
        }
    }
}

/// The Content-ID map of the parts.
pub fn collect_cid_map(parts: &Vec<MailPart>) -> (r: Vec<(String, String)>)
    ensures
        crate::content::cid_pairs(r@) == cid_entries(parts_view(parts@)),
{
    let mut out: Vec<(String, String)> = Vec::new();
    let mut k: usize = 0;
    while k < parts.len()
        invariant
            k <= parts@.len(),
            crate::content::cid_pairs(out@) == cid_entries(parts_view(parts@).subrange(0, k as int)),
        decreases parts.len() - k,
    {
        proof {
            let s1 = parts_view(parts@).subrange(0, k as int + 1);
            assert(s1.drop_last() =~= parts_view(parts@).subrange(0, k as int));
            assert(s1.last() == parts@[k as int]@);
        }
        let p = &parts[k];
        match (&p.content_id, &p.raw) {
            (Some(c), Some(b)) => {
                if b.len() <= usize::MAX / 2 {
                    let t = trim_chars(&chars_of(c.as_str()));
                    let (a, z) = strip_brackets(&t, 0, t.len());
                    assert(t@.subrange(0, t@.len() as int) =~= t@);
                    let cid = string_of(&crate::text::slice_chars(&t, a, z));
                    let mime = string_of(&lower_chars(&chars_of(p.mimetype.as_str())));
                    let url = cid_data_url(mime.as_str(), b);
                    let ghost before = out@;
                    out.push((cid, url));
                    assert(crate::content::cid_pairs(out@) =~= crate::content::cid_pairs(before).push((out@.last().0@, out@.last().1@)));
                }
            },
            _ => {},
        }
        k += 1;
    }
    assert(parts_view(parts@).subrange(0, parts@.len() as int) =~= parts_view(parts@));
    out
}

/// The prepared HTML of a raw message: its first HTML part sanitised, inline images
/// inlined and, unless allowed, remote assets blocked; nothing without an HTML part.
pub fn prepare_html(raw: &[u8], allow_remote: bool) -> (r: Result<Option<PreparedHtml>, ContentError>)
    ensures
        match parsed_parts(raw@) {
            None => r == Err::<Option<PreparedHtml>, ContentError>(ContentError::MalformedMime),
            Some(ps) => match first_text_of(ps, "text/html"@) {
                None => r matches Ok(None),
                Some(h) => match r {
                    Ok(Some(p)) => p.html@ == prepared(sanitized_of(h), cid_entries(ps), allow_remote).0
                        && (prepared(sanitized_of(h), cid_entries(ps), allow_remote).1 <= usize::MAX ==> p.blocked_remote as nat
                            == prepared(sanitized_of(h), cid_entries(ps), allow_remote).1)
                        && (p.blocked_remote > 0 ==> crate::text::contains(p.html@, crate::content::sentinel()))
                        && (allow_remote ==> p.blocked_remote == 0),
                    _ => false,
                },
            },
        },
{
    let parts = match parse_parts(raw) {
        None => {
            return Err(ContentError::MalformedMime);
        },
        Some(p) => p,
    };
    let html = match first_text(&parts, "text/html") {
        None => {
            return Ok(None);
        },
        Some(h) => h,
    };
    let sanitized = sanitize(html.as_str());
    let cid_map = collect_cid_map(&parts);
    Ok(Some(prepare_html_from_parts(sanitized.as_str(), &cid_map, allow_remote)))
}

/// The display text and links of a raw message at a width in columns.
pub fn extract_display(raw: &[u8], width_cols: usize) -> (r: Result<DisplayText, ContentError>)
    ensures
        match parsed_parts(raw@) {
            None => r == Err::<DisplayText, ContentError>(ContentError::MalformedMime),
            Some(ps) => match chosen_body(ps) {
                Err(e) => r == Err::<DisplayText, ContentError>(e),
                Ok(b) => {
                    let reflow_ok = !b.1 || reflowed(sanitized_of(b.0), width_cols) is Some;
                    let text: Seq<char> = if b.1 { reflowed(sanitized_of(b.0), width_cols)->0 } else { b.0 };
                    let html: Option<Seq<char>> = if b.1 {
                        Some(sanitized_of(b.0))
                    } else {
                        match first_text_of(ps, "text/html"@) {
                            Some(h) => Some(sanitized_of(h)),
                            None => None,
                        }
                    };
                    if !reflow_ok {
                        r == Err::<DisplayText, ContentError>(ContentError::NoDisplayableBody)
                    } else {
                        match r {
                            Ok(d) => links_view(d.links@) == display_of(text, html).1 && d.text@ == labelled(
                                urls_from(display_of(text, html).0, 0),
                                d.links@,
                                d.links@.len() as int,
                            ),
                            Err(_) => false,
                        }
                    }
                },
            },
        },
{
    let parts = match parse_parts(raw) {
        None => {
            return Err(ContentError::MalformedMime);
        },
        Some(p) => p,
    };
    let (body, is_html) = match select_body(&parts) {
        Err(e) => {
            return Err(e);
        },
        Ok(x) => x,
    };
    if is_html {
        let sanitized = sanitize(body.as_str());
        match reflow(sanitized.as_str(), width_cols) {
            None => Err(ContentError::NoDisplayableBody),
            Some(text) => Ok(display_from_parts(text.as_str(), Some(sanitized.as_str()))),
        }
    } else {
        match first_text(&parts, "text/html") {
            Some(html) => {
                let sanitized = sanitize(html.as_str());
                Ok(display_from_parts(body.as_str(), Some(sanitized.as_str())))
            },
            None => Ok(display_from_parts(body.as_str(), None)),
        }
    }
}

} // verus!
