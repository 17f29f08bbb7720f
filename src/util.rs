use vstd::prelude::*;
use vstd::string::StringSliceAdditionalSpecFns;

use vstd::utf8::{decode_utf8, valid_utf8};
use crate::compose::clamped_end;
use crate::types::LinkInfo;
use crate::cli::{extract_email, extracted_email};
use crate::text::{find_line_end, lemma_line_end_bounds, slice_chars, strip_cr, append_chars, chars_of, contains, contains_chars, dec, dec_signed, lower, lower_chars, push_decimal, push_signed, string_of, trim, trim_chars};

verus! {

/// Uids joined by commas, as an IMAP sequence set.
pub open spec fn uid_list(uids: Seq<u32>) -> Seq<char>
    decreases uids.len(),
{
    if uids.len() == 0 {
        Seq::empty()
    } else if uids.len() == 1 {
        dec(uids[0] as nat)
    } else {
        uid_list(uids.drop_last()) + ","@ + dec(uids.last() as nat)
    }
}

pub fn uid_set(uids: &[u32]) -> (r: String)
    ensures
        r@ == uid_list(uids@),
{
    let mut out: Vec<char> = Vec::new();
    let mut k: usize = 0;
    while k < uids.len()
        invariant
            k <= uids@.len(),
            out@ == uid_list(uids@.subrange(0, k as int)),
        decreases uids.len() - k,
    {
        proof {
            let s1 = uids@.subrange(0, k as int + 1);
            assert(s1.drop_last() =~= uids@.subrange(0, k as int));
        }
        if k > 0 {
            out.push(',');
        }
        push_decimal(&mut out, uids[k] as u64);
        proof {
            reveal_strlit(",");
            let s1 = uids@.subrange(0, k as int + 1);
            if k == 0 {
                assert(out@ =~= dec(uids@[0] as nat));
            } else {
                assert(out@ =~= uid_list(s1.drop_last()) + ","@ + dec(s1.last() as nat));
            }
        }
        k += 1;
    }
    assert(uids@.subrange(0, uids@.len() as int) =~= uids@);
    string_of(&out)
}

/// Whether an error message reports that the server closed the connection with `BYE`
/// (case-insensitively); such an error earns one retry.
pub fn is_imap_bye(message: &str) -> (r: bool)
    ensures
        r == contains(lower(message@), "bye response"@),
{
    contains_chars(&lower_chars(&chars_of(message)), &chars_of("bye response"))
}

/// A failed sync is tried again once, and only when the server closed the connection.
pub fn should_retry(message: &str, attempts: u32) -> (r: bool)
    ensures
        r == (attempts == 0 && contains(lower(message@), "bye response"@)),
{
    attempts == 0 && is_imap_bye(message)
}

/// The three-letter English name of a month, January for anything out of range.
pub open spec fn month_abbrev(month: u32) -> Seq<char> {
    if month == 2 { "Feb"@ } else if month == 3 { "Mar"@ } else if month == 4 { "Apr"@ }
    else if month == 5 { "May"@ } else if month == 6 { "Jun"@ } else if month == 7 { "Jul"@ }
    else if month == 8 { "Aug"@ } else if month == 9 { "Sep"@ } else if month == 10 { "Oct"@ }
    else if month == 11 { "Nov"@ } else if month == 12 { "Dec"@ } else { "Jan"@ }
}

fn month_name(month: u32) -> (r: &'static str)
    ensures
        r@ == month_abbrev(month),
{
    if month == 2 { "Feb" } else if month == 3 { "Mar" } else if month == 4 { "Apr" }
    else if month == 5 { "May" } else if month == 6 { "Jun" } else if month == 7 { "Jul" }
    else if month == 8 { "Aug" } else if month == 9 { "Sep" } else if month == 10 { "Oct" }
    else if month == 11 { "Nov" } else if month == 12 { "Dec" } else { "Jan" }
}

/// A date as IMAP search criteria write it: `day-Mon-year`.
pub open spec fn imap_date(year: i32, month: u32, day: u32) -> Seq<char> {
    dec(day as nat) + "-"@ + month_abbrev(month) + "-"@ + dec_signed(year as int)
}

/// A date as IMAP search criteria write it: `day-Mon-year`.
pub fn imap_date_from_parts(year: i32, month: u32, day: u32) -> (r: String)
    ensures
        r@ == imap_date(year, month, day),
{
    let mut out: Vec<char> = Vec::new();
    push_decimal(&mut out, day as u64);
    out.push('-');
    append_chars(&mut out, &chars_of(month_name(month)));
    out.push('-');
    push_signed(&mut out, year as i64);
    proof {
        reveal_strlit("-");
    }
    assert(out@ =~= dec(day as nat) + "-"@ + month_abbrev(month) + "-"@ + dec_signed(year as int));
    string_of(&out)
}

/// `count` query placeholders joined by `", "`.
pub open spec fn placeholder_list(count: nat) -> Seq<char>
    decreases count,
{
    if count == 0 {
        Seq::empty()
    } else if count == 1 {
        "?"@
    } else {
        placeholder_list((count - 1) as nat) + ", ?"@
    }
}

pub fn placeholders(count: usize) -> (r: String)
    ensures
        r@ == placeholder_list(count as nat),
{
    let mut out: Vec<char> = Vec::new();
    let mut k: usize = 0;
    while k < count
        invariant
            k <= count,
            out@ == placeholder_list(k as nat),
        decreases count - k,
    {
        if k > 0 {
            out.push(',');
            out.push(' ');
        }
        out.push('?');
        proof {
            reveal_strlit("?");
            reveal_strlit(", ?");
        }
        assert(out@ =~= placeholder_list(k as nat + 1));
        k += 1;
    }
    string_of(&out)
}

/// An ASCII letter or digit.
pub open spec fn ascii_alnum(c: char) -> bool {
    ('a' <= c && c <= 'z') || ('A' <= c && c <= 'Z') || ('0' <= c && c <= '9')
}

/// Lower-cased letters and digits kept, every other run turned into one dash; `dash` says
/// whether the text written so far ends in a dash.
pub open spec fn slug_from(s: Seq<char>, dash: bool) -> Seq<char>
    decreases s.len(),
{
    if s.len() == 0 {
        Seq::empty()
    } else if ascii_alnum(crate::text::lower_char(s[0])) {
        seq![crate::text::lower_char(s[0])] + slug_from(s.drop_first(), false)
    } else if !dash {
        seq!['-'] + slug_from(s.drop_first(), true)
    } else {
        slug_from(s.drop_first(), true)
    }
}

/// `s` without dashes at either end.
pub open spec fn trim_dashes(s: Seq<char>) -> Seq<char>
    decreases s.len(),
{
    if s.len() > 0 && s[0] == '-' {
        trim_dashes(s.drop_first())
    } else if s.len() > 0 && s.last() == '-' {
        trim_dashes(s.drop_last())
    } else {
        s
    }
}

/// A file-name-safe slug of an account name, `account` when nothing is left.
pub open spec fn slug(raw: Seq<char>) -> Seq<char> {
    if trim_dashes(slug_from(raw, false)).len() == 0 {
        "account"@
    } else {
        trim_dashes(slug_from(raw, false))
    }
}

fn trim_dash_bounds(s: &[char], lo: usize, hi: usize) -> (r: (usize, usize))
    requires
        lo <= hi <= s@.len(),
    ensures
        r.0 <= r.1 <= s@.len(),
        s@.subrange(r.0 as int, r.1 as int) == trim_dashes(s@.subrange(lo as int, hi as int)),
    decreases hi - lo,
{
    let ghost sub = s@.subrange(lo as int, hi as int);
    if lo < hi && s[lo] == '-' {
        assert(sub.drop_first() =~= s@.subrange(lo as int + 1, hi as int));
        trim_dash_bounds(s, lo + 1, hi)
    } else if lo < hi && s[hi - 1] == '-' {
        assert(sub.drop_last() =~= s@.subrange(lo as int, hi as int - 1));
        trim_dash_bounds(s, lo, hi - 1)
    } else {
        (lo, hi)
    }
}

pub fn slugify_name(raw: &str) -> (r: String)
    ensures
        r@ == slug(raw@),
{
    let t = chars_of(raw);
    let mut out: Vec<char> = Vec::new();
    let mut dash = false;
    let mut i: usize = 0;
    assert(t@.subrange(0, t@.len() as int) =~= t@);
    assert(out@ + slug_from(t@, false) =~= slug_from(t@, false));
    while i < t.len()
        invariant
            t@ == raw@,
            i <= t@.len(),
            out@ + slug_from(t@.subrange(i as int, t@.len() as int), dash) == slug_from(t@, false),
        decreases t.len() - i,
    {
        let ghost out0 = out@;
        proof {
            let rest = t@.subrange(i as int, t@.len() as int);
            assert(rest.drop_first() =~= t@.subrange(i as int + 1, t@.len() as int));
            assert(rest[0] == t@[i as int]);
        }
        let c = crate::text::to_lower_char(t[i]);
        if ('a' <= c && c <= 'z') || ('A' <= c && c <= 'Z') || ('0' <= c && c <= '9') {
            out.push(c);
            dash = false;
            proof {
                let rest = t@.subrange(i as int + 1, t@.len() as int);
                assert(out@ + slug_from(rest, false) =~= out0 + (seq![c] + slug_from(rest, false)));
            }
        } else if !dash {
            out.push('-');
            dash = true;
            proof {
                let rest = t@.subrange(i as int + 1, t@.len() as int);
                assert(out@ + slug_from(rest, true) =~= out0 + (seq!['-'] + slug_from(rest, true)));
            }
        }
        i += 1;
    }
    proof {
        assert(out@ + slug_from(t@.subrange(i as int, t@.len() as int), dash) =~= out@);
    }
    let (a, b) = trim_dash_bounds(&out, 0, out.len());
    assert(out@.subrange(0, out@.len() as int) =~= out@);
    if a == b {
        crate::store::string_of_str("account")
    } else {
        string_of(&crate::text::slice_chars(&out, a, b))
    }
}

/// Number of `'@'` in `s`.
pub open spec fn at_count(s: Seq<char>) -> nat
    decreases s.len(),
{
    if s.len() == 0 {
        0
    } else {
        at_count(s.drop_last()) + if s.last() == '@' { 1nat } else { 0nat }
    }
}

/// A link that reads as a bare e-mail address: no spaces, no scheme, exactly one `@` with
/// something before it and a dot after it.
pub open spec fn email_like(link: Seq<char>) -> bool {
    let t = trim(link);
    &&& t.len() > 0
    &&& !contains(t, " "@)
    &&& !contains(t, "://"@)
    &&& at_count(t) == 1
    &&& exists|k: int| 0 <= k < t.len() && t[k] == '@' && k > 0 && contains(t.subrange(k + 1, t.len() as int), "."@)
}

pub fn looks_like_email(link: &str) -> (r: bool)
    ensures
        r == email_like(link@),
{
    let t = trim_chars(&chars_of(link));
    if t.len() == 0 || contains_chars(&t, &chars_of(" ")) || contains_chars(&t, &chars_of("://")) {
        return false;
    }
    let mut ats: usize = 0;
    let mut first: usize = t.len();
    let mut i: usize = 0;
    while i < t.len()
        invariant
            i <= t@.len(),
            ats == at_count(t@.subrange(0, i as int)),
            ats <= i,
            ats == 0 ==> first == t@.len(),
            ats > 0 ==> first < i && t@[first as int] == '@' && forall|j: int| 0 <= j < first ==> t@[j] != '@',
            ats == 0 ==> forall|j: int| 0 <= j < i ==> t@[j] != '@',
        decreases t.len() - i,
    {
        proof {
            let s1 = t@.subrange(0, i as int + 1);
            assert(s1.drop_last() =~= t@.subrange(0, i as int));
        }
        if t[i] == '@' {
            if ats == 0 {
                first = i;
            }
            ats += 1;
        }
        i += 1;
    }
    assert(t@.subrange(0, t@.len() as int) =~= t@);
    if ats != 1 {
        return false;
    }
    let domain = crate::text::slice_chars(&t, first + 1, t.len());
    let r = first > 0 && contains_chars(&domain, &chars_of("."));
    proof {
        if exists|k: int| 0 <= k < t@.len() && t@[k] == '@' && k > 0 && contains(t@.subrange(k + 1, t@.len() as int), "."@) {
            let k = choose|k: int| 0 <= k < t@.len() && t@[k] == '@' && k > 0 && contains(t@.subrange(k + 1, t@.len() as int), "."@);
            if k != first {
                lemma_two_ats(t@, first as int, k);
            }
        }
    }
    r
}

/// Two different positions holding `'@'` make at least two of them.
proof fn lemma_two_ats(t: Seq<char>, a: int, b: int)
    requires
        0 <= a < t.len(),
        0 <= b < t.len(),
        a != b,
        t[a] == '@',
        t[b] == '@',
    ensures
        at_count(t) >= 2,
    decreases t.len(),
{
    let d = t.drop_last();
    if a == t.len() - 1 {
        lemma_one_at(d, b);
    } else if b == t.len() - 1 {
        lemma_one_at(d, a);
    } else {
        lemma_two_ats(d, a, b);
    }
}

proof fn lemma_one_at(t: Seq<char>, a: int)
    requires
        0 <= a < t.len(),
        t[a] == '@',
    ensures
        at_count(t) >= 1,
    decreases t.len(),
{
    if a < t.len() - 1 {
        lemma_one_at(t.drop_last(), a);
    }
}

/// A byte size for display: bytes, kilobytes or megabytes, rounded to the nearest whole
/// unit (halves up).
pub open spec fn size_label(bytes: nat) -> Seq<char> {
    if bytes >= 1048576 {
        dec((bytes + 524288) / 1048576) + " MB"@
    } else if bytes >= 1024 {
        dec((bytes + 512) / 1024) + " KB"@
    } else {
        dec(bytes) + " B"@
    }
}

pub fn format_size(bytes: usize) -> (r: String)
    ensures
        r@ == size_label(bytes as nat),
{
    let mut out: Vec<char> = Vec::new();
    let b = bytes as u128;
    if bytes >= 1048576 {
        push_decimal(&mut out, ((b + 524288) / 1048576) as u64);
        append_chars(&mut out, &chars_of(" MB"));
    } else if bytes >= 1024 {
        push_decimal(&mut out, ((b + 512) / 1024) as u64);
        append_chars(&mut out, &chars_of(" KB"));
    } else {
        push_decimal(&mut out, bytes as u64);
        append_chars(&mut out, &chars_of(" B"));
    }
    string_of(&out)
}

/// The last path component, trailing separators and `.` components ignored; `attachment`
/// when there is none or it is `..`.
pub open spec fn base_name(path: Seq<char>) -> Seq<char>
    decreases path.len(),
{
    if path.len() > 0 && path.last() == '/' {
        base_name(path.drop_last())
    } else if path.len() == 1 && path[0] == '.' {
        "attachment"@
    } else if path.len() >= 2 && path.last() == '.' && path[path.len() - 2] == '/' {
        base_name(path.drop_last())
    } else {
        let k = last_slash(path);
        let name = path.subrange(k + 1, path.len() as int);
        if name.len() == 0 || name == ".."@ {
            "attachment"@
        } else {
            name
        }
    }
}

/// Position of the last `'/'`, or -1.
pub open spec fn last_slash(s: Seq<char>) -> int
    decreases s.len(),
{
    if s.len() == 0 {
        -1
    } else if s.last() == '/' {
        s.len() - 1
    } else {
        last_slash(s.drop_last())
    }
}

pub proof fn lemma_last_slash(s: Seq<char>)
    ensures
        -1 <= last_slash(s) < s.len(),
        last_slash(s) >= 0 ==> s[last_slash(s)] == '/',
        forall|j: int| last_slash(s) < j < s.len() ==> s[j] != '/',
    decreases s.len(),
{
    if s.len() > 0 && s.last() != '/' {
        let d = s.drop_last();
        lemma_last_slash(d);
        assert forall|j: int| last_slash(s) < j < s.len() implies s[j] != '/' by {
            if j < s.len() - 1 {
                assert(d[j] == s[j]);
            }
        }
    }
}

/// The file name to save an attachment under: the input's last path component.
pub fn safe_filename(input: &str) -> (r: String)
    ensures
        r@ == base_name(input@),
{
    let t = chars_of(input);
    let mut n: usize = t.len();
    assert(t@.subrange(0, t@.len() as int) =~= t@);
    while n > 0 && (t[n - 1] == '/' || (n >= 2 && t[n - 1] == '.' && t[n - 2] == '/'))
        invariant
            t@ == input@,
            n <= t@.len(),
            base_name(t@) == base_name(t@.subrange(0, n as int)),
        decreases n,
    {
        let ghost p = t@.subrange(0, n as int);
        assert(p.drop_last() =~= t@.subrange(0, n as int - 1));
        assert(p.last() == t@[n as int - 1]);
        n -= 1;
    }
    if n == 1 && t[0] == '.' {
        proof {
            let p = t@.subrange(0, 1);
            assert(p[0] == '.' && p.last() == '.');
        }
        return crate::store::string_of_str("attachment");
    }
    let p = crate::text::slice_chars(&t, 0, n);
    proof {
        lemma_last_slash(p@);
        if n > 0 {
            assert(p@.last() == t@[n as int - 1]);
            if n >= 2 {
                assert(p@[p@.len() - 2] == t@[n as int - 2]);
            }
        }
    }
    let mut k: usize = n;
    while k > 0 && p[k - 1] != '/'
        invariant
            k <= p@.len(),
            forall|j: int| k <= j < p@.len() ==> p@[j] != '/',
        decreases k,
    {
        k -= 1;
    }
    proof {
        if k > 0 {
            assert(last_slash(p@) == k - 1) by {
                lemma_last_slash(p@);
                if last_slash(p@) > k - 1 {
                    assert(p@[last_slash(p@)] != '/');
                }
                if last_slash(p@) < k - 1 {
                    assert(p@[k - 1] == '/');
                }
            }
        } else {
            assert(last_slash(p@) == -1) by {
                lemma_last_slash(p@);
                if last_slash(p@) >= 0 {
                    assert(p@[last_slash(p@)] != '/');
                }
            }
        }
    }
    let name = crate::text::slice_chars(&p, k, n);
    proof {
        reveal_strlit("..");
        assert(base_name(p@) == if name@.len() == 0 || name@ == ".."@ { "attachment"@ } else { name@ });
    }
    if name.len() == 0 || (name.len() == 2 && name[0] == '.' && name[1] == '.') {
        proof {
            if name@.len() == 2 && name@[0] == '.' && name@[1] == '.' {
                assert(name@ =~= ".."@);
            }
        }
        crate::store::string_of_str("attachment")
    } else {
        proof {
            if name@ == ".."@ {
                assert(name@[0] == '.' && name@[1] == '.');
            }
        }
        string_of(&name)
    }
}

/// The recipient line is worth showing: several recipients, or one that is not the account.
pub open spec fn shows_to(to: Seq<char>, account_addr: Seq<char>) -> bool {
    let t = trim(to);
    t.len() > 0 && (contains(t, ","@) || contains(t, ";"@) || lower(extracted_email(account_addr)).len() == 0
        || !contains(lower(t), lower(extracted_email(account_addr))))
}

pub fn should_show_to(to: &str, account_addr: &str) -> (r: bool)
    ensures
        r == shows_to(to@, account_addr@),
{
    let t = trim_chars(&chars_of(to));
    if t.len() == 0 {
        return false;
    }
    if contains_chars(&t, &chars_of(",")) || contains_chars(&t, &chars_of(";")) {
        return true;
    }
    let account_email = lower_chars(&chars_of(extract_email(account_addr).as_str()));
    if account_email.len() == 0 {
        return true;
    }
    !contains_chars(&lower_chars(&t), &account_email)
}

/// How a link is listed: its text, else `Image Link n` for an HTML link (numbered from one
/// when its position is known), else its URL.
pub open spec fn display_label(link: LinkInfo, index: Option<usize>) -> Seq<char> {
    match link.text {
        Some(t) => t@,
        None => if link.from_html {
            match index {
                Some(i) => "Image Link "@ + dec((i + 1) as nat),
                None => "Image Link"@,
            }
        } else {
            link.url@
        },
    }
}

pub fn link_display_label(link: &LinkInfo, index: Option<usize>) -> (r: String)
    requires
        index matches Some(i) ==> i < usize::MAX,
    ensures
        r@ == display_label(*link, index),
{
    match &link.text {
        Some(t) => t.clone(),
        None => {
            if link.from_html {
                match index {
                    Some(i) => {
                        let mut out = chars_of("Image Link ");
                        push_decimal(&mut out, i as u64 + 1);
                        string_of(&out)
                    },
                    None => crate::store::string_of_str("Image Link"),
                }
            } else {
                link.url.clone()
            }
        },
    }
}

/// Relies on `std::str::from_utf8`: the text of bytes that are valid UTF-8.
#[verifier::external_body]
fn utf8_text(b: &[u8]) -> (r: Option<String>)
    ensures
        r is Some <==> valid_utf8(b@),
        r matches Some(s) ==> s@ == decode_utf8(b@),
{
    std::str::from_utf8(b).ok().map(|s| s.to_string())
}

/// Lines shown in a file preview.
pub const PREVIEW_LINES: usize = 200;

/// The lines of `t` from the one at `start`, each followed by a line feed, `n` lines already
/// taken; at most the preview's number of lines.
pub open spec fn preview_lines(t: Seq<char>, start: int, n: nat) -> (Seq<char>, nat)
    decreases t.len() + 1 - start,
{
    if start < 0 || start >= t.len() || n >= PREVIEW_LINES {
        (Seq::empty(), n)
    } else {
        let e = clamped_end(t, start);
        let rest = preview_lines(t, e + 1, n + 1);
        (strip_cr(t.subrange(start, e)) + seq!['\n'] + rest.0, rest.1)
    }
}

/// A text preview of file bytes: nothing for binary data (a NUL byte or invalid UTF-8),
/// `(empty file)` for no text, else the first lines with a marker when cut.
pub open spec fn preview_of(bytes: Seq<u8>, truncated: bool) -> Option<Seq<char>> {
    if exists|k: int| 0 <= k < bytes.len() && bytes[k] == 0 {
        None
    } else if !valid_utf8(bytes) {
        None
    } else if decode_utf8(bytes).len() == 0 {
        Some("(empty file)"@)
    } else {
        let p = preview_lines(decode_utf8(bytes), 0, 0);
        Some(p.0 + if truncated || p.1 >= PREVIEW_LINES { "...\n(truncated)\n"@ } else { Seq::empty() })
    }
}

pub fn text_preview_from_bytes(bytes: &[u8], truncated_bytes: bool) -> (r: Option<String>)
    ensures
        r matches Some(s) ==> preview_of(bytes@, truncated_bytes) == Some(s@),
        r is None ==> preview_of(bytes@, truncated_bytes) is None,
{
    let mut k: usize = 0;
    while k < bytes.len()
        invariant
            k <= bytes@.len(),
            forall|j: int| 0 <= j < k ==> bytes@[j] != 0,
        decreases bytes.len() - k,
    {
        if bytes[k] == 0 {
            return None;
        }
        k += 1;
    }
    let text = match utf8_text(bytes) {
        None => {
            return None;
        },
        Some(t) => t,
    };
    let t = chars_of(text.as_str());
    if t.len() == 0 {
        return Some(crate::store::string_of_str("(empty file)"));
    }
    let mut out: Vec<char> = Vec::new();
    let mut lines: usize = 0;
    let mut start: usize = 0;
    assert(out@ + preview_lines(t@, 0, 0).0 =~= preview_lines(t@, 0, 0).0);
    while start < t.len() && lines < PREVIEW_LINES
        invariant
            start <= t@.len(),
            lines <= PREVIEW_LINES,
            out@ + preview_lines(t@, start as int, lines as nat).0 == preview_lines(t@, 0, 0).0,
            preview_lines(t@, start as int, lines as nat).1 == preview_lines(t@, 0, 0).1,
        decreases t.len() - start,
    {
        let ghost out0 = out@;
        let e = find_line_end(&t, start);
        proof {
            lemma_line_end_bounds(t@, start as int);
        }
        let mut hi: usize = e;
        if hi > start && t[hi - 1] == '\r' {
            hi = hi - 1;
        }
        assert(t@.subrange(start as int, hi as int) == strip_cr(t@.subrange(start as int, e as int)));
        append_chars(&mut out, &slice_chars(&t, start, hi));
        out.push('\n');
        lines += 1;
        assert(out@ + preview_lines(t@, e as int + 1, lines as nat).0 =~= out0 + preview_lines(t@, start as int, (lines - 1) as nat).0);
        if e >= t.len() {
            start = t.len();
        } else {
            start = e + 1;
        }
    }
    proof {
        assert(out@ + preview_lines(t@, start as int, lines as nat).0 =~= out@);
    }
    if truncated_bytes || lines >= PREVIEW_LINES {
        append_chars(&mut out, &chars_of("...\n(truncated)\n"));
    }
    Some(string_of(&out))
}

/// The value of an ASCII hexadecimal digit.
pub open spec fn hex_val(b: u8) -> Option<u8> {
    if 48 <= b && b <= 57 {
        Some((b - 48) as u8)
    } else if 97 <= b && b <= 102 {
        Some((b - 87) as u8)
    } else if 65 <= b && b <= 70 {
        Some((b - 55) as u8)
    } else {
        None
    }
}

pub fn from_hex(b: u8) -> (r: Option<u8>)
    ensures
        r == hex_val(b),
{
    if 48 <= b && b <= 57 {
        Some(b - 48)
    } else if 97 <= b && b <= 102 {
        Some(b - 87)
    } else if 65 <= b && b <= 70 {
        Some(b - 55)
    } else {
        None
    }
}

/// Bytes from `i` on with `%XX` escapes decoded and `+` read as a space.
pub open spec fn unescaped_from(b: Seq<u8>, i: int) -> Seq<u8>
    decreases b.len() - i,
{
    if i < 0 || i >= b.len() {
        Seq::empty()
    } else if b[i] == 37 && i + 2 < b.len() && hex_val(b[i + 1]) is Some && hex_val(b[i + 2]) is Some {
        seq![(hex_val(b[i + 1])->0 * 16 + hex_val(b[i + 2])->0) as u8] + unescaped_from(b, i + 3)
    } else if b[i] == 43 {
        seq![32u8] + unescaped_from(b, i + 1)
    } else {
        seq![b[i]] + unescaped_from(b, i + 1)
    }
}

/// The text that `String::from_utf8_lossy` makes of some bytes.
pub uninterp spec fn lossy_text(b: Seq<u8>) -> Seq<char>;

/// Relies on `String::from_utf8_lossy`: decodes bytes as UTF-8, replacing invalid sequences;
/// the result depends on the bytes alone, and valid UTF-8 comes back as it is.
#[verifier::external_body]
fn lossy_utf8(b: &[u8]) -> (r: String)
    ensures
        r@ == lossy_text(b@),
        valid_utf8(b@) ==> r@ == decode_utf8(b@),
{
    String::from_utf8_lossy(b).to_string()
}

/// Decodes a URL-encoded component: `%XX` escapes and `+` for space.
pub fn percent_decode(input: &str) -> (r: String)
    ensures
        r@ == lossy_text(unescaped_from(input.spec_bytes(), 0)),
        valid_utf8(unescaped_from(input.spec_bytes(), 0)) ==> r@ == decode_utf8(unescaped_from(input.spec_bytes(), 0)),
{
    let bytes = input.as_bytes();
    let mut out: Vec<u8> = Vec::new();
    let mut i: usize = 0;
    assert(out@ + unescaped_from(bytes@, 0) =~= unescaped_from(bytes@, 0));
    while i < bytes.len()
        invariant
            bytes@ == input.spec_bytes(),
            i <= bytes@.len(),
            out@ + unescaped_from(bytes@, i as int) == unescaped_from(bytes@, 0),
        decreases bytes.len() - i,
    {
        let ghost out0 = out@;
        if bytes[i] == 37 && 2 < bytes.len() - i {
            let hi = from_hex(bytes[i + 1]);
            let lo = from_hex(bytes[i + 2]);
            if hi.is_some() && lo.is_some() {
                let h = hi.unwrap();
                let l = lo.unwrap();
                proof {
                    assert(h < 16 && l < 16);
                }
                out.push(h * 16 + l);
                assert(out@ + unescaped_from(bytes@, i as int + 3) =~= out0 + unescaped_from(bytes@, i as int));
                i += 3;
                continue;
            }
            out.push(bytes[i]);
            assert(out@ + unescaped_from(bytes@, i as int + 1) =~= out0 + unescaped_from(bytes@, i as int));
            i += 1;
        } else if bytes[i] == 43 {
            out.push(32);
            assert(out@ + unescaped_from(bytes@, i as int + 1) =~= out0 + unescaped_from(bytes@, i as int));
            i += 1;
        } else {
            out.push(bytes[i]);
            assert(out@ + unescaped_from(bytes@, i as int + 1) =~= out0 + unescaped_from(bytes@, i as int));
            i += 1;
        }
    }
    assert(out@ + unescaped_from(bytes@, i as int) =~= out@);
    lossy_utf8(&out)
}

} // verus!
