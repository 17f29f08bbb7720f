use vstd::prelude::*;

use crate::text::{chars_of, find_line_end, lemma_line_end_bounds, line_end, push_str, slice_chars, string_of, strip_cr, trim, trim_chars};

verus! {

/// Longest preview kept for a draft, in characters.
pub const PREVIEW_CHARS: usize = 200;

/// The preview of a body read from line `start` on: the first line that is not blank,
/// trimmed and cut to the preview length.
pub open spec fn preview_from(t: Seq<char>, start: int) -> Seq<char>
    decreases t.len() + 1 - start,
{
    if start < 0 || start >= t.len() {
        Seq::empty()
    } else {
        let e = if line_end(t, start) < start {
            start
        } else if line_end(t, start) > t.len() {
            t.len() as int
        } else {
            line_end(t, start)
        };
        let line = trim(strip_cr(t.subrange(start, e)));
        if line.len() > 0 {
            if line.len() > PREVIEW_CHARS {
                line.subrange(0, PREVIEW_CHARS as int)
            } else {
                line
            }
        } else {
            preview_from(t, e + 1)
        }
    }
}

/// The preview a draft gets: its first non-blank line, trimmed, at most 200 characters.
pub fn draft_preview(body: &str) -> (r: String)
    ensures
        r@ == preview_from(body@, 0),
{
    let t = chars_of(body);
    let mut start: usize = 0;
    while start < t.len()
        invariant
            t@ == body@,
            start <= t@.len(),
            preview_from(t@, 0) == preview_from(t@, start as int),
        decreases t.len() - start,
    {
        let e = find_line_end(&t, start);
        proof {
            lemma_line_end_bounds(t@, start as int);
        }
        let mut hi: usize = e;
        if hi > start && t[hi - 1] == '\r' {
            hi = hi - 1;
        }
        proof {
            assert(t@.subrange(start as int, hi as int) == strip_cr(t@.subrange(start as int, e as int)));
        }
        let line = slice_chars(&t, start, hi);
        let trimmed = trim_chars(&line);
        proof {
            assert(trimmed@ == trim(strip_cr(t@.subrange(start as int, line_end(t@, start as int)))));
            if trimmed@.len() > 0 {
                assert(preview_from(t@, start as int) == if trimmed@.len() > PREVIEW_CHARS {
                    trimmed@.subrange(0, PREVIEW_CHARS as int)
                } else {
                    trimmed@
                });
            } else {
                assert(preview_from(t@, start as int) == preview_from(t@, e as int + 1));
            }
        }
        if trimmed.len() > 0 {
            if trimmed.len() > PREVIEW_CHARS {
                let cut = slice_chars(&trimmed, 0, PREVIEW_CHARS);
                return string_of(&cut);
            }
            return string_of(&trimmed);
        }
        if e >= t.len() {
            return String::new();
        }
        start = e + 1;
    }
    String::new()
}

/// The header line `name: value\r\n`.
pub open spec fn header(name: Seq<char>, value: Seq<char>) -> Seq<char> {
    name + ": "@ + value + "\r\n"@
}

/// A header that is written only when its value is not blank; the value is trimmed.
pub open spec fn optional_header(name: Seq<char>, value: Seq<char>) -> Seq<char> {
    if trim(value).len() > 0 {
        header(name, trim(value))
    } else {
        Seq::empty()
    }
}

/// The MIME text of a locally saved draft: headers, a blank line, the body.
pub open spec fn draft_text(
    from: Seq<char>,
    to: Seq<char>,
    cc: Seq<char>,
    bcc: Seq<char>,
    subject: Seq<char>,
    body: Seq<char>,
    date: Seq<char>,
) -> Seq<char> {
    header("From"@, from) + optional_header("To"@, to) + optional_header("Cc"@, cc)
        + optional_header("Bcc"@, bcc) + header("Subject"@, subject) + header("Date"@, date)
        + "Content-Type: text/plain; charset=utf-8\r\n"@ + "Content-Transfer-Encoding: 8bit\r\n"@
        + "\r\n"@ + body + "\r\n"@
}

fn push_header(out: &mut String, name: &str, value: &str)
    ensures
        final(out)@ == old(out)@ + header(name@, value@),
{
    push_str(out, name);
    push_str(out, ": ");
    push_str(out, value);
    push_str(out, "\r\n");
    assert(final(out)@ =~= old(out)@ + header(name@, value@));
}

fn push_optional_header(out: &mut String, name: &str, value: &str)
    ensures
        final(out)@ == old(out)@ + optional_header(name@, value@),
{
    let v = trim_chars(&chars_of(value));
    if v.len() > 0 {
        let s = string_of(&v);
        push_header(out, name, s.as_str());
    } else {
        assert(old(out)@ + optional_header(name@, value@) =~= old(out)@);
    }
}

/// The MIME text of a draft: RFC 2822 headers and the body as plain UTF-8 text.
pub fn draft_raw(
    from_addr: &str,
    to: &str,
    cc: &str,
    bcc: &str,
    subject: &str,
    body: &str,
    date_rfc2822: &str,
) -> (r: String)
    ensures
        r@ == draft_text(from_addr@, to@, cc@, bcc@, subject@, body@, date_rfc2822@),
{
    let mut raw = String::new();
    push_header(&mut raw, "From", from_addr);
    push_optional_header(&mut raw, "To", to);
    push_optional_header(&mut raw, "Cc", cc);
    push_optional_header(&mut raw, "Bcc", bcc);
    push_header(&mut raw, "Subject", subject);
    push_header(&mut raw, "Date", date_rfc2822);
    push_str(&mut raw, "Content-Type: text/plain; charset=utf-8\r\n");
    push_str(&mut raw, "Content-Transfer-Encoding: 8bit\r\n");
    push_str(&mut raw, "\r\n");
    push_str(&mut raw, body);
    push_str(&mut raw, "\r\n");
    assert(raw@ =~= draft_text(from_addr@, to@, cc@, bcc@, subject@, body@, date_rfc2822@));
    raw
}

} // verus!
