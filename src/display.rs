use vstd::prelude::*;

use crate::compose::clamped_end;
use crate::content::{char_from, find_char_from, horizontal_rule, is_horizontal_rule, lemma_char_from, replace_all, replaced_from};
use crate::links::{extract_links, link_label, link_label_for_text, links_view, message_links};
use crate::text::{
    append_chars, chars_of, contains, contains_chars, find_line_end, lemma_line_end_bounds, slice_chars, starts_with,
    starts_with_chars, string_of, trim, trim_chars,
};
use crate::types::{DisplayText, LinkInfo};

verus! {

/// Carriage returns turned into line feeds, a CR LF pair into one.
pub open spec fn unix_newlines(t: Seq<char>) -> Seq<char>
    decreases t.len(),
{
    if t.len() == 0 {
        Seq::empty()
    } else if t[0] == '\r' {
        if t.len() > 1 && t[1] == '\n' {
            seq!['\n'] + unix_newlines(t.subrange(2, t.len() as int))
        } else {
            seq!['\n'] + unix_newlines(t.drop_first())
        }
    } else {
        seq![t[0]] + unix_newlines(t.drop_first())
    }
}

fn to_unix_newlines(t: &[char]) -> (r: Vec<char>)
    ensures
        r@ == unix_newlines(t@),
{
    let mut out: Vec<char> = Vec::new();
    let mut i: usize = 0;
    assert(t@.subrange(0, t@.len() as int) =~= t@);
    assert(out@ + unix_newlines(t@) =~= unix_newlines(t@));
    while i < t.len()
        invariant
            i <= t@.len(),
            out@ + unix_newlines(t@.subrange(i as int, t@.len() as int)) == unix_newlines(t@),
        decreases t.len() - i,
    {
        let ghost out0 = out@;
        let ghost rest = t@.subrange(i as int, t@.len() as int);
        if t[i] == '\r' {
            out.push('\n');
            if i + 1 < t.len() && t[i + 1] == '\n' {
                assert(rest.subrange(2, rest.len() as int) =~= t@.subrange(i as int + 2, t@.len() as int));
                assert(out@ + unix_newlines(t@.subrange(i as int + 2, t@.len() as int)) =~= out0 + unix_newlines(rest));
                i += 2;
            } else {
                assert(rest.drop_first() =~= t@.subrange(i as int + 1, t@.len() as int));
                assert(out@ + unix_newlines(t@.subrange(i as int + 1, t@.len() as int)) =~= out0 + unix_newlines(rest));
                i += 1;
            }
        } else {
            out.push(t[i]);
            assert(rest.drop_first() =~= t@.subrange(i as int + 1, t@.len() as int));
            assert(out@ + unix_newlines(t@.subrange(i as int + 1, t@.len() as int)) =~= out0 + unix_newlines(rest));
            i += 1;
        }
    }
    assert(out@ + unix_newlines(t@.subrange(i as int, t@.len() as int)) =~= out@);
    out
}

/// The lines of `t` from the one at `start` on, rule lines dropped and runs of blank lines cut
/// to one (emptied), joined by line feeds; `blank` says whether the last line written was
/// blank and `first` whether none was written yet.
pub open spec fn kept_lines_from(t: Seq<char>, start: int, blank: bool, first: bool) -> Seq<char>
    decreases t.len() + 1 - start,
{
    if start < 0 || start > t.len() {
        Seq::empty()
    } else {
        let e = clamped_end(t, start);
        let line = t.subrange(start, e);
        let tr = trim(line);
        let emit: Option<Seq<char>> = if horizontal_rule(tr) {
            None
        } else if tr.len() == 0 {
            if blank { None } else { Some(Seq::empty()) }
        } else {
            Some(line)
        };
        let nb = if horizontal_rule(tr) { blank } else { tr.len() == 0 };
        let out = match emit {
            None => Seq::empty(),
            Some(l) => if first { l } else { seq!['\n'] + l },
        };
        let nfirst = first && emit is None;
        out + if e >= t.len() { Seq::empty() } else { kept_lines_from(t, e + 1, nb, nfirst) }
    }
}

/// `[label]` forms with their label trimmed, from position `i` on; an unclosed `[` keeps the rest.
pub open spec fn labels_from(t: Seq<char>, i: int) -> Seq<char>
    decreases t.len() - i,
{
    if i < 0 || i >= t.len() {
        Seq::empty()
    } else if t[i] != '[' {
        seq![t[i]] + labels_from(t, i + 1)
    } else {
        match char_from(t, i + 1, ']') {
            Some(e) => if i < e < t.len() {
                seq!['['] + trim(t.subrange(i + 1, e)) + seq![']'] + labels_from(t, e + 1)
            } else {
                Seq::empty()
            },
            None => t.subrange(i, t.len() as int),
        }
    }
}

/// Display text tidied: CR LF to LF, rule lines dropped, blank runs cut to one empty line,
/// bracketed labels trimmed.
pub open spec fn tidy_text(t: Seq<char>) -> Seq<char> {
    labels_from(kept_lines_from(unix_newlines(t), 0, false, true), 0)
}

fn kept_lines(t: &Vec<char>) -> (r: Vec<char>)
    ensures
        r@ == kept_lines_from(t@, 0, false, true),
{
    let mut out: Vec<char> = Vec::new();
    let mut start: usize = 0;
    let mut blank = false;
    let mut first = true;
    loop
        invariant_except_break
            start <= t@.len(),
            out@ + kept_lines_from(t@, start as int, blank, first) == kept_lines_from(t@, 0, false, true),
        ensures
            out@ == kept_lines_from(t@, 0, false, true),
        decreases t.len() + 1 - start,
    {
        let ghost out0 = out@;
        let ghost (b0, f0) = (blank, first);
        let e = find_line_end(t, start);
        proof {
            lemma_line_end_bounds(t@, start as int);
        }
        let line = slice_chars(t, start, e);
        let tr = trim_chars(&line);
        let rule = is_horizontal_rule(string_of(&tr).as_str());
        if rule {
        } else if tr.len() == 0 {
            if !blank {
                if !first {
                    out.push('\n');
                }
                first = false;
            }
            blank = true;
        } else {
            if !first {
                out.push('\n');
            }
            append_chars(&mut out, &line);
            first = false;
            blank = false;
        }
        proof {
            let emit: Option<Seq<char>> = if horizontal_rule(tr@) {
                None
            } else if tr@.len() == 0 {
                if b0 { None } else { Some(Seq::<char>::empty()) }
            } else {
                Some(line@)
            };
            let piece = match emit {
                None => Seq::<char>::empty(),
                Some(l) => if f0 { l } else { seq!['\n'] + l },
            };
            assert(out@ =~= out0 + piece);
        }
        if e >= t.len() {
            assert(out@ =~= out@ + Seq::<char>::empty());
            break;
        }
        start = e + 1;
    }
    out
}

fn trimmed_labels(t: &Vec<char>) -> (r: Vec<char>)
    ensures
        r@ == labels_from(t@, 0),
{
    let mut out: Vec<char> = Vec::new();
    let mut i: usize = 0;
    loop
        invariant_except_break
            i <= t@.len(),
            out@ + labels_from(t@, i as int) == labels_from(t@, 0),
        ensures
            out@ == labels_from(t@, 0),
        decreases t.len() - i,
    {
        let ghost out0 = out@;
        if i >= t.len() {
            assert(out@ + labels_from(t@, i as int) =~= out@);
            break;
        }
        if t[i] != '[' {
            out.push(t[i]);
            assert(out@ + labels_from(t@, i as int + 1) =~= out0 + labels_from(t@, i as int));
            i += 1;
        } else {
            proof {
                lemma_char_from(t@, i as int + 1, ']');
            }
            match find_char_from(t, i + 1, ']') {
                Some(e) => {
                    out.push('[');
                    append_chars(&mut out, &trim_chars(&slice_chars(t, i + 1, e)));
                    out.push(']');
                    assert(out@ + labels_from(t@, e as int + 1) =~= out0 + labels_from(t@, i as int));
                    i = e + 1;
                },
                None => {
                    append_chars(&mut out, &slice_chars(t, i, t.len()));
                    assert(out@ =~= out0 + labels_from(t@, i as int));
                    break;
                },
            }
        }
    }
    out
}

/// Trims the label inside every `[...]`.
pub fn normalize_bracketed_labels(text: &str) -> (r: String)
    ensures
        r@ == labels_from(text@, 0),
{
    string_of(&trimmed_labels(&chars_of(text)))
}

/// Tidies display text: unix line ends, no rule lines, single blank lines, trimmed labels.
pub fn normalize_display_text(text: &str) -> (r: String)
    ensures
        r@ == tidy_text(text@),
{
    let unix = to_unix_newlines(&chars_of(text));
    let kept = kept_lines(&unix);
    string_of(&trimmed_labels(&kept))
}

/// `s` without line breaks.
pub open spec fn no_breaks(s: Seq<char>) -> Seq<char> {
    s.filter(|c: char| c != '\n' && c != '\r')
}

/// A bracketed reference to a URL.
pub open spec fn url_like(s: Seq<char>) -> bool {
    starts_with(s, "http://"@) || starts_with(s, "https://"@) || starts_with(s, "mailto:"@)
}

/// Bracketed spans from `i` on with line breaks taken out; a span holding a URL is trimmed too.
/// An unclosed `[` keeps the rest without line breaks.
pub open spec fn urls_from(t: Seq<char>, i: int) -> Seq<char>
    decreases t.len() - i,
{
    if i < 0 || i >= t.len() {
        Seq::empty()
    } else if t[i] != '[' {
        seq![t[i]] + urls_from(t, i + 1)
    } else {
        match char_from(t, i + 1, ']') {
            Some(e) => if i < e < t.len() {
                let buf = no_breaks(t.subrange(i + 1, e));
                (if url_like(trim(buf)) {
                    seq!['['] + trim(buf) + seq![']']
                } else {
                    seq!['['] + buf + seq![']']
                }) + urls_from(t, e + 1)
            } else {
                Seq::empty()
            },
            None => seq!['['] + no_breaks(t.subrange(i + 1, t.len() as int)),
        }
    }
}

fn without_breaks(s: &[char]) -> (r: Vec<char>)
    ensures
        r@ == no_breaks(s@),
{
    let mut out: Vec<char> = Vec::new();
    let mut k: usize = 0;
    while k < s.len()
        invariant
            k <= s@.len(),
            out@ == no_breaks(s@.subrange(0, k as int)),
        decreases s.len() - k,
    {
        proof {
            reveal(Seq::filter);
            let s1 = s@.subrange(0, k as int + 1);
            assert(s1.drop_last() =~= s@.subrange(0, k as int));
        }
        if s[k] != '\n' && s[k] != '\r' {
            out.push(s[k]);
        }
        k += 1;
    }
    assert(s@.subrange(0, s@.len() as int) =~= s@);
    out
}

fn is_url_like(s: &Vec<char>) -> (r: bool)
    ensures
        r == url_like(s@),
{
    starts_with_chars(s, &chars_of("http://")) || starts_with_chars(s, &chars_of("https://"))
        || starts_with_chars(s, &chars_of("mailto:"))
}

/// Joins bracketed spans broken over lines and trims the ones that hold a URL.
pub fn normalize_bracketed_urls(text: &str) -> (r: String)
    ensures
        r@ == urls_from(text@, 0),
{
    let t = chars_of(text);
    let mut out: Vec<char> = Vec::new();
    let mut i: usize = 0;
    loop
        invariant_except_break
            t@ == text@,
            i <= t@.len(),
            out@ + urls_from(t@, i as int) == urls_from(t@, 0),
        ensures
            out@ == urls_from(t@, 0),
        decreases t.len() - i,
    {
        let ghost out0 = out@;
        if i >= t.len() {
            assert(out@ + urls_from(t@, i as int) =~= out@);
            break;
        }
        if t[i] != '[' {
            out.push(t[i]);
            assert(out@ + urls_from(t@, i as int + 1) =~= out0 + urls_from(t@, i as int));
            i += 1;
        } else {
            proof {
                lemma_char_from(t@, i as int + 1, ']');
            }
            match find_char_from(&t, i + 1, ']') {
                Some(e) => {
                    let buf = without_breaks(&slice_chars(&t, i + 1, e));
                    let tb = trim_chars(&buf);
                    out.push('[');
                    if is_url_like(&tb) {
                        append_chars(&mut out, &tb);
                    } else {
                        append_chars(&mut out, &buf);
                    }
                    out.push(']');
                    assert(out@ + urls_from(t@, e as int + 1) =~= out0 + urls_from(t@, i as int));
                    i = e + 1;
                },
                None => {
                    out.push('[');
                    append_chars(&mut out, &without_breaks(&slice_chars(&t, i + 1, t.len())));
                    assert(out@ =~= out0 + urls_from(t@, i as int));
                    break;
                },
            }
        }
    }
    string_of(&out)
}

/// `t` after the URL of every labelled link, the first `k` links considered, gave way to its
/// label: `label [url]` and `label\n[url]` become `[label]`, else a lone `[url]` does.
pub open spec fn labelled(t: Seq<char>, links: Seq<LinkInfo>, k: int) -> Seq<char>
    decreases k,
{
    if k <= 0 || k > links.len() {
        t
    } else {
        let prev = labelled(t, links, k - 1);
        match link_label(links, k - 1) {
            None => prev,
            Some(label) => {
                let lb = seq!['['] + label + seq![']'];
                let br = seq!['['] + links[k - 1].url@ + seq![']'];
                let tok1 = label + seq![' '] + br;
                let tok2 = label + seq!['\n'] + br;
                if contains(prev, tok1) {
                    replaced_from(prev, tok1, lb, 0)
                } else if contains(prev, tok2) {
                    replaced_from(prev, tok2, lb, 0)
                } else if contains(prev, br) {
                    replaced_from(prev, br, lb, 0)
                } else {
                    prev
                }
            },
        }
    }
}

fn bracketed(s: &[char]) -> (r: Vec<char>)
    ensures
        r@ == seq!['['] + s@ + seq![']'],
{
    let mut v: Vec<char> = Vec::new();
    v.push('[');
    append_chars(&mut v, s);
    v.push(']');
    assert(v@ =~= seq!['['] + s@ + seq![']']);
    v
}

/// Puts link labels in place of the bracketed URLs they stand for.
pub fn replace_link_urls_with_labels(text: &str, links: &[LinkInfo]) -> (r: String)
    ensures
        r@ == labelled(text@, links@, links@.len() as int),
{
    let mut out = chars_of(text);
    let mut idx: usize = 0;
    while idx < links.len()
        invariant
            idx <= links@.len(),
            out@ == labelled(text@, links@, idx as int),
        decreases links.len() - idx,
    {
        match link_label_for_text(links, idx) {
            None => {},
            Some(label) => {
                let lab = chars_of(label.as_str());
                let lb = bracketed(&lab);
                let br = bracketed(&chars_of(links[idx].url.as_str()));
                let mut tok1 = slice_chars(&lab, 0, lab.len());
                tok1.push(' ');
                append_chars(&mut tok1, &br);
                let mut tok2 = slice_chars(&lab, 0, lab.len());
                tok2.push('\n');
                append_chars(&mut tok2, &br);
                proof {
                    assert(lab@.subrange(0, lab@.len() as int) =~= lab@);
                    assert(tok1@ =~= lab@ + seq![' '] + br@);
                    assert(tok2@ =~= lab@ + seq!['\n'] + br@);
                }
                if contains_chars(&out, &tok1) {
                    out = replace_all(&out, &tok1, &lb);
                } else if contains_chars(&out, &tok2) {
                    out = replace_all(&out, &tok2, &lb);
                } else if contains_chars(&out, &br) {
                    out = replace_all(&out, &br, &lb);
                }
            },
        }
        idx += 1;
    }
    string_of(&out)
}

/// Text with HTML character references decoded, as `html_escape::decode_html_entities` does.
pub uninterp spec fn entities_decoded(s: Seq<char>) -> Seq<char>;

/// Relies on `html_escape::decode_html_entities`: decodes character references; the result
/// depends on the text alone.
#[verifier::external_body]
fn decode_entities(s: &str) -> (r: String)
    ensures
        r@ == entities_decoded(s@),
{
    html_escape::decode_html_entities(s).to_string()
}

/// The display text and links of a message from its reflowed body text and, when it has
/// one, its sanitised HTML part.
pub open spec fn display_of(text: Seq<char>, html: Option<Seq<char>>) -> (Seq<char>, Seq<(Seq<char>, Option<Seq<char>>, bool)>) {
    let tidy = tidy_text(entities_decoded(text));
    (tidy, message_links(tidy, html))
}

/// Builds the display text of a message: entities decoded, text tidied, links collected,
/// bracketed URLs joined and labelled links shown by their labels.
pub fn display_from_parts(text: &str, html_for_links: Option<&str>) -> (r: DisplayText)
    ensures
        links_view(r.links@) == display_of(text@, match html_for_links {
            Some(h) => Some(h@),
            None => None,
        }).1,
        r.text@ == labelled(
            urls_from(display_of(text@, match html_for_links {
                Some(h) => Some(h@),
                None => None,
            }).0, 0),
            r.links@,
            r.links@.len() as int,
        ),
{
    let decoded = decode_entities(text);
    let tidy = normalize_display_text(decoded.as_str());
    let links = extract_links(tidy.as_str(), html_for_links);
    let joined = normalize_bracketed_urls(tidy.as_str());
    let text = replace_link_urls_with_labels(joined.as_str(), &links);
    DisplayText { text, links }
}

/// Label rewriting reads links only through their plain values.
pub proof fn lemma_labelled_by_view(t: Seq<char>, a: Seq<LinkInfo>, b: Seq<LinkInfo>, k: int)
    requires
        links_view(a) == links_view(b),
    ensures
        labelled(t, a, k) == labelled(t, b, k),
    decreases k,
{
    assert(a.len() == links_view(a).len());
    assert(b.len() == links_view(b).len());
    if 0 < k <= a.len() {
        lemma_labelled_by_view(t, a, b, k - 1);
        assert(links_view(a)[k - 1] == links_view(b)[k - 1]);
        assert(link_label(a, k - 1) == link_label(b, k - 1));
        assert(a[k - 1].url@ == b[k - 1].url@);
    }
}

/// Building the display text twice from the same body and HTML gives the same text and the
/// same links in the same order.
pub proof fn lemma_display_deterministic(
    text: Seq<char>,
    html: Option<Seq<char>>,
    t1: Seq<char>,
    l1: Seq<LinkInfo>,
    t2: Seq<char>,
    l2: Seq<LinkInfo>,
)
    requires
        links_view(l1) == display_of(text, html).1,
        t1 == labelled(urls_from(display_of(text, html).0, 0), l1, l1.len() as int),
        links_view(l2) == display_of(text, html).1,
        t2 == labelled(urls_from(display_of(text, html).0, 0), l2, l2.len() as int),
    ensures
        t1 == t2,
        links_view(l1) == links_view(l2),
{
    assert(l1.len() == links_view(l1).len());
    assert(l2.len() == links_view(l2).len());
    lemma_labelled_by_view(urls_from(display_of(text, html).0, 0), l1, l2, l1.len() as int);
}

} // verus!
