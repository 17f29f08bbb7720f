use vstd::prelude::*;

use crate::content::{char_from, lemma_char_from, normalize_link_text, skip_ascii_ws, untagged, words_joined};
use crate::text::{
    chars_of, find_from, first_occurrence, is_ws, lower, lower_chars, occurs_at, push_decimal, slice_chars, string_of,
    trim, trim_chars, dec,
};
use crate::types::LinkInfo;

verus! {

/// The first position at or after `from` where `n` occurs in `h`.
pub open spec fn first_from(h: Seq<char>, n: Seq<char>, from: int) -> Option<int> {
    if exists|p: int| first_occurrence(h, n, from, p) {
        Some(choose|p: int| first_occurrence(h, n, from, p))
    } else {
        None
    }
}

pub proof fn lemma_first_from(h: Seq<char>, n: Seq<char>, from: int, p: int)
    requires
        first_occurrence(h, n, from, p),
    ensures
        first_from(h, n, from) == Some(p),
{
    let q = choose|q: int| first_occurrence(h, n, from, q);
    if q < p {
        assert(!occurs_at(h, n, q));
    } else if p < q {
        assert(!occurs_at(h, n, p));
    }
}

pub proof fn lemma_first_from_none(h: Seq<char>, n: Seq<char>, from: int)
    requires
        forall|j: int| from <= j ==> !occurs_at(h, n, j),
    ensures
        first_from(h, n, from) is None,
{
}

/// Locates `n` in `h` from `from` on, with the spec function as contract.
pub fn find_first(h: &[char], n: &[char], from: usize) -> (r: Option<usize>)
    ensures
        r matches Some(p) ==> first_from(h@, n@, from as int) == Some(p as int) && p + n@.len() <= h@.len(),
        r is None ==> first_from(h@, n@, from as int) is None,
{
    let r = find_from(h, n, from);
    proof {
        match r {
            Some(p) => lemma_first_from(h@, n@, from as int, p as int),
            None => lemma_first_from_none(h@, n@, from as int),
        }
    }
    r
}

/// The value of attribute `name` in a fragment of HTML: the first `name=` (ASCII case
/// ignored), optional ASCII whitespace, a quote, and everything up to the matching quote or
/// the end, trimmed; nothing when unquoted, empty or absent.
pub open spec fn attr_value(input: Seq<char>, name: Seq<char>) -> Option<Seq<char>> {
    match first_from(lower(input), name + "="@, 0) {
        None => None,
        Some(pos) => {
            let i = skip_ascii_ws(input, pos + name.len() + 1);
            if i >= input.len() || (input[i] != '\'' && input[i] != '"') {
                None
            } else {
                let start = i + 1;
                let end = match char_from(input, start, input[i]) {
                    Some(e) => e,
                    None => input.len() as int,
                };
                if end <= start || trim(input.subrange(start, end)).len() == 0 {
                    None
                } else {
                    Some(trim(input.subrange(start, end)))
                }
            }
        },
    }
}

fn skip_ws(t: &[char], from: usize) -> (r: usize)
    requires
        from <= t@.len(),
    ensures
        r as int == skip_ascii_ws(t@, from as int),
        from <= r <= t@.len(),
{
    let mut k: usize = from;
    while k < t.len() && (t[k] == ' ' || t[k] == '\t' || t[k] == '\n' || t[k] == '\u{0C}' || t[k] == '\r')
        invariant
            from <= k <= t@.len(),
            skip_ascii_ws(t@, from as int) == skip_ascii_ws(t@, k as int),
        decreases t.len() - k,
    {
        k += 1;
    }
    k
}

fn attr_value_chars(t: &[char], name: &[char]) -> (r: Option<Vec<char>>)
    ensures
        r matches Some(v) ==> attr_value(t@, name@) == Some(v@),
        r is None ==> attr_value(t@, name@) is None,
{
    let low = lower_chars(t);
    let mut needle = slice_chars(name, 0, name.len());
    needle.push('=');
    proof {
        reveal_strlit("=");
        assert(needle@ =~= name@ + "="@);
        assert(name@.subrange(0, name@.len() as int) =~= name@);
    }
    let found = find_first(&low, &needle, 0);
    if found.is_none() {
        return None;
    }
    let pos = found.unwrap();
    assert(low@.len() == t@.len());
    assert(needle@.len() == name@.len() + 1);
    assert(pos + needle@.len() <= low@.len());
    let lim = low.len();
    assert(pos + needle@.len() <= lim);
    let i = skip_ws(t, pos + needle.len());
    if i >= t.len() || (t[i] != '\'' && t[i] != '"') {
        return None;
    }
    let q = t[i];
    let start = i + 1;
    let end = match crate::content::find_char_from(t, start, q) {
        Some(e) => e,
        None => t.len(),
    };
    proof {
        lemma_char_from(t@, start as int, q);
    }
    if end <= start {
        return None;
    }
    let v = trim_chars(&slice_chars(t, start, end));
    if v.len() == 0 {
        None
    } else {
        Some(v)
    }
}

/// The trimmed, quoted value of an HTML attribute.
pub fn extract_attr_value(input: &str, name: &str) -> (r: Option<String>)
    ensures
        r matches Some(v) ==> attr_value(input@, name@) == Some(v@),
        r is None ==> attr_value(input@, name@) is None,
{
    match attr_value_chars(&chars_of(input), &chars_of(name)) {
        Some(v) => Some(string_of(&v)),
        None => None,
    }
}

/// The visible text of a link.
pub open spec fn link_text(inner: Seq<char>) -> Seq<char> {
    words_joined(untagged(inner, false), false, false)
}

/// The text shown for a link: its inner text, else the tag's `aria-label` or `title`, else an
/// inner `alt` or `title`, else nothing.
pub open spec fn best_text(tag: Seq<char>, inner: Seq<char>) -> Seq<char> {
    if link_text(inner).len() > 0 {
        link_text(inner)
    } else if attr_value(tag, "aria-label"@) is Some {
        attr_value(tag, "aria-label"@)->0
    } else if attr_value(tag, "title"@) is Some {
        attr_value(tag, "title"@)->0
    } else if attr_value(inner, "alt"@) is Some {
        attr_value(inner, "alt"@)->0
    } else if attr_value(inner, "title"@) is Some {
        attr_value(inner, "title"@)->0
    } else {
        Seq::empty()
    }
}

pub fn best_link_text(tag: &str, inner: &str) -> (r: String)
    ensures
        r@ == best_text(tag@, inner@),
{
    if let Some(text) = normalize_link_text(inner) {
        return text;
    }
    if let Some(text) = extract_attr_value(tag, "aria-label") {
        return text;
    }
    if let Some(text) = extract_attr_value(tag, "title") {
        return text;
    }
    if let Some(text) = extract_attr_value(inner, "alt") {
        return text;
    }
    if let Some(text) = extract_attr_value(inner, "title") {
        return text;
    }
    String::new()
}

/// The label that stands for link `idx` in display text: its text, or `Image Link n`
/// (counting from one) for an HTML link without text.
pub open spec fn link_label(links: Seq<LinkInfo>, idx: int) -> Option<Seq<char>> {
    if idx < 0 || idx >= links.len() {
        None
    } else if links[idx].text is Some {
        Some(links[idx].text->0@)
    } else if links[idx].from_html {
        Some("Image Link "@ + dec((idx + 1) as nat))
    } else {
        None
    }
}

pub fn link_label_for_text(links: &[LinkInfo], idx: usize) -> (r: Option<String>)
    ensures
        r matches Some(s) ==> link_label(links@, idx as int) == Some(s@),
        r is None ==> link_label(links@, idx as int) is None,
{
    if idx >= links.len() {
        return None;
    }
    let link = &links[idx];
    match &link.text {
        Some(t) => Some(t.clone()),
        None => {
            if link.from_html {
                let mut out = chars_of("Image Link ");
                push_decimal(&mut out, idx as u64 + 1);
                Some(string_of(&out))
            } else {
                None
            }
        },
    }
}

/// The URLs that `linkify` finds in a text, in order.
pub uninterp spec fn urls_in(text: Seq<char>) -> Seq<Seq<char>>;

/// Relies on `linkify::LinkFinder` restricted to URLs: the links of a text in order of
/// appearance; the result depends on the text alone.
#[verifier::external_body]
fn find_urls(text: &str) -> (r: Vec<String>)
    ensures
        r.deep_view() == urls_in(text@),
{
    let mut finder = linkify::LinkFinder::new();
    finder.kinds(&[linkify::LinkKind::Url]);
    finder.links(text).map(|l| l.as_str().to_string()).collect()
}

fn find_url(links: &Vec<LinkInfo>, url: &Vec<char>) -> (r: Option<usize>)
    ensures
        r matches Some(k) ==> k < links@.len() && links@[k as int].url@ == url@ && forall|j: int| 0 <= j < k ==> links@[j].url@ != url@,
        r is None ==> forall|j: int| 0 <= j < links@.len() ==> (#[trigger] links@[j]).url@ != url@,
{
    let mut k: usize = 0;
    while k < links.len()
        invariant
            k <= links@.len(),
            forall|j: int| 0 <= j < k ==> (#[trigger] links@[j]).url@ != url@,
        decreases links.len() - k,
    {
        let u = chars_of(links[k].url.as_str());
        if u.len() == url.len() && crate::text::matches_at(&u, url, 0) {
            assert(u@.subrange(0, url@.len() as int) =~= u@);
            return Some(k);
        }
        proof {
            if u@ == url@ {
                assert(u@.subrange(0, url@.len() as int) =~= u@);
            }
        }
        k += 1;
    }
    None
}

/// First position at or after `from` holding whitespace or `>`.
pub open spec fn bare_url_end(t: Seq<char>, from: int) -> Option<int>
    decreases t.len() - from,
{
    if from < 0 || from >= t.len() {
        None
    } else if is_ws(t[from]) || t[from] == '>' {
        Some(from)
    } else {
        bare_url_end(t, from + 1)
    }
}

pub proof fn lemma_bare_url_end(t: Seq<char>, from: int)
    requires
        0 <= from,
    ensures
        bare_url_end(t, from) matches Some(e) ==> from <= e < t.len(),
    decreases t.len() - from,
{
    if from < t.len() && !(is_ws(t[from]) || t[from] == '>') {
        lemma_bare_url_end(t, from + 1);
    }
}

fn find_bare_url_end(t: &[char], from: usize) -> (r: Option<usize>)
    ensures
        r matches Some(e) ==> bare_url_end(t@, from as int) == Some(e as int),
        r is None ==> bare_url_end(t@, from as int) is None,
{
    let mut k: usize = from;
    while k < t.len()
        invariant
            from <= k,
            bare_url_end(t@, from as int) == bare_url_end(t@, k as int),
        decreases t.len() - k,
    {
        if crate::text::is_whitespace(t[k]) || t[k] == '>' {
            return Some(k);
        }
        k += 1;
    }
    None
}

/// The anchors of an HTML text from position `idx` on, as (URL, text) pairs: each `<a` tag
/// (ASCII case ignored) with an `href=` gives its trimmed URL, quoted or bare, and the best
/// text of its content up to the next `</a`; a tag without closing gets empty text.
pub open spec fn anchors_from(h: Seq<char>, idx: int) -> Seq<(Seq<char>, Seq<char>)>
    decreases h.len() + 1 - idx,
{
    if idx < 0 || idx > h.len() {
        Seq::empty()
    } else {
        let low = lower(h);
        match first_from(low, "<a"@, idx) {
            None => Seq::empty(),
            Some(start) => match char_from(low, start, '>') {
                None => Seq::empty(),
                Some(tag_end) => if !(idx <= start <= tag_end < h.len()) {
                    Seq::empty()
                } else {
                    match first_from(low.subrange(start, tag_end + 1), "href="@, 0) {
                        None => anchors_from(h, tag_end + 1),
                        Some(p) => {
                            let j = skip_ascii_ws(h, start + p + 5);
                            let quoted = j < h.len() && (h[j] == '\'' || h[j] == '"');
                            let us = if quoted { j + 1 } else { j };
                            let ue = if quoted { char_from(h, us, h[j]) } else { bare_url_end(h, us) };
                            match ue {
                                None => anchors_from(h, tag_end + 1),
                                Some(e) => if e < us {
                                    Seq::empty()
                                } else {
                                    let url = trim(h.subrange(us, e));
                                    match first_from(low, "</a"@, tag_end + 1) {
                                        None => seq![(url, Seq::<char>::empty())] + anchors_from(h, tag_end + 1),
                                        Some(close) => if close < tag_end + 1 || close + 3 > h.len() {
                                            Seq::empty()
                                        } else {
                                            seq![(url, best_text(h.subrange(start, tag_end + 1), h.subrange(tag_end + 1, close)))]
                                                + anchors_from(h, close + 4)
                                        },
                                    }
                                },
                            }
                        },
                    }
                },
            },
        }
    }
}

pub open spec fn pairs_view(v: Seq<(String, String)>) -> Seq<(Seq<char>, Seq<char>)> {
    v.map_values(|p: (String, String)| (p.0@, p.1@))
}

pub open spec fn item_seq(item: Option<(String, String)>) -> Seq<(Seq<char>, Seq<char>)> {
    match item {
        Some(p) => seq![(p.0@, p.1@)],
        None => Seq::empty(),
    }
}

/// One step of the anchor scan from `idx`: the anchor found there, if any, and where the scan
/// goes on; nothing when no anchor is left.
#[verifier::rlimit(40)]
fn next_anchor(h: &Vec<char>, low: &Vec<char>, idx: usize) -> (r: Option<(Option<(String, String)>, usize)>)
    requires
        low@ == lower(h@),
        idx <= h@.len(),
    ensures
        r is None ==> anchors_from(h@, idx as int) == Seq::<(Seq<char>, Seq<char>)>::empty(),
        r matches Some(x) ==> idx < x.1 <= h@.len() && anchors_from(h@, idx as int) == item_seq(x.0) + anchors_from(h@, x.1 as int),
{
    let open = chars_of("<a");
    let href = chars_of("href=");
    let close_tag = chars_of("</a");
    proof {
        reveal_strlit("href=");
        reveal_strlit("</a");
    }
    let start = match find_first(low, &open, idx) {
        None => {
            return None;
        },
        Some(s) => s,
    };
    let tag_end = match crate::content::find_char_from(low, start, '>') {
        None => {
            return None;
        },
        Some(e) => e,
    };
    proof {
        lemma_char_from(low@, start as int, '>');
    }
    let n = low.len();
    assert(tag_end < n);
    let tag = slice_chars(low, start, tag_end + 1);
    let p = match find_first(&tag, &href, 0) {
        None => {
            return Some((None, tag_end + 1));
        },
        Some(p) => p,
    };
    let j = skip_ws(h, start + p + 5);
    let quoted = j < h.len() && (h[j] == '\'' || h[j] == '"');
    let us = if quoted { j + 1 } else { j };
    let ue = if quoted { crate::content::find_char_from(h, us, h[j]) } else { find_bare_url_end(h, us) };
    proof {
        if quoted {
            lemma_char_from(h@, us as int, h@[j as int]);
        } else {
            lemma_bare_url_end(h@, us as int);
        }
    }
    let e = match ue {
        None => {
            return Some((None, tag_end + 1));
        },
        Some(e) => e,
    };
    let url = string_of(&trim_chars(&slice_chars(h, us, e)));
    match find_first(low, &close_tag, tag_end + 1) {
        None => Some((Some((url, String::new())), tag_end + 1)),
        Some(close) => {
            let tag_text = string_of(&slice_chars(h, start, tag_end + 1));
            let inner = string_of(&slice_chars(h, tag_end + 1, close));
            let text = best_link_text(tag_text.as_str(), inner.as_str());
            if close + 3 >= h.len() {
                proof {
                    assert(anchors_from(h@, close as int + 4) == Seq::<(Seq<char>, Seq<char>)>::empty());
                }
                return Some((Some((url, text)), h.len()));
            }
            Some((Some((url, text)), close + 4))
        },
    }
}

/// The (URL, text) pairs of the anchors of an HTML text.
pub fn extract_href_links_with_text(html: &str) -> (r: Vec<(String, String)>)
    ensures
        pairs_view(r@) == anchors_from(html@, 0),
{
    let h = chars_of(html);
    let low = lower_chars(&h);
    let mut out: Vec<(String, String)> = Vec::new();
    let mut idx: usize = 0;
    loop
        invariant
            h@ == html@,
            low@ == lower(h@),
            idx <= h@.len(),
            pairs_view(out@) + anchors_from(h@, idx as int) == anchors_from(h@, 0),
        ensures
            pairs_view(out@) == anchors_from(h@, 0),
        decreases h.len() + 1 - idx,
    {
        let ghost out0 = pairs_view(out@);
        match next_anchor(&h, &low, idx) {
            None => {
                assert(pairs_view(out@) + Seq::<(Seq<char>, Seq<char>)>::empty() =~= pairs_view(out@));
                break;
            },
            Some((item, next)) => {
                let ghost it = item;
                match item {
                    Some(pair) => {
                        out.push(pair);
                    },
                    None => {},
                }
                assert(pairs_view(out@) =~= out0 + item_seq(it));
                idx = next;
                if idx == h.len() {
                    proof {
                        assert(anchors_from(h@, idx as int) == Seq::<(Seq<char>, Seq<char>)>::empty());
                        assert(pairs_view(out@) + Seq::<(Seq<char>, Seq<char>)>::empty() =~= pairs_view(out@));
                    }
                    break;
                }
            },
        }
    }
    out
}

/// A link as plain values: URL, optional text, whether it came from an HTML anchor.
pub open spec fn link_view(l: LinkInfo) -> (Seq<char>, Option<Seq<char>>, bool) {
    (l.url@, match l.text {
        Some(t) => Some(t@),
        None => None,
    }, l.from_html)
}

pub open spec fn links_view(v: Seq<LinkInfo>) -> Seq<(Seq<char>, Option<Seq<char>>, bool)> {
    v.map_values(|l: LinkInfo| link_view(l))
}

/// The text of a link, or nothing when it is empty.
pub open spec fn link_text_opt(t: Seq<char>) -> Option<Seq<char>> {
    if link_text(t).len() > 0 {
        Some(link_text(t))
    } else {
        None
    }
}

/// Position of the first link whose URL is `url`.
pub open spec fn first_url(links: Seq<(Seq<char>, Option<Seq<char>>, bool)>, url: Seq<char>) -> Option<int> {
    if exists|k: int| 0 <= k < links.len() && (#[trigger] links[k]).0 == url {
        Some(choose|k: int| 0 <= k < links.len() && (#[trigger] links[k]).0 == url && forall|j: int| 0 <= j < k ==> links[j].0 != url)
    } else {
        None
    }
}

/// Anchors merged by URL: a repeated URL adds nothing, except text to a link without one.
pub open spec fn merged_anchors(anchors: Seq<(Seq<char>, Seq<char>)>) -> Seq<(Seq<char>, Option<Seq<char>>, bool)>
    decreases anchors.len(),
{
    if anchors.len() == 0 {
        Seq::empty()
    } else {
        let prev = merged_anchors(anchors.drop_last());
        let a = anchors.last();
        let nt = link_text_opt(a.1);
        match first_url(prev, a.0) {
            Some(k) => if prev[k].1 is None && nt is Some {
                prev.update(k, (a.0, nt, true))
            } else {
                prev
            },
            None => prev.push((a.0, nt, true)),
        }
    }
}

/// `acc` with every URL of `urls` that it lacks appended, without text.
pub open spec fn with_text_urls(acc: Seq<(Seq<char>, Option<Seq<char>>, bool)>, urls: Seq<Seq<char>>) -> Seq<(Seq<char>, Option<Seq<char>>, bool)>
    decreases urls.len(),
{
    if urls.len() == 0 {
        acc
    } else {
        let prev = with_text_urls(acc, urls.drop_last());
        if first_url(prev, urls.last()) is Some {
            prev
        } else {
            prev.push((urls.last(), None, false))
        }
    }
}

/// The links of a message: its HTML anchors first, then the URLs found in its display text.
pub open spec fn message_links(text: Seq<char>, html: Option<Seq<char>>) -> Seq<(Seq<char>, Option<Seq<char>>, bool)> {
    let from_html = match html {
        Some(h) => merged_anchors(anchors_from(h, 0)),
        None => Seq::empty(),
    };
    with_text_urls(from_html, urls_in(text))
}

fn locate_url(links: &Vec<LinkInfo>, url: &Vec<char>) -> (r: Option<usize>)
    ensures
        r matches Some(k) ==> k < links@.len(),
        r matches Some(k) ==> first_url(links_view(links@), url@) == Some(k as int),
        r is None ==> first_url(links_view(links@), url@) is None,
{
    let found = find_url(links, url);
    proof {
        let v = links_view(links@);
        match found {
            Some(k) => {
                assert(v[k as int].0 == url@);
                let c = choose|c: int| 0 <= c < v.len() && (#[trigger] v[c]).0 == url@ && forall|j: int| 0 <= j < c ==> v[j].0 != url@;
                if c < k {
                    assert(links@[c].url@ != url@);
                } else if k < c {
                    assert(v[k as int].0 != url@);
                }
            },
            None => {
                assert forall|k: int| 0 <= k < v.len() implies (#[trigger] v[k]).0 != url@ by {
                    assert(links@[k].url@ != url@);
                }
            },
        }
    }
    found
}

fn merge_anchor(out: &mut Vec<LinkInfo>, url: &String, text: &String)
    ensures
        links_view(final(out)@) == ({
            let prev = links_view(old(out)@);
            let nt = link_text_opt(text@);
            match first_url(prev, url@) {
                Some(k) => if prev[k].1 is None && nt is Some {
                    prev.update(k, (url@, nt, true))
                } else {
                    prev
                },
                None => prev.push((url@, nt, true)),
            }
        }),
{
    let normalized = normalize_link_text(text.as_str());
    let ghost nv: Option<Seq<char>> = match &normalized {
        Some(t) => Some(t@),
        None => None,
    };
    assert(nv == link_text_opt(text@));
    let u = chars_of(url.as_str());
    match locate_url(out, &u) {
        Some(k) => {
            if out[k].text.is_none() && normalized.is_some() {
                let ghost before = out@;
                out.set(k, LinkInfo { url: url.clone(), text: normalized, from_html: true });
                assert(links_view(out@) =~= links_view(before).update(k as int, (url@, link_text_opt(text@), true)));
            }
        },
        None => {
            let ghost before = out@;
            out.push(LinkInfo { url: url.clone(), text: normalized, from_html: true });
            assert(links_view(out@) =~= links_view(before).push((url@, link_text_opt(text@), true)));
        },
    }
}

fn add_text_url(out: &mut Vec<LinkInfo>, url: &String)
    ensures
        links_view(final(out)@) == if first_url(links_view(old(out)@), url@) is Some {
            links_view(old(out)@)
        } else {
            links_view(old(out)@).push((url@, None, false))
        },
{
    let u = chars_of(url.as_str());
    if locate_url(out, &u).is_none() {
        let ghost before = out@;
        out.push(LinkInfo { url: url.clone(), text: None, from_html: false });
        assert(links_view(out@) =~= links_view(before).push((url@, None, false)));
    }
}

/// The links of a message from its display text and, when there is one, its HTML part.
pub fn extract_links(text: &str, html: Option<&str>) -> (r: Vec<LinkInfo>)
    ensures
        links_view(r@) == message_links(text@, match html {
            Some(h) => Some(h@),
            None => None,
        }),
{
    let mut out: Vec<LinkInfo> = Vec::new();
    let ghost hv: Option<Seq<char>> = match html {
        Some(h) => Some(h@),
        None => None,
    };
    match html {
        Some(h) => {
            let pairs = extract_href_links_with_text(h);
            let mut i: usize = 0;
            while i < pairs.len()
                invariant
                    i <= pairs@.len(),
                    pairs_view(pairs@) == anchors_from(h@, 0),
                    links_view(out@) == merged_anchors(pairs_view(pairs@).subrange(0, i as int)),
                decreases pairs.len() - i,
            {
                proof {
                    let s1 = pairs_view(pairs@).subrange(0, i as int + 1);
                    assert(s1.drop_last() =~= pairs_view(pairs@).subrange(0, i as int));
                    assert(s1.last() == (pairs@[i as int].0@, pairs@[i as int].1@));
                }
                merge_anchor(&mut out, &pairs[i].0, &pairs[i].1);
                i += 1;
            }
            assert(pairs_view(pairs@).subrange(0, pairs@.len() as int) =~= pairs_view(pairs@));
        },
        None => {
            assert(links_view(out@) =~= Seq::<(Seq<char>, Option<Seq<char>>, bool)>::empty());
        },
    }
    let ghost base = links_view(out@);
    let urls = find_urls(text);
    let mut j: usize = 0;
    while j < urls.len()
        invariant
            j <= urls@.len(),
            urls.deep_view() == urls_in(text@),
            links_view(out@) == with_text_urls(base, urls_in(text@).subrange(0, j as int)),
        decreases urls.len() - j,
    {
        proof {
            let s1 = urls_in(text@).subrange(0, j as int + 1);
            assert(s1.drop_last() =~= urls_in(text@).subrange(0, j as int));
            assert(s1.last() == urls@[j as int]@);
        }
        add_text_url(&mut out, &urls[j]);
        j += 1;
    }
    assert(urls_in(text@).subrange(0, urls@.len() as int) =~= urls_in(text@));
    out
}


} // verus!
