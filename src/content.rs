use base64::Engine;
use vstd::prelude::*;

use crate::types::PreparedHtml;
use crate::text::{
    append_chars, chars_of, contains, is_ws, is_ascii_ws, matches_at, occurs_at, starts_with, starts_with_chars,
    string_of, trim_start,
};

verus! {

/// The attribute name and opening quote of remote opening `k`.
pub open spec fn attr_head(k: int) -> Seq<char> {
    if k == 0 || k == 1 {
        "src=\""@
    } else if k == 2 || k == 3 {
        "src='"@
    } else if k == 4 || k == 5 {
        "background=\""@
    } else {
        "background='"@
    }
}

/// The attribute name and opening quote of the remote attribute that opens at `i`, trying
/// the openings in order from `k`.
pub open spec fn remote_head(t: Seq<char>, i: int, k: int) -> Seq<char>
    decreases 8 - k,
{
    if k < 0 || k >= 8 {
        Seq::empty()
    } else if occurs_at(t, remote_prefix(k).0, i) {
        attr_head(k)
    } else {
        remote_head(t, i, k + 1)
    }
}

fn head_chars(k: usize) -> (r: Vec<char>)
    requires
        k < 8,
    ensures
        r@ == attr_head(k as int),
{
    if k < 2 {
        chars_of("src=\"")
    } else if k < 4 {
        chars_of("src='")
    } else if k < 6 {
        chars_of("background=\"")
    } else {
        chars_of("background='")
    }
}

/// What a blocked remote CSS reference becomes.
pub open spec fn blocked_css() -> Seq<char> {
    "url(\"ratmail-blocked://remote\")"@
}

/// The marker left where a remote asset was.
pub open spec fn sentinel() -> Seq<char> {
    "ratmail-blocked://remote"@
}

/// The attribute openings that load a remote asset, with the quote that closes each.
pub open spec fn remote_prefix(k: int) -> (Seq<char>, char) {
    if k == 0 {
        ("src=\"http://"@, '"')
    } else if k == 1 {
        ("src=\"https://"@, '"')
    } else if k == 2 {
        ("src='http://"@, '\'')
    } else if k == 3 {
        ("src='https://"@, '\'')
    } else if k == 4 {
        ("background=\"http://"@, '"')
    } else if k == 5 {
        ("background=\"https://"@, '"')
    } else if k == 6 {
        ("background='http://"@, '\'')
    } else {
        ("background='https://"@, '\'')
    }
}

/// First position at or after `from` holding `q`.
pub open spec fn char_from(t: Seq<char>, from: int, q: char) -> Option<int>
    decreases t.len() - from,
{
    if from < 0 || from >= t.len() {
        None
    } else if t[from] == q {
        Some(from)
    } else {
        char_from(t, from + 1, q)
    }
}

pub proof fn lemma_char_from(t: Seq<char>, from: int, q: char)
    requires
        0 <= from,
    ensures
        char_from(t, from, q) matches Some(e) ==> from <= e < t.len() && t[e] == q,
    decreases t.len() - from,
{
    if from < t.len() && t[from] != q {
        lemma_char_from(t, from + 1, q);
    }
}

/// The closing quote of a remote attribute that opens at `i`, trying the openings in order.
pub open spec fn remote_attr_end(t: Seq<char>, i: int, k: int) -> Option<int>
    decreases 8 - k,
{
    if k < 0 || k >= 8 {
        None
    } else if occurs_at(t, remote_prefix(k).0, i) {
        char_from(t, i + remote_prefix(k).0.len(), remote_prefix(k).1)
    } else {
        remote_attr_end(t, i, k + 1)
    }
}

pub proof fn lemma_remote_attr_end(t: Seq<char>, i: int, k: int)
    requires
        0 <= i,
    ensures
        remote_attr_end(t, i, k) matches Some(e) ==> i < e < t.len(),
    decreases 8 - k,
{
    if 0 <= k < 8 {
        if occurs_at(t, remote_prefix(k).0, i) {
            reveal_strlit("src=\"http://");
            reveal_strlit("src=\"https://");
            reveal_strlit("src='http://");
            reveal_strlit("src='https://");
            reveal_strlit("background=\"http://");
            reveal_strlit("background=\"https://");
            reveal_strlit("background='http://");
            reveal_strlit("background='https://");
            assert(remote_prefix(k).0.len() > 0);
            lemma_char_from(t, i + remote_prefix(k).0.len(), remote_prefix(k).1);
        } else {
            lemma_remote_attr_end(t, i, k + 1);
        }
    }
}

/// The text from `i` on with the URL of every remote `src`/`background` attribute replaced by
/// the blocked-remote marker (name and quotes kept), and how many were replaced.
pub open spec fn blocked_attrs_from(t: Seq<char>, i: int) -> (Seq<char>, nat)
    decreases t.len() - i,
{
    if i < 0 || i >= t.len() {
        (Seq::empty(), 0)
    } else {
        match remote_attr_end(t, i, 0) {
            Some(e) => if i < e < t.len() {
                let rest = blocked_attrs_from(t, e);
                (remote_head(t, i, 0) + sentinel() + rest.0, rest.1 + 1)
            } else {
                (Seq::empty(), 0)
            },
            None => {
                let rest = blocked_attrs_from(t, i + 1);
                (seq![t[i]] + rest.0, rest.1)
            },
        }
    }
}

/// Position of the closing `q` at or after `from`.
pub fn find_char_from(t: &[char], from: usize, q: char) -> (r: Option<usize>)
    ensures
        r matches Some(e) ==> char_from(t@, from as int, q) == Some(e as int),
        r is None ==> char_from(t@, from as int, q) is None,
{
    let mut k: usize = from;
    while k < t.len()
        invariant
            from <= k,
            char_from(t@, from as int, q) == char_from(t@, k as int, q),
        decreases t.len() - k,
    {
        if t[k] == q {
            return Some(k);
        }
        k += 1;
    }
    None
}

fn prefix_chars(k: usize) -> (r: (Vec<char>, char))
    requires
        k < 8,
    ensures
        r.0@ == remote_prefix(k as int).0,
        r.1 == remote_prefix(k as int).1,
{
    if k == 0 {
        (chars_of("src=\"http://"), '"')
    } else if k == 1 {
        (chars_of("src=\"https://"), '"')
    } else if k == 2 {
        (chars_of("src='http://"), '\'')
    } else if k == 3 {
        (chars_of("src='https://"), '\'')
    } else if k == 4 {
        (chars_of("background=\"http://"), '"')
    } else if k == 5 {
        (chars_of("background=\"https://"), '"')
    } else if k == 6 {
        (chars_of("background='http://"), '\'')
    } else {
        (chars_of("background='https://"), '\'')
    }
}

fn find_remote_attr_end(t: &[char], i: usize) -> (r: Option<(usize, Vec<char>)>)
    ensures
        r matches Some((e, h)) ==> remote_attr_end(t@, i as int, 0) == Some(e as int) && h@ == remote_head(t@, i as int, 0),
        r is None ==> remote_attr_end(t@, i as int, 0) is None,
{
    let mut k: usize = 0;
    while k < 8
        invariant
            k <= 8,
            remote_attr_end(t@, i as int, 0) == remote_attr_end(t@, i as int, k as int),
            remote_head(t@, i as int, 0) == remote_head(t@, i as int, k as int),
        decreases 8 - k,
    {
        let (p, q) = prefix_chars(k);
        if matches_at(t, &p, i) {
            if i > t.len() || p.len() > t.len() - i {
                return None;
            }
            return match find_char_from(t, i + p.len(), q) {
                Some(e) => Some((e, head_chars(k))),
                None => None,
            };
        }
        k += 1;
    }
    None
}

/// Rewrites every `src`/`background` attribute that loads over http or https to the
/// blocked-remote marker and counts the rewrites.
pub fn block_remote_attrs(t: &[char]) -> (r: (Vec<char>, usize))
    ensures
        r.0@ == blocked_attrs_from(t@, 0).0,
        r.1 as nat == blocked_attrs_from(t@, 0).1,
{
    let sent = chars_of("ratmail-blocked://remote");
    let mut out: Vec<char> = Vec::new();
    let mut count: usize = 0;
    let mut i: usize = 0;
    while i < t.len()
        invariant
            sent@ == sentinel(),
            i <= t@.len(),
            out@ + blocked_attrs_from(t@, i as int).0 == blocked_attrs_from(t@, 0).0,
            count + blocked_attrs_from(t@, i as int).1 == blocked_attrs_from(t@, 0).1,
            count <= i,
        decreases t.len() - i,
    {
        proof {
            lemma_remote_attr_end(t@, i as int, 0);
        }
        match find_remote_attr_end(t, i) {
            Some((e, head)) => {
                let ghost out0 = out@;
                append_chars(&mut out, &head);
                append_chars(&mut out, &sent);
                count += 1;
                proof {
                    assert(out@ + blocked_attrs_from(t@, e as int).0 =~= out0 + (remote_head(t@, i as int, 0) + sentinel()
                        + blocked_attrs_from(t@, e as int).0));
                }
                i = e;
            },
            None => {
                out.push(t[i]);
                proof {
                    assert(out@ + blocked_attrs_from(t@, i as int + 1).0 =~= out@.drop_last() + (seq![t@[i as int]]
                        + blocked_attrs_from(t@, i as int + 1).0));
                }
                i += 1;
            },
        }
    }
    (out, count)
}


/// First position at or after `from` that is not ASCII whitespace.
pub open spec fn skip_ascii_ws(t: Seq<char>, from: int) -> int
    decreases t.len() - from,
{
    if from < 0 || from >= t.len() || !is_ascii_ws(t[from]) {
        from
    } else {
        skip_ascii_ws(t, from + 1)
    }
}

pub proof fn lemma_skip_ascii_ws(t: Seq<char>, from: int)
    requires
        0 <= from,
    ensures
        from <= skip_ascii_ws(t, from),
        from <= t.len() ==> skip_ascii_ws(t, from) <= t.len(),
        from > t.len() ==> skip_ascii_ws(t, from) == from,
    decreases t.len() - from,
{
    if from < t.len() && is_ascii_ws(t[from]) {
        lemma_skip_ascii_ws(t, from + 1);
    }
}

/// The reference inside a CSS `url(` token is remote.
pub open spec fn is_remote_url(u: Seq<char>) -> bool {
    starts_with(trim_start(u), "http://"@) || starts_with(trim_start(u), "https://"@)
}

/// The text from `i` on with every CSS `url(...)` that points at http or https replaced by the
/// blocked-remote reference, and how many were replaced. An unterminated `url(` ends the scan
/// and the rest is kept as it is; a quoted reference not followed by `)` is kept.
pub open spec fn blocked_css_from(t: Seq<char>, i: int) -> (Seq<char>, nat)
    decreases t.len() - i,
{
    if i < 0 || i >= t.len() {
        (Seq::empty(), 0)
    } else if !occurs_at(t, "url("@, i) {
        let rest = blocked_css_from(t, i + 1);
        (seq![t[i]] + rest.0, rest.1)
    } else {
        let j = skip_ascii_ws(t, i + 4);
        let quoted = j < t.len() && (t[j] == '\'' || t[j] == '"');
        let us = if quoted { j + 1 } else { j };
        let close = if quoted { t[j] } else { ')' };
        match char_from(t, us, close) {
            None => (t.subrange(i, t.len() as int), 0),
            Some(e) => if i < e < t.len() {
                let remote = is_remote_url(t.subrange(us, e));
                if quoted {
                    let ep = skip_ascii_ws(t, e + 1);
                    if i < ep < t.len() && t[ep] == ')' {
                        let rest = blocked_css_from(t, ep + 1);
                        if remote {
                            (blocked_css() + rest.0, rest.1 + 1)
                        } else {
                            (t.subrange(i, ep + 1) + rest.0, rest.1)
                        }
                    } else if e < ep <= t.len() {
                        let rest = blocked_css_from(t, ep);
                        (t.subrange(i, ep) + rest.0, rest.1)
                    } else {
                        (Seq::empty(), 0)
                    }
                } else {
                    let rest = blocked_css_from(t, e + 1);
                    if remote {
                        (blocked_css() + rest.0, rest.1 + 1)
                    } else {
                        (t.subrange(i, e + 1) + rest.0, rest.1)
                    }
                }
            } else {
                (Seq::empty(), 0)
            },
        }
    }
}

fn skip_ws_from(t: &[char], from: usize) -> (r: usize)
    requires
        from <= t@.len(),
    ensures
        r as int == skip_ascii_ws(t@, from as int),
        from <= r <= t@.len(),
{
    let mut k: usize = from;
    while k < t.len() && (t[k] == ' ' || t[k] == '\t' || t[k] == '\n' || t[k] == '\u{0C}' || t[k] == '\r')
        invariant
            from <= k <= t@.len(),
            skip_ascii_ws(t@, from as int) == skip_ascii_ws(t@, k as int),
        decreases t.len() - k,
    {
        k += 1;
    }
    k
}

fn remote_url(t: &[char], a: usize, b: usize) -> (r: bool)
    requires
        a <= b <= t@.len(),
    ensures
        r == is_remote_url(t@.subrange(a as int, b as int)),
{
    let u = crate::text::slice_chars(t, a, b);
    assert(u@.subrange(0, u@.len() as int) =~= u@);
    let mut k: usize = 0;
    while k < u.len() && crate::text::is_whitespace(u[k])
        invariant
            k <= u@.len(),
            trim_start(u@) == trim_start(u@.subrange(k as int, u@.len() as int)),
        decreases u.len() - k,
    {
        proof {
            assert(u@.subrange(k as int, u@.len() as int).drop_first() =~= u@.subrange(k as int + 1, u@.len() as int));
        }
        k += 1;
    }
    let rest = crate::text::slice_chars(&u, k, u.len());
    assert(rest@ == trim_start(u@));
    starts_with_chars(&rest, &chars_of("http://")) || starts_with_chars(&rest, &chars_of("https://"))
}

/// Replaces every CSS `url(...)` that points at http or https with the blocked-remote
/// reference and counts the replacements.
pub fn block_remote_css_urls(t: &[char]) -> (r: (Vec<char>, usize))
    ensures
        r.0@ == blocked_css_from(t@, 0).0,
        r.1 as nat == blocked_css_from(t@, 0).1,
{
    let opener = chars_of("url(");
    let sent = chars_of("url(\"ratmail-blocked://remote\")");
    let mut out: Vec<char> = Vec::new();
    let mut count: usize = 0;
    let mut i: usize = 0;
    proof {
        reveal_strlit("url(");
    }
    while i < t.len()
        invariant
            opener@ == "url("@,
            opener@.len() == 4,
            sent@ == blocked_css(),
            i <= t@.len(),
            out@ + blocked_css_from(t@, i as int).0 == blocked_css_from(t@, 0).0,
            count + blocked_css_from(t@, i as int).1 == blocked_css_from(t@, 0).1,
            count <= i,
        decreases t.len() - i,
    {
        let ghost out0 = out@;
        if !matches_at(t, &opener, i) {
            out.push(t[i]);
            proof {
                assert(out@ + blocked_css_from(t@, i as int + 1).0 =~= out0 + (seq![t@[i as int]]
                    + blocked_css_from(t@, i as int + 1).0));
            }
            i += 1;
        } else {
            let j = skip_ws_from(t, i + 4);
            let quoted = j < t.len() && (t[j] == '\'' || t[j] == '"');
            let us = if quoted { j + 1 } else { j };
            let close = if quoted { t[j] } else { ')' };
            match find_char_from(t, us, close) {
                None => {
                    let tail = crate::text::slice_chars(t, i, t.len());
                    append_chars(&mut out, &tail);
                    proof {
                        assert(blocked_css_from(t@, i as int).0 == t@.subrange(i as int, t@.len() as int));
                        assert(blocked_css_from(t@, t@.len() as int).0 =~= Seq::<char>::empty());
                        assert(out@ + blocked_css_from(t@, t@.len() as int).0 =~= out@);
                    }
                    i = t.len();
                },
                Some(e) => {
                    proof {
                        lemma_char_from(t@, us as int, close);
                    }
                    let remote = remote_url(t, us, e);
                    if quoted {
                        let ep = skip_ws_from(t, e + 1);
                        if ep < t.len() && t[ep] == ')' {
                            if remote {
                                append_chars(&mut out, &sent);
                                count += 1;
                            } else {
                                let seg = crate::text::slice_chars(t, i, ep + 1);
                                append_chars(&mut out, &seg);
                            }
                            proof {
                                assert(out@ + blocked_css_from(t@, ep as int + 1).0 =~= out0 + blocked_css_from(t@, i as int).0);
                            }
                            i = ep + 1;
                        } else {
                            let seg = crate::text::slice_chars(t, i, ep);
                            append_chars(&mut out, &seg);
                            proof {
                                assert(out@ + blocked_css_from(t@, ep as int).0 =~= out0 + blocked_css_from(t@, i as int).0);
                            }
                            i = ep;
                        }
                    } else {
                        if remote {
                            append_chars(&mut out, &sent);
                            count += 1;
                        } else {
                            let seg = crate::text::slice_chars(t, i, e + 1);
                            append_chars(&mut out, &seg);
                        }
                        proof {
                            assert(out@ + blocked_css_from(t@, e as int + 1).0 =~= out0 + blocked_css_from(t@, i as int).0);
                        }
                        i = e + 1;
                    }
                },
            }
        }
    }
    (out, count)
}

/// Every rewrite of a remote attribute leaves the blocked-remote marker in the output.
pub proof fn lemma_blocked_attrs_marked(t: Seq<char>, i: int)
    ensures
        blocked_attrs_from(t, i).1 > 0 ==> contains(blocked_attrs_from(t, i).0, sentinel()),
    decreases t.len() - i,
{
    reveal_strlit("ratmail-blocked://remote");
    if 0 <= i < t.len() {
        match remote_attr_end(t, i, 0) {
            Some(e) => {
                if i < e < t.len() {
                    let out = blocked_attrs_from(t, i).0;
                    let hl = remote_head(t, i, 0).len() as int;
                    assert(out.subrange(hl, hl + sentinel().len() as int) =~= sentinel());
                    assert(occurs_at(out, sentinel(), hl));
                }
            },
            None => {
                lemma_blocked_attrs_marked(t, i + 1);
                let rest = blocked_attrs_from(t, i + 1).0;
                if blocked_attrs_from(t, i).1 > 0 {
                    let w = choose|w: int| occurs_at(rest, sentinel(), w);
                    assert((seq![t[i]] + rest).subrange(w + 1, w + 1 + sentinel().len()) =~= rest.subrange(w, w + sentinel().len()));
                    assert(occurs_at(seq![t[i]] + rest, sentinel(), w + 1));
                }
            },
        }
    }
}

/// Every replaced CSS reference leaves the blocked-remote marker in the output.
pub proof fn lemma_blocked_css_marked(t: Seq<char>, i: int)
    ensures
        blocked_css_from(t, i).1 > 0 ==> contains(blocked_css_from(t, i).0, sentinel()),
    decreases t.len() - i,
{
    reveal_strlit("url(\"ratmail-blocked://remote\")");
    reveal_strlit("ratmail-blocked://remote");
    if 0 <= i < t.len() && blocked_css_from(t, i).1 > 0 {
        let out = blocked_css_from(t, i).0;
        if !occurs_at(t, "url("@, i) {
            lemma_blocked_css_marked(t, i + 1);
            let rest = blocked_css_from(t, i + 1).0;
            let w = choose|w: int| occurs_at(rest, sentinel(), w);
            assert(out.subrange(w + 1, w + 1 + sentinel().len()) =~= rest.subrange(w, w + sentinel().len()));
            assert(occurs_at(out, sentinel(), w + 1));
        } else {
            let j = skip_ascii_ws(t, i + 4);
            let quoted = j < t.len() && (t[j] == '\'' || t[j] == '"');
            let us = if quoted { j + 1 } else { j };
            let close = if quoted { t[j] } else { ')' };
            let e = char_from(t, us, close)->0;
            let remote = is_remote_url(t.subrange(us, e));
            let next = if quoted {
                let ep = skip_ascii_ws(t, e + 1);
                if i < ep < t.len() && t[ep] == ')' { ep + 1 } else { ep }
            } else {
                e + 1
            };
            let rest = blocked_css_from(t, next).0;
            let prefix_len = out.len() - rest.len();
            let head_is_marker = remote && (!quoted || (i < skip_ascii_ws(t, e + 1) < t.len() && t[skip_ascii_ws(t, e + 1)] == ')'));
            if head_is_marker {
                assert(out.subrange(5, 5 + sentinel().len() as int) =~= sentinel());
                assert(occurs_at(out, sentinel(), 5));
            } else {
                lemma_blocked_css_marked(t, next);
                let w = choose|w: int| occurs_at(rest, sentinel(), w);
                assert(out.subrange(prefix_len + w, prefix_len + w + sentinel().len()) =~= rest.subrange(w, w + sentinel().len()));
                assert(occurs_at(out, sentinel(), prefix_len + w));
            }
        }
    }
}

/// Both rewrites: remote attributes first, then CSS references.
pub open spec fn blocked_assets(t: Seq<char>) -> (Seq<char>, nat) {
    let a = blocked_attrs_from(t, 0);
    let c = blocked_css_from(a.0, 0);
    (c.0, a.1 + c.1)
}

/// Rewrites remote `src`/`background` attributes and CSS `url(...)` references to the
/// blocked-remote marker, returning the HTML and the number of rewrites.
pub fn block_remote_assets(html: &str) -> (r: (String, usize))
    ensures
        r.0@ == blocked_assets(html@).0,
        r.1 as nat == if blocked_assets(html@).1 <= usize::MAX { blocked_assets(html@).1 } else { usize::MAX as nat },
        r.1 > 0 ==> contains(r.0@, sentinel()),
{
    let t = chars_of(html);
    let (a, n1) = block_remote_attrs(&t);
    let (c, n2) = block_remote_css_urls(&a);
    proof {
        lemma_blocked_attrs_marked(t@, 0);
        lemma_blocked_css_marked(a@, 0);
        lemma_marker_survives_css(a@);
    }
    let total = if n1 > usize::MAX - n2 { usize::MAX } else { n1 + n2 };
    (string_of(&c), total)
}

/// A marker left by the attribute pass is still present after the CSS pass.
pub proof fn lemma_marker_survives_css(a: Seq<char>)
    ensures
        contains(a, sentinel()) ==> blocked_css_from(a, 0).1 > 0 || contains(blocked_css_from(a, 0).0, sentinel()),
{
    if contains(a, sentinel()) && blocked_css_from(a, 0).1 == 0 {
        lemma_css_keeps_when_nothing_replaced(a, 0);
        assert(a.subrange(0, a.len() as int) =~= a);
    }
}

/// With no replacement, the CSS pass hands its input back unchanged.
pub proof fn lemma_css_keeps_when_nothing_replaced(t: Seq<char>, i: int)
    requires
        0 <= i <= t.len(),
        blocked_css_from(t, i).1 == 0,
    ensures
        blocked_css_from(t, i).0 == t.subrange(i, t.len() as int),
    decreases t.len() - i,
{
    if i == t.len() {
        assert(t.subrange(i, t.len() as int) =~= Seq::<char>::empty());
    } else {
        if !occurs_at(t, "url("@, i) {
            lemma_css_keeps_when_nothing_replaced(t, i + 1);
            let rest = blocked_css_from(t, i + 1).0;
            assert(seq![t[i]] + rest =~= t.subrange(i, t.len() as int));
        } else {
            let j = skip_ascii_ws(t, i + 4);
            lemma_skip_ascii_ws(t, i + 4);
            let quoted = j < t.len() && (t[j] == '\'' || t[j] == '"');
            let us = if quoted { j + 1 } else { j };
            let close = if quoted { t[j] } else { ')' };
            if us <= t.len() {
                lemma_char_from(t, us, close);
            }
            match char_from(t, us, close) {
                None => {},
                Some(e) => {
                    assert(i < e < t.len());
                    let ep = skip_ascii_ws(t, e + 1);
                    lemma_skip_ascii_ws(t, e + 1);
                    if quoted {
                        if i < ep < t.len() && t[ep] == ')' {
                            lemma_css_keeps_when_nothing_replaced(t, ep + 1);
                            let rest = blocked_css_from(t, ep + 1).0;
                            assert(t.subrange(i, ep + 1) + rest =~= t.subrange(i, t.len() as int));
                        } else {
                            lemma_css_keeps_when_nothing_replaced(t, ep);
                            let rest = blocked_css_from(t, ep).0;
                            assert(t.subrange(i, ep) + rest =~= t.subrange(i, t.len() as int));
                        }
                    } else {
                        lemma_css_keeps_when_nothing_replaced(t, e + 1);
                        let rest = blocked_css_from(t, e + 1).0;
                        assert(t.subrange(i, e + 1) + rest =~= t.subrange(i, t.len() as int));
                    }
                },
            }
        }
    }
}

/// `t` from position `i` on with every occurrence of `n` replaced by `r`, scanning left to
/// right without overlap.
pub open spec fn replaced_from(t: Seq<char>, n: Seq<char>, r: Seq<char>, i: int) -> Seq<char>
    decreases t.len() - i,
{
    if i < 0 || i >= t.len() {
        Seq::empty()
    } else if n.len() > 0 && occurs_at(t, n, i) {
        r + replaced_from(t, n, r, i + n.len())
    } else {
        seq![t[i]] + replaced_from(t, n, r, i + 1)
    }
}

/// Replaces every occurrence of a non-empty `n` in `t` by `r`.
pub fn replace_all(t: &[char], n: &[char], r: &[char]) -> (out: Vec<char>)
    ensures
        out@ == replaced_from(t@, n@, r@, 0),
{
    let mut out: Vec<char> = Vec::new();
    let mut i: usize = 0;
    while i < t.len()
        invariant
            i <= t@.len(),
            out@ + replaced_from(t@, n@, r@, i as int) == replaced_from(t@, n@, r@, 0),
        decreases t.len() - i,
    {
        let ghost out0 = out@;
        if n.len() > 0 && matches_at(t, n, i) {
            append_chars(&mut out, r);
            proof {
                assert(out@ + replaced_from(t@, n@, r@, i + n@.len()) =~= out0 + (r@ + replaced_from(t@, n@, r@, i + n@.len())));
            }
            i = i + n.len();
        } else {
            out.push(t[i]);
            proof {
                assert(out@ + replaced_from(t@, n@, r@, i + 1) =~= out0 + (seq![t@[i as int]] + replaced_from(t@, n@, r@, i + 1)));
            }
            i += 1;
        }
    }
    assert(replaced_from(t@, n@, r@, i as int) =~= Seq::<char>::empty());
    assert(out@ =~= out@ + Seq::<char>::empty());
    out
}

/// `t` with the Content-ID references of the first `k` entries of `cids` pointed at their data
/// URLs, in double and in single quotes.
pub open spec fn inlined(t: Seq<char>, cids: Seq<(Seq<char>, Seq<char>)>, k: int) -> Seq<char>
    decreases k,
{
    if k <= 0 || k > cids.len() {
        t
    } else {
        let prev = inlined(t, cids, k - 1);
        let cid = cids[k - 1].0;
        let url = cids[k - 1].1;
        let once = replaced_from(prev, "src=\"cid:"@ + cid + "\""@, "src=\""@ + url + "\""@, 0);
        replaced_from(once, "src='cid:"@ + cid + "'"@, "src='"@ + url + "'"@, 0)
    }
}

pub open spec fn cid_pairs(cids: Seq<(String, String)>) -> Seq<(Seq<char>, Seq<char>)> {
    cids.map_values(|p: (String, String)| (p.0@, p.1@))
}

fn quoted_attr(open: &str, middle: &[char], close: &str) -> (r: Vec<char>)
    ensures
        r@ == open@ + middle@ + close@,
{
    let mut v = chars_of(open);
    append_chars(&mut v, middle);
    append_chars(&mut v, &chars_of(close));
    v
}

/// Points every `src="cid:X"` and `src='cid:X'` at the data URL given for `X`.
pub fn inline_cid_images(html: &str, cid_map: &[(String, String)]) -> (r: String)
    ensures
        r@ == inlined(html@, cid_pairs(cid_map@), cid_map@.len() as int),
{
    let mut out = chars_of(html);
    let mut k: usize = 0;
    while k < cid_map.len()
        invariant
            k <= cid_map@.len(),
            out@ == inlined(html@, cid_pairs(cid_map@), k as int),
        decreases cid_map.len() - k,
    {
        let cid = chars_of(cid_map[k].0.as_str());
        let url = chars_of(cid_map[k].1.as_str());
        let n1 = quoted_attr("src=\"cid:", &cid, "\"");
        let r1 = quoted_attr("src=\"", &url, "\"");
        let once = replace_all(&out, &n1, &r1);
        let n2 = quoted_attr("src='cid:", &cid, "'");
        let r2 = quoted_attr("src='", &url, "'");
        out = replace_all(&once, &n2, &r2);
        k += 1;
    }
    string_of(&out)
}

/// What `prepare_html` makes of sanitised HTML: inlined Content-ID images, then, unless remote
/// assets are allowed, remote assets blocked.
pub open spec fn prepared(sanitized: Seq<char>, cids: Seq<(Seq<char>, Seq<char>)>, allow_remote: bool) -> (Seq<char>, nat) {
    let inl = inlined(sanitized, cids, cids.len() as int);
    if allow_remote {
        (inl, 0)
    } else {
        blocked_assets(inl)
    }
}

/// Prepares sanitised HTML for rendering: inlines Content-ID images and, when remote assets
/// are not allowed, blocks them and counts the blocked sites.
pub fn prepare_html_from_parts(sanitized: &str, cid_map: &[(String, String)], allow_remote: bool) -> (r: PreparedHtml)
    ensures
        r.html@ == prepared(sanitized@, cid_pairs(cid_map@), allow_remote).0,
        prepared(sanitized@, cid_pairs(cid_map@), allow_remote).1 <= usize::MAX ==> r.blocked_remote as nat
            == prepared(sanitized@, cid_pairs(cid_map@), allow_remote).1,
        r.blocked_remote > 0 ==> contains(r.html@, sentinel()),
        allow_remote ==> r.blocked_remote == 0,
{
    let html = inline_cid_images(sanitized, cid_map);
    if allow_remote {
        return PreparedHtml { html, blocked_remote: 0 };
    }
    let (blocked, count) = block_remote_assets(html.as_str());
    PreparedHtml { html: blocked, blocked_remote: count }
}

/// The standard base64 encoding (with padding) of some bytes.
pub uninterp spec fn base64_of(b: Seq<u8>) -> Seq<char>;

/// Relies on `base64::Engine::encode` of the standard engine: standard alphabet with padding;
/// the result depends on the bytes alone. Its length computation panics past a quarter of the
/// address space, which `requires` leaves out.
#[verifier::external_body]
fn encode_base64(b: &[u8]) -> (r: String)
    requires
        b@.len() <= usize::MAX / 2,
    ensures
        r@ == base64_of(b@),
        r@.len() == 4 * ((b@.len() + 2) / 3),
{
    base64::engine::general_purpose::STANDARD.encode(b)
}

/// The `data:` URL that carries an inline part: its MIME type and its bytes in base64.
pub fn cid_data_url(mime: &str, body: &[u8]) -> (r: String)
    requires
        body@.len() <= usize::MAX / 2,
    ensures
        r@ == "data:"@ + mime@ + ";base64,"@ + base64_of(body@),
{
    let mut out = String::new();
    crate::text::push_str(&mut out, "data:");
    crate::text::push_str(&mut out, mime);
    crate::text::push_str(&mut out, ";base64,");
    let enc = encode_base64(body);
    crate::text::push_str(&mut out, enc.as_str());
    assert(out@ =~= "data:"@ + mime@ + ";base64,"@ + base64_of(body@));
    out
}

/// Characters that make up a horizontal rule line.
pub open spec fn rule_char(c: char) -> bool {
    c == '-' || c == '_' || c == '=' || c == '*' || c == '~' || c == '\u{2014}' || c == '\u{2013}'
        || c == '\u{2500}' || c == '\u{2501}' || c == '\u{b7}' || c == '\u{2022}'
}

pub fn is_rule_char(c: char) -> (r: bool)
    ensures
        r == rule_char(c),
{
    c == '-' || c == '_' || c == '=' || c == '*' || c == '~' || c == '\u{2014}' || c == '\u{2013}'
        || c == '\u{2500}' || c == '\u{2501}' || c == '\u{b7}' || c == '\u{2022}'
}

/// Number of characters of `s` that are not whitespace.
pub open spec fn visible_count(s: Seq<char>) -> nat
    decreases s.len(),
{
    if s.len() == 0 {
        0
    } else {
        visible_count(s.drop_last()) + if is_ws(s.last()) { 0nat } else { 1nat }
    }
}

/// A line of three or more rule characters, whitespace aside, and nothing else.
pub open spec fn horizontal_rule(s: Seq<char>) -> bool {
    visible_count(s) >= 3 && forall|k: int| 0 <= k < s.len() && !is_ws(#[trigger] s[k]) ==> rule_char(s[k])
}

pub fn is_horizontal_rule(line: &str) -> (r: bool)
    ensures
        r == horizontal_rule(line@),
{
    let t = chars_of(line);
    let mut count: usize = 0;
    let mut i: usize = 0;
    while i < t.len()
        invariant
            t@ == line@,
            i <= t@.len(),
            count == visible_count(t@.subrange(0, i as int)),
            count <= i,
            forall|k: int| 0 <= k < i && !is_ws(#[trigger] t@[k]) ==> rule_char(t@[k]),
        decreases t.len() - i,
    {
        proof {
            let s1 = t@.subrange(0, i as int + 1);
            assert(s1.drop_last() =~= t@.subrange(0, i as int));
        }
        if !crate::text::is_whitespace(t[i]) {
            if !is_rule_char(t[i]) {
                assert(!is_ws(line@[i as int]) && !rule_char(line@[i as int]));
                return false;
            }
            count += 1;
        }
        i += 1;
    }
    assert(t@.subrange(0, t@.len() as int) =~= t@);
    count >= 3
}

/// `s` with everything between `<` and `>` removed, the brackets too; `in_tag` says whether
/// the text starts inside a tag.
pub open spec fn untagged(s: Seq<char>, in_tag: bool) -> Seq<char>
    decreases s.len(),
{
    if s.len() == 0 {
        Seq::empty()
    } else if s[0] == '<' {
        untagged(s.drop_first(), true)
    } else if s[0] == '>' {
        untagged(s.drop_first(), false)
    } else if in_tag {
        untagged(s.drop_first(), in_tag)
    } else {
        seq![s[0]] + untagged(s.drop_first(), in_tag)
    }
}

/// Removes markup tags from a fragment of HTML.
pub fn strip_html_tags(input: &str) -> (r: String)
    ensures
        r@ == untagged(input@, false),
{
    let t = chars_of(input);
    let mut out: Vec<char> = Vec::new();
    let mut in_tag = false;
    let mut i: usize = 0;
    assert(t@.subrange(0, t@.len() as int) =~= t@);
    assert(out@ + untagged(t@, false) =~= untagged(t@, false));
    while i < t.len()
        invariant
            i <= t@.len(),
            out@ + untagged(t@.subrange(i as int, t@.len() as int), in_tag) == untagged(t@, false),
        decreases t.len() - i,
    {
        let ghost out0 = out@;
        let ghost st0 = in_tag;
        proof {
            let rest = t@.subrange(i as int, t@.len() as int);
            assert(rest.drop_first() =~= t@.subrange(i as int + 1, t@.len() as int));
            assert(rest[0] == t@[i as int]);
        }
        let c = t[i];
        if c == '<' {
            in_tag = true;
        } else if c == '>' {
            in_tag = false;
        } else if !in_tag {
            out.push(c);
            proof {
                let rest = t@.subrange(i as int + 1, t@.len() as int);
                assert(out@ + untagged(rest, in_tag) =~= out0 + (seq![c] + untagged(rest, in_tag)));
            }
        }
        i += 1;
    }
    proof {
        assert(t@.subrange(0, t@.len() as int) =~= t@);
        assert(out@ + untagged(t@.subrange(i as int, t@.len() as int), in_tag) =~= out@);
    }
    string_of(&out)
}

/// The words of `s` joined by single spaces; `started` says whether a word was written
/// already and `gap` whether whitespace followed it.
pub open spec fn words_joined(s: Seq<char>, started: bool, gap: bool) -> Seq<char>
    decreases s.len(),
{
    if s.len() == 0 {
        Seq::empty()
    } else if is_ws(s[0]) {
        words_joined(s.drop_first(), started, started)
    } else {
        (if gap { seq![' ', s[0]] } else { seq![s[0]] }) + words_joined(s.drop_first(), true, false)
    }
}

/// The visible text of a link: tags removed, whitespace runs collapsed to one space; `None`
/// when nothing is left.
pub fn normalize_link_text(text: &str) -> (r: Option<String>)
    ensures
        r is None <==> words_joined(untagged(text@, false), false, false).len() == 0,
        r matches Some(s) ==> s@ == words_joined(untagged(text@, false), false, false),
{
    let stripped = strip_html_tags(text);
    let t = chars_of(stripped.as_str());
    let mut out: Vec<char> = Vec::new();
    let mut started = false;
    let mut gap = false;
    let mut i: usize = 0;
    assert(t@.subrange(0, t@.len() as int) =~= t@);
    assert(out@ + words_joined(t@, false, false) =~= words_joined(t@, false, false));
    while i < t.len()
        invariant
            i <= t@.len(),
            out@ + words_joined(t@.subrange(i as int, t@.len() as int), started, gap) == words_joined(t@, false, false),
            !started ==> out@.len() == 0,
            gap ==> started,
        decreases t.len() - i,
    {
        let ghost out0 = out@;
        proof {
            let rest = t@.subrange(i as int, t@.len() as int);
            assert(rest.drop_first() =~= t@.subrange(i as int + 1, t@.len() as int));
            assert(rest[0] == t@[i as int]);
        }
        let c = t[i];
        if crate::text::is_whitespace(c) {
            gap = started;
        } else {
            if gap {
                out.push(' ');
            }
            out.push(c);
            proof {
                let rest = t@.subrange(i as int + 1, t@.len() as int);
                assert(out@ + words_joined(rest, true, false) =~= out0 + ((if gap { seq![' ', c] } else { seq![c] })
                    + words_joined(rest, true, false)));
            }
            started = true;
            gap = false;
        }
        i += 1;
    }
    proof {
        assert(t@.subrange(0, t@.len() as int) =~= t@);
        assert(out@ + words_joined(t@.subrange(i as int, t@.len() as int), started, gap) =~= out@);
    }
    if out.len() == 0 {
        None
    } else {
        Some(string_of(&out))
    }
}

/// The words of `t` joined by single spaces.
pub fn single_spaced(t: &Vec<char>) -> (r: Vec<char>)
    ensures
        r@ == words_joined(t@, false, false),
{
    let mut out: Vec<char> = Vec::new();
    let mut started = false;
    let mut gap = false;
    let mut i: usize = 0;
    assert(t@.subrange(0, t@.len() as int) =~= t@);
    assert(out@ + words_joined(t@, false, false) =~= words_joined(t@, false, false));
    while i < t.len()
        invariant
            i <= t@.len(),
            out@ + words_joined(t@.subrange(i as int, t@.len() as int), started, gap) == words_joined(t@, false, false),
            gap ==> started,
        decreases t.len() - i,
    {
        let ghost out0 = out@;
        proof {
            let rest = t@.subrange(i as int, t@.len() as int);
            assert(rest.drop_first() =~= t@.subrange(i as int + 1, t@.len() as int));
            assert(rest[0] == t@[i as int]);
        }
        let c = t[i];
        if crate::text::is_whitespace(c) {
            gap = started;
        } else {
            if gap {
                out.push(' ');
            }
            out.push(c);
            proof {
                let rest = t@.subrange(i as int + 1, t@.len() as int);
                assert(out@ + words_joined(rest, true, false) =~= out0 + ((if gap { seq![' ', c] } else { seq![c] })
                    + words_joined(rest, true, false)));
            }
            started = true;
            gap = false;
        }
        i += 1;
    }
    proof {
        assert(out@ + words_joined(t@.subrange(i as int, t@.len() as int), started, gap) =~= out@);
    }
    out
}

} // verus!
