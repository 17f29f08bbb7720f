use vstd::prelude::*;

use crate::text::{append_chars, chars_of, dec, push_decimal, slice_chars, string_of, trim, trim_chars, trim_start};
use crate::content::words_joined;
use crate::sync::{parse_date, parsed_date};
use crate::types::{ImapMessageSummary, SyncMode};
use crate::util::{imap_date, imap_date_from_parts, uid_list};

verus! {

/// A calendar date (year, month, day) in the zone the searches are made in.
pub type CivilDate = (i32, u32, u32);

/// `x` kept within the range of `i64`.
pub open spec fn clamp_i64(x: int) -> i64 {
    if x < i64::MIN {
        i64::MIN
    } else if x > i64::MAX {
        i64::MAX
    } else {
        x as i64
    }
}

/// The time range a sync mode searches, as (since, before) epoch seconds: an initial sync
/// covers `days` days up to `now_ts`, a backfill the window before its start; an incremental
/// sync searches by uid and uses `now_ts` for both.
pub open spec fn search_window(mode: SyncMode, now_ts: i64) -> (i64, i64) {
    match mode {
        SyncMode::Initial { days } => (clamp_i64(now_ts - clamp_i64(days * 86400)), now_ts),
        SyncMode::Backfill { before_ts, window_days } => (clamp_i64(before_ts - clamp_i64(window_days * 86400)), before_ts),
        SyncMode::Incremental { .. } => (now_ts, now_ts),
    }
}

fn clamped(x: i128) -> (r: i64)
    ensures
        r == clamp_i64(x as int),
{
    if x < i64::MIN as i128 {
        i64::MIN
    } else if x > i64::MAX as i128 {
        i64::MAX
    } else {
        x as i64
    }
}

/// The start of a window of `days` days that ends at `end`.
fn window_start(end: i64, days: i64) -> (r: i64)
    ensures
        r == clamp_i64(end - clamp_i64(days * 86400)),
{
    let span = clamped(days as i128 * 86400);
    clamped(end as i128 - span as i128)
}

pub fn search_window_of(mode: &SyncMode, now_ts: i64) -> (r: (i64, i64))
    ensures
        r == search_window(*mode, now_ts),
{
    match mode {
        SyncMode::Initial { days } => (window_start(now_ts, *days), now_ts),
        SyncMode::Backfill { before_ts, window_days } => (window_start(*before_ts, *window_days), *before_ts),
        SyncMode::Incremental { .. } => (now_ts, now_ts),
    }
}

/// The server search of a sync mode: uids above the highest seen for an incremental sync,
/// messages since a date (and before another, for a backfill) otherwise.
pub open spec fn search_text(mode: SyncMode, since: CivilDate, before: CivilDate) -> Seq<char> {
    match mode {
        SyncMode::Incremental { last_seen_uid } => "UID "@ + dec(
            if last_seen_uid == u32::MAX { u32::MAX as nat } else { (last_seen_uid + 1) as nat },
        ) + ":*"@,
        SyncMode::Backfill { .. } => "SINCE "@ + imap_date(since.0, since.1, since.2) + " BEFORE "@ + imap_date(
            before.0,
            before.1,
            before.2,
        ),
        SyncMode::Initial { .. } => "SINCE "@ + imap_date(since.0, since.1, since.2),
    }
}

/// The search query for a sync, given the calendar dates of its window.
pub fn imap_search_query(mode: &SyncMode, since: CivilDate, before: CivilDate) -> (r: String)
    ensures
        r@ == search_text(*mode, since, before),
{
    let mut out: Vec<char> = Vec::new();
    match mode {
        SyncMode::Incremental { last_seen_uid } => {
            append_chars(&mut out, &chars_of("UID "));
            let next: u32 = if *last_seen_uid == u32::MAX { u32::MAX } else { *last_seen_uid + 1 };
            push_decimal(&mut out, next as u64);
            append_chars(&mut out, &chars_of(":*"));
        },
        SyncMode::Backfill { .. } => {
            append_chars(&mut out, &chars_of("SINCE "));
            append_chars(&mut out, &chars_of(imap_date_from_parts(since.0, since.1, since.2).as_str()));
            append_chars(&mut out, &chars_of(" BEFORE "));
            append_chars(&mut out, &chars_of(imap_date_from_parts(before.0, before.1, before.2).as_str()));
        },
        SyncMode::Initial { .. } => {
            append_chars(&mut out, &chars_of("SINCE "));
            append_chars(&mut out, &chars_of(imap_date_from_parts(since.0, since.1, since.2).as_str()));
        },
    }
    proof {
        assert(out@ =~= search_text(*mode, since, before));
    }
    string_of(&out)
}

/// Port 465 speaks TLS from the start; any other port upgrades with STARTTLS.
pub fn uses_implicit_tls(port: u16) -> (r: bool)
    ensures
        r == (port == 465),
{
    port == 465
}

/// Uids in descending order.
pub open spec fn descending(s: Seq<u32>) -> bool {
    forall|a: int, b: int| 0 <= a < b < s.len() ==> s[a] >= s[b]
}

/// The uids sorted from highest to lowest.
pub fn sort_uids_desc(uids: &[u32]) -> (r: Vec<u32>)
    ensures
        descending(r@),
        r@.to_multiset() == uids@.to_multiset(),
{
    broadcast use vstd::seq_lib::to_multiset_build, vstd::seq_lib::to_multiset_insert;

    let mut out: Vec<u32> = Vec::new();
    let mut i: usize = 0;
    assert(uids@.subrange(0, 0) =~= out@);
    while i < uids.len()
        invariant
            i <= uids@.len(),
            descending(out@),
            out@.to_multiset() == uids@.subrange(0, i as int).to_multiset(),
        decreases uids.len() - i,
    {
        let x = uids[i];
        let mut p: usize = 0;
        while p < out.len() && out[p] >= x
            invariant
                p <= out@.len(),
                forall|k: int| 0 <= k < p ==> out@[k] >= x,
            decreases out.len() - p,
        {
            p += 1;
        }
        let ghost before = out@;
        proof {
            assert forall|k: int| p <= k < before.len() implies before[k] < x by {
                if k > p {
                    assert(before[p as int] >= before[k]);
                }
            }
        }
        out.insert(p, x);
        proof {
            assert(uids@.subrange(0, i as int + 1) =~= uids@.subrange(0, i as int).push(x));
            assert(out@ == before.insert(p as int, x));
            vstd::seq_lib::to_multiset_insert(before, p as int, x);
            vstd::seq_lib::to_multiset_build(uids@.subrange(0, i as int), x);
            assert forall|a: int, b: int| 0 <= a < b < out@.len() implies out@[a] >= out@[b] by {
                if b < p {
                    assert(out@[a] == before[a] && out@[b] == before[b]);
                } else if b == p {
                    assert(out@[a] == before[a]);
                } else if a == p {
                    assert(out@[b] == before[b - 1]);
                } else if a < p {
                    assert(out@[a] == before[a] && out@[b] == before[b - 1]);
                } else {
                    assert(out@[a] == before[a - 1] && out@[b] == before[b - 1]);
                }
            }
        }
        i += 1;
    }
    assert(uids@.subrange(0, uids@.len() as int) =~= uids@);
    out
}

/// `s` cut into consecutive pieces of `n` (the last one may be shorter).
pub open spec fn chunks_of(s: Seq<u32>, n: nat) -> Seq<Seq<u32>>
    decreases s.len(),
{
    if n == 0 || s.len() == 0 {
        Seq::empty()
    } else if s.len() <= n {
        seq![s]
    } else {
        seq![s.subrange(0, n as int)] + chunks_of(s.subrange(n as int, s.len() as int), n)
    }
}

/// The uid sets fetched for a search result: the uids from highest to lowest, in pieces of
/// `chunk_size` (at least one), each written as a comma-separated list.
pub fn fetch_chunks(uids: &[u32], chunk_size: usize) -> (r: Vec<String>)
    ensures
        exists|s: Seq<u32>|
            descending(s) && s.to_multiset() == uids@.to_multiset() && r.deep_view() == chunks_of(
                s,
                if chunk_size == 0 { 1nat } else { chunk_size as nat },
            ).map_values(|c: Seq<u32>| uid_list(c)),
{
    let sorted = sort_uids_desc(uids);
    let n: usize = if chunk_size == 0 { 1 } else { chunk_size };
    let ghost all = sorted@;
    let mut out: Vec<String> = Vec::new();
    let mut start: usize = 0;
    proof {
        let f = |c: Seq<u32>| uid_list(c);
        assert(all.subrange(0, all.len() as int) =~= all);
        assert(out.deep_view() + chunks_of(all, n as nat).map_values(f) =~= chunks_of(all, n as nat).map_values(f));
    }
    while start < sorted.len()
        invariant
            all == sorted@,
            n > 0,
            start <= all.len(),
            out.deep_view() + chunks_of(all.subrange(start as int, all.len() as int), n as nat).map_values(|c: Seq<u32>| uid_list(c))
                == chunks_of(all, n as nat).map_values(|c: Seq<u32>| uid_list(c)),
        decreases sorted.len() - start,
    {
        let ghost rest = all.subrange(start as int, all.len() as int);
        let ghost out0 = out.deep_view();
        let end: usize = if sorted.len() - start <= n { sorted.len() } else { start + n };
        let piece = slice_chars_u32(&sorted, start, end);
        out.push(crate::util::uid_set(&piece));
        proof {
            let f = |c: Seq<u32>| uid_list(c);
            if rest.len() <= n {
                assert(piece@ =~= rest);
                assert(all.subrange(end as int, all.len() as int) =~= Seq::<u32>::empty());
                assert(chunks_of(rest, n as nat) == seq![rest]);
            } else {
                assert(piece@ =~= rest.subrange(0, n as int));
                assert(rest.subrange(n as int, rest.len() as int) =~= all.subrange(end as int, all.len() as int));
                assert(chunks_of(rest, n as nat) == seq![rest.subrange(0, n as int)] + chunks_of(all.subrange(end as int, all.len() as int), n as nat));
            }
            assert(chunks_of(rest, n as nat).map_values(f) =~= seq![uid_list(piece@)] + chunks_of(all.subrange(end as int, all.len() as int), n as nat).map_values(f));
            assert(out.deep_view() =~= out0.push(uid_list(piece@)));
            assert(out.deep_view() + chunks_of(all.subrange(end as int, all.len() as int), n as nat).map_values(f)
                =~= out0 + chunks_of(rest, n as nat).map_values(f));
        }
        start = end;
    }
    proof {
        assert(all.subrange(start as int, all.len() as int) =~= Seq::<u32>::empty());
        assert(out.deep_view() + chunks_of(Seq::<u32>::empty(), n as nat).map_values(|c: Seq<u32>| uid_list(c)) =~= out.deep_view());
    }
    out
}

fn slice_chars_u32(s: &Vec<u32>, a: usize, b: usize) -> (r: Vec<u32>)
    requires
        a <= b <= s@.len(),
    ensures
        r@ == s@.subrange(a as int, b as int),
{
    let mut out: Vec<u32> = Vec::new();
    let mut i: usize = a;
    while i < b
        invariant
            a <= i <= b <= s@.len(),
            out@ == s@.subrange(a as int, i as int),
        decreases b - i,
    {
        out.push(s[i]);
        i += 1;
    }
    out
}

/// The summary of a fetched message from its headers: `(no subject)` without a subject, the
/// subject doubling as preview, unread unless flagged seen.
pub fn summary_from_headers(uid: u32, subject: Option<String>, date: String, from: Option<String>, seen: bool) -> (r: ImapMessageSummary)
    ensures
        r.uid == uid,
        r.subject@ == match subject {
            Some(s) => s@,
            None => "(no subject)"@,
        },
        r.preview@ == r.subject@,
        r.date@ == date@,
        r.from@ == match from {
            Some(f) => f@,
            None => Seq::<char>::empty(),
        },
        r.unread == !seen,
{
    let subject = match subject {
        Some(s) => s,
        None => crate::store::string_of_str("(no subject)"),
    };
    let from = match from {
        Some(f) => f,
        None => String::new(),
    };
    ImapMessageSummary { uid, date, from, subject: subject.clone(), unread: !seen, preview: subject }
}

/// `s` without leading zeros.
pub open spec fn strip_zeros(s: Seq<char>) -> Seq<char>
    decreases s.len(),
{
    if s.len() > 0 && s[0] == '0' {
        strip_zeros(s.drop_first())
    } else {
        s
    }
}

/// A day number written with two digits: leading zeros dropped, then padded to two.
pub open spec fn padded_day(d: Seq<char>) -> Seq<char> {
    let z = strip_zeros(d);
    if z.len() == 0 {
        "00"@
    } else if z.len() == 1 {
        seq!['0'] + z
    } else {
        z
    }
}

/// Position of the first `c` in `s`, or its length.
pub open spec fn pos_of(s: Seq<char>, c: char) -> int
    decreases s.len(),
{
    if s.len() == 0 {
        0
    } else if s[0] == c {
        0
    } else {
        1 + pos_of(s.drop_first(), c)
    }
}

pub proof fn lemma_pos_of(s: Seq<char>, c: char)
    ensures
        0 <= pos_of(s, c) <= s.len(),
        pos_of(s, c) < s.len() ==> s[pos_of(s, c)] == c,
        forall|k: int| 0 <= k < pos_of(s, c) ==> s[k] != c,
    decreases s.len(),
{
    if s.len() > 0 && s[0] != c {
        lemma_pos_of(s.drop_first(), c);
        assert forall|k: int| 0 <= k < pos_of(s, c) implies s[k] != c by {
            if k > 0 {
                assert(s[k] == s.drop_first()[k - 1]);
            }
        }
    }
}

/// How a message date is shown: a parsable date of the form `Dow, rest` gets its words
/// single-spaced and its day number padded to two digits; anything else is shown trimmed.
pub open spec fn date_display(raw: Seq<char>) -> Seq<char> {
    let t = trim(raw);
    let c = pos_of(t, ',');
    if parsed_date(t) is None || c >= t.len() {
        t
    } else {
        let w = words_joined(t.subrange(c + 1, t.len() as int), false, false);
        let sp = pos_of(w, ' ');
        t.subrange(0, c) + ", "@ + if w.len() == 0 {
            Seq::empty()
        } else {
            padded_day(w.subrange(0, sp)) + w.subrange(sp, w.len() as int)
        }
    }
}

fn first_index(s: &Vec<char>, c: char) -> (r: usize)
    ensures
        r as int == pos_of(s@, c),
{
    proof {
        lemma_pos_of(s@, c);
    }
    let mut k: usize = 0;
    while k < s.len() && s[k] != c
        invariant
            k <= s@.len(),
            forall|j: int| 0 <= j < k ==> s@[j] != c,
            pos_of(s@, c) <= s@.len(),
            pos_of(s@, c) < s@.len() ==> s@[pos_of(s@, c)] == c,
            forall|j: int| 0 <= j < pos_of(s@, c) ==> s@[j] != c,
        decreases s.len() - k,
    {
        k += 1;
    }
    proof {
        if (k as int) < pos_of(s@, c) {
            assert(s@[k as int] != c);
        }
        if (k as int) > pos_of(s@, c) {
            assert(s@[pos_of(s@, c)] != c);
        }
    }
    k
}

fn pad_day(d: &Vec<char>) -> (r: Vec<char>)
    ensures
        r@ == padded_day(d@),
{
    let mut a: usize = 0;
    assert(d@.subrange(0, d@.len() as int) =~= d@);
    while a < d.len() && d[a] == '0'
        invariant
            a <= d@.len(),
            strip_zeros(d@) == strip_zeros(d@.subrange(a as int, d@.len() as int)),
        decreases d.len() - a,
    {
        proof {
            let s = d@.subrange(a as int, d@.len() as int);
            assert(s.drop_first() =~= d@.subrange(a as int + 1, d@.len() as int));
        }
        a += 1;
    }
    let z = slice_chars(d, a, d.len());
    assert(d@.subrange(0, d@.len() as int) =~= d@);
    if z.len() == 0 {
        proof {
            reveal_strlit("00");
        }
        chars_of("00")
    } else if z.len() == 1 {
        let mut out: Vec<char> = Vec::new();
        out.push('0');
        out.push(z[0]);
        assert(out@ =~= seq!['0'] + z@);
        out
    } else {
        z
    }
}

/// A message date as the list shows it.
pub fn format_date_display(raw: &str) -> (r: String)
    ensures
        r@ == date_display(raw@),
{
    let t = trim_chars(&chars_of(raw));
    let ts = string_of(&t);
    let c = first_index(&t, ',');
    if parse_date(ts.as_str()).is_none() || c >= t.len() {
        return ts;
    }
    let w = crate::content::single_spaced(&slice_chars(&t, c + 1, t.len()));
    let mut out = slice_chars(&t, 0, c);
    out.push(',');
    out.push(' ');
    if w.len() > 0 {
        let sp = first_index(&w, ' ');
        proof {
            lemma_pos_of(w@, ' ');
        }
        append_chars(&mut out, &pad_day(&slice_chars(&w, 0, sp)));
        append_chars(&mut out, &slice_chars(&w, sp, w.len()));
    }
    proof {
        reveal_strlit(", ");
    }
    assert(out@ =~= date_display(raw@));
    string_of(&out)
}

/// The sort key of a fetched summary: its parsed date, 0 when it does not parse.
pub open spec fn date_key(m: ImapMessageSummary) -> i64 {
    match parsed_date(m.date@) {
        Some(t) => t,
        None => 0,
    }
}

/// `r` lists `msgs` newest first through the positions `idx`, messages of equal date in their
/// original order.
pub open spec fn newest_first(msgs: Seq<ImapMessageSummary>, r: Seq<ImapMessageSummary>, idx: Seq<int>) -> bool {
    &&& idx.len() == msgs.len() && r.len() == msgs.len()
    &&& forall|k: int| 0 <= k < idx.len() ==> 0 <= #[trigger] idx[k] < msgs.len() && r[k] == msgs[idx[k]]
    &&& forall|a: int, b: int| 0 <= a < b < idx.len() ==> #[trigger] idx[a] != #[trigger] idx[b]
    &&& forall|a: int, b: int| 0 <= a < b < r.len() ==> date_key(#[trigger] r[a]) >= date_key(#[trigger] r[b])
        && (date_key(r[a]) == date_key(r[b]) ==> idx[a] < idx[b])
}

fn copy_imap_summary(m: &ImapMessageSummary) -> (r: ImapMessageSummary)
    ensures
        r == *m,
{
    ImapMessageSummary {
        uid: m.uid,
        date: m.date.clone(),
        from: m.from.clone(),
        subject: m.subject.clone(),
        unread: m.unread,
        preview: m.preview.clone(),
    }
}

/// Fetched summaries ordered newest first; equal dates keep their order.
pub fn sort_by_date_desc(msgs: &Vec<ImapMessageSummary>) -> (r: Vec<ImapMessageSummary>)
    ensures
        exists|idx: Seq<int>| newest_first(msgs@, r@, idx),
{
    let mut order: Vec<(i64, usize)> = Vec::new();
    let mut i: usize = 0;
    while i < msgs.len()
        invariant
            i <= msgs@.len(),
            order@.len() == i,
            forall|k: int| 0 <= k < order@.len() ==> (#[trigger] order@[k]).1 < i && order@[k].0 == date_key(msgs@[order@[k].1 as int]),
            forall|a: int, b: int| 0 <= a < b < order@.len() ==> (#[trigger] order@[a]).1 != (#[trigger] order@[b]).1,
            forall|a: int, b: int| 0 <= a < b < order@.len() ==> (#[trigger] order@[a]).0 >= (#[trigger] order@[b]).0
                && (order@[a].0 == order@[b].0 ==> order@[a].1 < order@[b].1),
        decreases msgs.len() - i,
    {
        let key = match parse_date(msgs[i].date.as_str()) {
            Some(t) => t,
            None => 0,
        };
        let mut p: usize = 0;
        while p < order.len() && order[p].0 >= key
            invariant
                p <= order@.len(),
                forall|k: int| 0 <= k < p ==> (#[trigger] order@[k]).0 >= key,
            decreases order.len() - p,
        {
            p += 1;
        }
        let ghost before = order@;
        proof {
            assert forall|k: int| p <= k < before.len() implies (#[trigger] before[k]).0 < key by {
                if k > p {
                    assert(before[p as int].0 >= before[k].0);
                }
            }
        }
        order.insert(p, (key, i));
        proof {
            assert forall|a: int, b: int| 0 <= a < b < order@.len() implies (#[trigger] order@[a]).1 != (#[trigger] order@[b]).1
                && order@[a].0 >= order@[b].0 && (order@[a].0 == order@[b].0 ==> order@[a].1 < order@[b].1) by {
                if b < p {
                    assert(order@[a] == before[a] && order@[b] == before[b]);
                } else if b == p {
                    assert(order@[a] == before[a]);
                } else if a == p {
                    assert(order@[b] == before[b - 1]);
                } else if a < p {
                    assert(order@[a] == before[a] && order@[b] == before[b - 1]);
                } else {
                    assert(order@[a] == before[a - 1] && order@[b] == before[b - 1]);
                }
            }
            assert forall|k: int| 0 <= k < order@.len() implies (#[trigger] order@[k]).1 < i + 1 && order@[k].0 == date_key(msgs@[order@[k].1 as int]) by {
                if k < p {
                    assert(order@[k] == before[k]);
                } else if k > p {
                    assert(order@[k] == before[k - 1]);
                }
            }
        }
        i += 1;
    }
    let mut out: Vec<ImapMessageSummary> = Vec::new();
    let mut k: usize = 0;
    while k < order.len()
        invariant
            order@.len() == msgs@.len(),
            k <= order@.len(),
            out@.len() == k,
            forall|q: int| 0 <= q < order@.len() ==> (#[trigger] order@[q]).1 < msgs@.len(),
            forall|q: int| 0 <= q < k ==> #[trigger] out@[q] == msgs@[order@[q].1 as int],
        decreases order.len() - k,
    {
        out.push(copy_imap_summary(&msgs[order[k].1]));
        k += 1;
    }
    let ghost idx = order@.map_values(|e: (i64, usize)| e.1 as int);
    proof {
        assert(newest_first(msgs@, out@, idx)) by {
            assert forall|a: int, b: int| 0 <= a < b < out@.len() implies date_key(#[trigger] out@[a]) >= date_key(#[trigger] out@[b])
                && (date_key(out@[a]) == date_key(out@[b]) ==> idx[a] < idx[b]) by {
                assert(order@[a].0 >= order@[b].0);
            }
            assert forall|a: int, b: int| 0 <= a < b < idx.len() implies #[trigger] idx[a] != #[trigger] idx[b] by {
                assert(order@[a].1 != order@[b].1);
            }
        }
    }
    out
}

} // verus!
