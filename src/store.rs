use vstd::prelude::*;
use vstd::string::{StrSliceExecFns, StringSliceAdditionalSpecFns};

use crate::draft::{draft_preview, draft_raw, draft_text, preview_from};
use crate::types::{MessageDetail, StoreSnapshot};
use crate::text::{chars_of, contains, contains_chars, ends_with, ends_with_chars, lower, lower_chars, matches_at, starts_with, starts_with_chars, trim, trim_chars};
use crate::types::SyncMode;
use crate::sync::{parse_date, parsed_date, build_sync_update, SyncUpdate, max_uid, merge_sync_state, merged_state, min_date, lemma_max_uid_bounds};
use crate::types::{Account, Folder, FolderSyncState, MessageSummary, TileMeta};

verus! {

/// Messages a store may hold: the unread counter of a folder is a `u32`.
pub const MAX_MESSAGES: usize = 4294967295;

/// A stored message row: its summary plus the recipient headers kept beside it.
#[derive(Debug, Clone)]
pub struct StoredMessage {
    pub account_id: i64,
    pub summary: MessageSummary,
    pub to: String,
    pub cc: String,
}

/// Raw MIME bytes of one message.
#[derive(Debug, Clone)]
pub struct RawBody {
    pub message_id: i64,
    pub raw: Vec<u8>,
}

/// Reflowed display text of one message at one width.
#[derive(Debug, Clone)]
pub struct TextRow {
    pub message_id: i64,
    pub width_cols: i64,
    pub text: String,
}

/// Prepared HTML of one message under one remote policy.
#[derive(Debug, Clone)]
pub struct HtmlRow {
    pub message_id: i64,
    pub remote_policy: String,
    pub html: String,
}

/// One cached image tile; `updated_at` is the least-recently-used key.
#[derive(Debug, Clone)]
pub struct TileRow {
    pub message_id: i64,
    pub width_px: i64,
    pub tile_height_px: i64,
    pub theme: String,
    pub remote_policy: String,
    pub tile_index: i64,
    pub bytes: Vec<u8>,
    pub updated_at: u64,
}

/// The offline mail cache: accounts, folders, sync state, messages and derived caches.
pub struct MemoryMailStore {
    pub accounts: Vec<Account>,
    pub folders: Vec<Folder>,
    pub sync_states: Vec<FolderSyncState>,
    pub messages: Vec<StoredMessage>,
    pub bodies: Vec<RawBody>,
    pub text_cache: Vec<TextRow>,
    pub html_cache: Vec<HtmlRow>,
    pub tiles: Vec<TileRow>,
    pub next_id: i64,
    pub clock: u64,
}

/// Number of unread messages of folder `fid` in `msgs`.
pub open spec fn unread_in(msgs: Seq<StoredMessage>, fid: i64) -> nat
    decreases msgs.len(),
{
    if msgs.len() == 0 {
        0
    } else {
        unread_in(msgs.drop_last(), fid) + if msgs.last().summary.folder_id == fid
            && msgs.last().summary.unread {
            1nat
        } else {
            0nat
        }
    }
}

pub proof fn lemma_unread_in_bound(msgs: Seq<StoredMessage>, fid: i64)
    ensures
        unread_in(msgs, fid) <= msgs.len(),
    decreases msgs.len(),
{
    if msgs.len() > 0 {
        lemma_unread_in_bound(msgs.drop_last(), fid);
    }
}

/// The uids carried by an incoming batch.
pub open spec fn batch_uids(batch: Seq<MessageSummary>) -> Set<u32> {
    Set::new(
        |u: u32| exists|j: int| 0 <= j < batch.len() && (#[trigger] batch[j]).imap_uid == Some(u),
    )
}

/// Message ids are unique, and a uid occurs at most once per folder.
pub open spec fn rows_unique(msgs: Seq<StoredMessage>) -> bool {
    &&& forall|i: int, j: int|
        0 <= i < j < msgs.len() ==> (#[trigger] msgs[i]).summary.id != (#[trigger] msgs[j]).summary.id
    &&& forall|i: int, j: int|
        0 <= i < j < msgs.len() && (#[trigger] msgs[i]).summary.folder_id == (
        #[trigger] msgs[j]).summary.folder_id && msgs[i].summary.imap_uid is Some
            ==> msgs[i].summary.imap_uid != msgs[j].summary.imap_uid
}

/// The row of message `id`, if any.
pub open spec fn row_index(msgs: Seq<StoredMessage>, id: i64, i: int) -> bool {
    0 <= i < msgs.len() && msgs[i].summary.id == id
}

/// `msgs` with every message whose id is listed placed in folder `target`.
pub open spec fn moved(msgs: Seq<StoredMessage>, ids: Seq<i64>, target: i64) -> Seq<StoredMessage> {
    msgs.map_values(
        |m: StoredMessage|
            if ids.contains(m.summary.id) {
                StoredMessage { summary: MessageSummary { folder_id: target, ..m.summary }, ..m }
            } else {
                m
            },
    )
}

/// `folders` with the unread counter of each folder listed in `affected` recomputed from `msgs`.
pub open spec fn recounted(folders: Seq<Folder>, msgs: Seq<StoredMessage>, affected: Set<i64>) -> Seq<
    Folder,
> {
    folders.map_values(
        |f: Folder|
            if affected.contains(f.id) {
                Folder { unread: unread_in(msgs, f.id) as u32, ..f }
            } else {
                f
            },
    )
}

/// Folders that held a listed message in `msgs`.
pub open spec fn folders_of(msgs: Seq<StoredMessage>, ids: Seq<i64>) -> Set<i64> {
    Set::new(
        |fid: i64|
            exists|i: int|
                0 <= i < msgs.len() && ids.contains((#[trigger] msgs[i]).summary.id)
                    && msgs[i].summary.folder_id == fid,
    )
}


pub proof fn lemma_push_contains(s: Seq<i64>, x: i64, f: i64)
    ensures
        s.push(x).contains(f) <==> (s.contains(f) || f == x),
{
    if s.push(x).contains(f) {
        let k = choose|k: int| 0 <= k < s.push(x).len() && s.push(x)[k] == f;
        if k < s.len() {
            assert(s[k] == f);
        }
    }
    if s.contains(f) {
        let k = choose|k: int| 0 <= k < s.len() && s[k] == f;
        assert(s.push(x)[k] == f);
    }
    if f == x {
        assert(s.push(x)[s.len() as int] == f);
    }
}


/// Rows of a cache table, each tied to one message.
pub trait ByMessage {
    spec fn message_key(&self) -> i64;

    fn message_id_of(&self) -> (r: i64)
        ensures
            r == self.message_key(),
    ;
}

impl ByMessage for RawBody {
    open spec fn message_key(&self) -> i64 {
        self.message_id
    }

    fn message_id_of(&self) -> (r: i64) {
        self.message_id
    }
}

impl ByMessage for TextRow {
    open spec fn message_key(&self) -> i64 {
        self.message_id
    }

    fn message_id_of(&self) -> (r: i64) {
        self.message_id
    }
}

impl ByMessage for HtmlRow {
    open spec fn message_key(&self) -> i64 {
        self.message_id
    }

    fn message_id_of(&self) -> (r: i64) {
        self.message_id
    }
}

impl ByMessage for TileRow {
    open spec fn message_key(&self) -> i64 {
        self.message_id
    }

    fn message_id_of(&self) -> (r: i64) {
        self.message_id
    }
}

/// The rows of `rows` that belong to no listed message.
pub open spec fn unlisted<T: ByMessage>(rows: Seq<T>, ids: Seq<i64>) -> Seq<T> {
    rows.filter(|r: T| !ids.contains(r.message_key()))
}

/// Removes every row that belongs to a listed message, keeping the order of the others.
pub fn purge_rows<T: ByMessage>(rows: &mut Vec<T>, ids: &[i64])
    ensures
        final(rows)@ == unlisted(old(rows)@, ids@),
{
    let mut src: Vec<T> = Vec::new();
    std::mem::swap(&mut src, rows);
    let ghost all = src@;
    let ghost j: int = 0;
    while src.len() > 0
        invariant
            0 <= j <= all.len(),
            src@ == all.subrange(j, all.len() as int),
            rows@ == unlisted(all.subrange(0, j), ids@),
        decreases src.len(),
    {
        let row = src.remove(0);
        proof {
            assert(all.subrange(0, j + 1).drop_last() =~= all.subrange(0, j));
            assert(all[j] == row);
        }
        let key = row.message_id_of();
        if !contains_id(ids, key) {
            rows.push(row);
        }
        proof {
            let s1 = all.subrange(0, j + 1);
            let p = |r: T| !ids@.contains(r.message_key());
            reveal(Seq::filter);
            assert(s1.last() == row);
            assert(s1.filter(p) == if p(s1.last()) {
                s1.drop_last().filter(p).push(s1.last())
            } else {
                s1.drop_last().filter(p)
            });
            j = j + 1;
            assert(src@ =~= all.subrange(j, all.len() as int));
        }
    }
    assert(all.subrange(0, all.len() as int) =~= all);
}

impl ByMessage for StoredMessage {
    open spec fn message_key(&self) -> i64 {
        self.summary.id
    }

    fn message_id_of(&self) -> (r: i64) {
        self.summary.id
    }
}

pub proof fn lemma_filter_len_le(s: Seq<StoredMessage>, ids: Seq<i64>)
    ensures
        unlisted(s, ids).len() <= s.len(),
{
    s.lemma_filter_len(|r: StoredMessage| !ids.contains(r.message_key()));
}

pub proof fn lemma_unique_filter_by(s: Seq<StoredMessage>, p: spec_fn(StoredMessage) -> bool)
    requires
        rows_unique(s),
    ensures
        rows_unique(s.filter(p)),
        forall|k: int| 0 <= k < s.filter(p).len() ==> s.contains(#[trigger] s.filter(p)[k]),
    decreases s.len(),
{
    reveal(Seq::filter);
    if s.len() > 0 {
        let d = s.drop_last();
        assert(rows_unique(d));
        lemma_unique_filter_by(d, p);
        let f = d.filter(p);
        assert(s.filter(p) == if p(s.last()) { f.push(s.last()) } else { f });
        assert forall|k: int| 0 <= k < f.len() implies s.contains(#[trigger] f[k]) by {
            let w = choose|w: int| 0 <= w < d.len() && d[w] == f[k];
            assert(s[w] == f[k]);
        }
        if p(s.last()) {
            let g = f.push(s.last());
            assert forall|a: int, b: int| 0 <= a < b < g.len() implies (#[trigger] g[a]).summary.id
                != (#[trigger] g[b]).summary.id && (g[a].summary.folder_id == g[b].summary.folder_id
                && g[a].summary.imap_uid is Some ==> g[a].summary.imap_uid != g[b].summary.imap_uid) by {
                if b == g.len() - 1 {
                    let w = choose|w: int| 0 <= w < d.len() && d[w] == f[a];
                    assert(s[w] == g[a]);
                    assert(s[s.len() - 1] == g[b]);
                } else {
                    assert(g[a] == f[a] && g[b] == f[b]);
                }
            }
            assert forall|k: int| 0 <= k < g.len() implies s.contains(#[trigger] g[k]) by {
                if k == g.len() - 1 {
                    assert(s[s.len() - 1] == g[k]);
                } else {
                    assert(g[k] == f[k]);
                }
            }
        }
    }
}

pub proof fn lemma_unique_filter(s: Seq<StoredMessage>, ids: Seq<i64>)
    requires
        rows_unique(s),
    ensures
        rows_unique(unlisted(s, ids)),
        forall|k: int|
            0 <= k < unlisted(s, ids).len() ==> s.contains(#[trigger] unlisted(s, ids)[k]),
{
    lemma_unique_filter_by(s, |r: StoredMessage| !ids.contains(r.message_key()));
}

/// `msgs` with the unread flag of message `id` set to `unread`.
pub open spec fn flagged(msgs: Seq<StoredMessage>, id: i64, unread: bool) -> Seq<StoredMessage> {
    msgs.map_values(
        |m: StoredMessage|
            if m.summary.id == id {
                StoredMessage { summary: MessageSummary { unread: unread, ..m.summary }, ..m }
            } else {
                m
            },
    )
}

/// A stored message row as plain values.
pub struct MessageRowView {
    pub account_id: i64,
    pub id: i64,
    pub folder_id: i64,
    pub imap_uid: Option<u32>,
    pub date: Seq<char>,
    pub from: Seq<char>,
    pub subject: Seq<char>,
    pub unread: bool,
    pub preview: Seq<char>,
    pub to: Seq<char>,
    pub cc: Seq<char>,
}

impl View for StoredMessage {
    type V = MessageRowView;

    open spec fn view(&self) -> MessageRowView {
        MessageRowView {
            account_id: self.account_id,
            id: self.summary.id,
            folder_id: self.summary.folder_id,
            imap_uid: self.summary.imap_uid,
            date: self.summary.date@,
            from: self.summary.from@,
            subject: self.summary.subject@,
            unread: self.summary.unread,
            preview: self.summary.preview@,
            to: self.to@,
            cc: self.cc@,
        }
    }
}

pub open spec fn rows_view(msgs: Seq<StoredMessage>) -> Seq<MessageRowView> {
    msgs.map_values(|m: StoredMessage| m@)
}

/// Some row of folder `fid` carries the uid `uid` (which is present).
pub open spec fn uid_taken(rows: Seq<MessageRowView>, fid: i64, uid: Option<u32>) -> bool {
    uid is Some && exists|i: int|
        0 <= i < rows.len() && (#[trigger] rows[i]).folder_id == fid && rows[i].imap_uid == uid
}

/// The uids present in folder `fid`.
pub open spec fn uids_of(rows: Seq<MessageRowView>, fid: i64) -> Set<u32> {
    Set::new(|u: u32| uid_taken(rows, fid, Some(u)))
}

/// Folder `fid` holds a row without a server uid.
pub open spec fn has_local_row(rows: Seq<MessageRowView>, fid: i64) -> bool {
    exists|i: int| 0 <= i < rows.len() && (#[trigger] rows[i]).folder_id == fid && rows[i].imap_uid is None
}

/// One incoming message merged into folder `fid`: the row with its uid is refreshed,
/// or a new row with id `next` is added. Returns the rows and the next free id.
pub open spec fn upserted(
    rows: Seq<MessageRowView>,
    fid: i64,
    account_id: i64,
    m: MessageSummary,
    next: i64,
) -> (Seq<MessageRowView>, i64) {
    if uid_taken(rows, fid, m.imap_uid) {
        let i = choose|i: int|
            0 <= i < rows.len() && (#[trigger] rows[i]).folder_id == fid && rows[i].imap_uid
                == m.imap_uid;
        (
            rows.update(
                i,
                MessageRowView {
                    date: m.date@,
                    from: m.from@,
                    subject: m.subject@,
                    unread: m.unread,
                    preview: m.preview@,
                    ..rows[i]
                },
            ),
            next,
        )
    } else {
        (
            rows.push(
                MessageRowView {
                    account_id: account_id,
                    id: next,
                    folder_id: fid,
                    imap_uid: m.imap_uid,
                    date: m.date@,
                    from: m.from@,
                    subject: m.subject@,
                    unread: m.unread,
                    preview: m.preview@,
                    to: Seq::empty(),
                    cc: Seq::empty(),
                },
            ),
            (next + 1) as i64,
        )
    }
}

/// A batch merged message by message into folder `fid`.
pub open spec fn appended(
    rows: Seq<MessageRowView>,
    fid: i64,
    account_id: i64,
    batch: Seq<MessageSummary>,
    next: i64,
) -> (Seq<MessageRowView>, i64)
    decreases batch.len(),
{
    if batch.len() == 0 {
        (rows, next)
    } else {
        let prev = appended(rows, fid, account_id, batch.drop_last(), next);
        upserted(prev.0, fid, account_id, batch.last(), prev.1)
    }
}

pub proof fn lemma_upserted_uids(rows: Seq<MessageRowView>, fid: i64, account_id: i64, m: MessageSummary, next: i64)
    ensures
        uids_of(upserted(rows, fid, account_id, m, next).0, fid) == if m.imap_uid is Some {
            uids_of(rows, fid).insert(m.imap_uid->0)
        } else {
            uids_of(rows, fid)
        },
        forall|g: i64| g != fid ==> uids_of(upserted(rows, fid, account_id, m, next).0, g) == uids_of(rows, g),
        has_local_row(upserted(rows, fid, account_id, m, next).0, fid) ==> has_local_row(rows, fid) || m.imap_uid is None,
{
    let r = upserted(rows, fid, account_id, m, next).0;
    if uid_taken(rows, fid, m.imap_uid) {
        let i = choose|i: int|
            0 <= i < rows.len() && (#[trigger] rows[i]).folder_id == fid && rows[i].imap_uid
                == m.imap_uid;
        assert forall|g: i64, u: u32| uid_taken(r, g, Some(u)) <==> uid_taken(rows, g, Some(u)) by {
            if uid_taken(r, g, Some(u)) {
                let k = choose|k: int| 0 <= k < r.len() && (#[trigger] r[k]).folder_id == g && r[k].imap_uid == Some(u);
                assert(rows[k].folder_id == g);
            }
            if uid_taken(rows, g, Some(u)) {
                let k = choose|k: int| 0 <= k < rows.len() && (#[trigger] rows[k]).folder_id == g && rows[k].imap_uid == Some(u);
                assert(r[k].folder_id == g);
            }
        }
        assert(uids_of(r, fid) =~= uids_of(rows, fid).insert(m.imap_uid->0));
        assert forall|g: i64| g != fid implies uids_of(r, g) == uids_of(rows, g) by {
            assert(uids_of(r, g) =~= uids_of(rows, g));
        }
        if has_local_row(r, fid) {
            let k = choose|k: int| 0 <= k < r.len() && (#[trigger] r[k]).folder_id == fid && r[k].imap_uid is None;
            assert(rows[k].folder_id == fid);
        }
    } else {
        assert forall|g: i64, u: u32| uid_taken(r, g, Some(u)) <==> (uid_taken(rows, g, Some(u)) || (g == fid && m.imap_uid == Some(u))) by {
            if uid_taken(r, g, Some(u)) {
                let k = choose|k: int| 0 <= k < r.len() && (#[trigger] r[k]).folder_id == g && r[k].imap_uid == Some(u);
                if k < rows.len() {
                    assert(rows[k] == r[k]);
                }
            }
            if uid_taken(rows, g, Some(u)) {
                let k = choose|k: int| 0 <= k < rows.len() && (#[trigger] rows[k]).folder_id == g && rows[k].imap_uid == Some(u);
                assert(r[k] == rows[k]);
            }
            if g == fid && m.imap_uid == Some(u) {
                assert(r[rows.len() as int].folder_id == g);
            }
        }
        assert(uids_of(r, fid) =~= if m.imap_uid is Some {
            uids_of(rows, fid).insert(m.imap_uid->0)
        } else {
            uids_of(rows, fid)
        });
        assert forall|g: i64| g != fid implies uids_of(r, g) == uids_of(rows, g) by {
            assert(uids_of(r, g) =~= uids_of(rows, g));
        }
        if has_local_row(r, fid) {
            let k = choose|k: int| 0 <= k < r.len() && (#[trigger] r[k]).folder_id == fid && r[k].imap_uid is None;
            if k < rows.len() {
                assert(rows[k] == r[k]);
            }
        }
    }
}

/// Merging a batch adds exactly the batch's uids to folder `fid`, leaves the uids of every
/// other folder alone, and adds a row without uid only for a batch message without uid.
pub proof fn lemma_appended_uids(rows: Seq<MessageRowView>, fid: i64, account_id: i64, batch: Seq<MessageSummary>, next: i64)
    ensures
        uids_of(appended(rows, fid, account_id, batch, next).0, fid) == uids_of(rows, fid).union(batch_uids(batch)),
        forall|g: i64| g != fid ==> uids_of(appended(rows, fid, account_id, batch, next).0, g) == uids_of(rows, g),
        has_local_row(appended(rows, fid, account_id, batch, next).0, fid) ==> has_local_row(rows, fid)
            || exists|j: int| 0 <= j < batch.len() && (#[trigger] batch[j]).imap_uid is None,
    decreases batch.len(),
{
    if batch.len() == 0 {
        assert(batch_uids(batch) =~= Set::empty());
        assert(uids_of(rows, fid).union(batch_uids(batch)) =~= uids_of(rows, fid));
    } else {
        let d = batch.drop_last();
        lemma_appended_uids(rows, fid, account_id, d, next);
        let prev = appended(rows, fid, account_id, d, next);
        lemma_upserted_uids(prev.0, fid, account_id, batch.last(), prev.1);
        assert forall|u: u32| batch_uids(batch).contains(u) <==> (batch_uids(d).contains(u) || batch.last().imap_uid == Some(u)) by {
            if batch_uids(batch).contains(u) {
                let j = choose|j: int| 0 <= j < batch.len() && (#[trigger] batch[j]).imap_uid == Some(u);
                if j < d.len() {
                    assert(d[j] == batch[j]);
                }
            }
            if batch_uids(d).contains(u) {
                let j = choose|j: int| 0 <= j < d.len() && (#[trigger] d[j]).imap_uid == Some(u);
                assert(batch[j] == d[j]);
            }
        }
        assert(uids_of(appended(rows, fid, account_id, batch, next).0, fid) =~= uids_of(rows, fid).union(batch_uids(batch)));
        if has_local_row(appended(rows, fid, account_id, batch, next).0, fid) && !has_local_row(rows, fid) {
            if batch.last().imap_uid is None {
                assert(batch[batch.len() - 1].imap_uid is None);
            } else {
                let j = choose|j: int| 0 <= j < d.len() && (#[trigger] d[j]).imap_uid is None;
                assert(batch[j] == d[j]);
            }
        }
    }
}

/// Row `m` of folder `fid` has no uid, or a uid that the batch does not carry.
pub open spec fn is_stale(m: StoredMessage, fid: i64, batch: Seq<MessageSummary>) -> bool {
    m.summary.folder_id == fid && (m.summary.imap_uid is None || !batch_uids(batch).contains(
        m.summary.imap_uid->0,
    ))
}

/// Ids of the rows that a full replace of folder `fid` by `batch` removes, in row order.
pub open spec fn stale_ids(msgs: Seq<StoredMessage>, fid: i64, batch: Seq<MessageSummary>) -> Seq<i64> {
    msgs.filter(|m: StoredMessage| is_stale(m, fid, batch)).map_values(|m: StoredMessage| m.summary.id)
}

/// Whether the batch carries uid `u`.
pub fn batch_has_uid(batch: &[MessageSummary], u: u32) -> (r: bool)
    ensures
        r == batch_uids(batch@).contains(u),
{
    let mut j: usize = 0;
    while j < batch.len()
        invariant
            j <= batch@.len(),
            forall|k: int| 0 <= k < j ==> batch@[k].imap_uid != Some(u),
        decreases batch.len() - j,
    {
        if batch[j].imap_uid == Some(u) {
            assert(batch@[j as int].imap_uid == Some(u));
            return true;
        }
        j += 1;
    }
    false
}

pub proof fn lemma_kept_rows(msgs: Seq<StoredMessage>, fid: i64, batch: Seq<MessageSummary>)
    ensures
        uids_of(rows_view(unlisted(msgs, stale_ids(msgs, fid, batch))), fid).subset_of(batch_uids(batch)),
        !has_local_row(rows_view(unlisted(msgs, stale_ids(msgs, fid, batch))), fid),
{
    let ids = stale_ids(msgs, fid, batch);
    let kept = unlisted(msgs, ids);
    let st = |m: StoredMessage| is_stale(m, fid, batch);
    let pk = |r: StoredMessage| !ids.contains(r.message_key());
    kept.lemma_filter_len(pk);
    #[allow(deprecated)]
    msgs.filter_lemma(pk);
    #[allow(deprecated)]
    msgs.filter_lemma(st);
    assert forall|k: int| 0 <= k < kept.len() implies !is_stale(#[trigger] kept[k], fid, batch) by {
        let e = kept[k];
        assert(pk(e));
        msgs.lemma_filter_contains_rev(pk, e);
        if is_stale(e, fid, batch) {
            let w = choose|w: int| 0 <= w < msgs.len() && msgs[w] == e;
            assert(msgs.filter(st).contains(msgs[w]));
            let v = choose|v: int| 0 <= v < msgs.filter(st).len() && msgs.filter(st)[v] == e;
            assert(ids[v] == e.summary.id);
        }
    }
    let rv = rows_view(kept);
    assert forall|u: u32| uids_of(rv, fid).contains(u) implies batch_uids(batch).contains(u) by {
        let k = choose|k: int| 0 <= k < rv.len() && (#[trigger] rv[k]).folder_id == fid && rv[k].imap_uid == Some(u);
        assert(!is_stale(kept[k], fid, batch));
    }
    if has_local_row(rv, fid) {
        let k = choose|k: int| 0 <= k < rv.len() && (#[trigger] rv[k]).folder_id == fid && rv[k].imap_uid is None;
        assert(!is_stale(kept[k], fid, batch));
    }
}

pub proof fn lemma_upserted_len(rows: Seq<MessageRowView>, fid: i64, account_id: i64, m: MessageSummary, next: i64)
    ensures
        upserted(rows, fid, account_id, m, next).0.len() <= rows.len() + 1,
        upserted(rows, fid, account_id, m, next).1 <= next + 1,
{
}

pub proof fn lemma_unlisted_within(rows: Seq<TileRow>, ids: Seq<i64>, clock: u64)
    requires
        forall|k: int| 0 <= k < rows.len() ==> (#[trigger] rows[k]).updated_at <= clock,
    ensures
        forall|k: int|
            0 <= k < unlisted(rows, ids).len() ==> (#[trigger] unlisted(rows, ids)[k]).updated_at <= clock,
{
    let p = |r: TileRow| !ids.contains(r.message_key());
    assert forall|k: int| 0 <= k < unlisted(rows, ids).len() implies (#[trigger] unlisted(rows, ids)[k]).updated_at <= clock by {
        let e = unlisted(rows, ids)[k];
        assert(rows.filter(p).contains(e));
        rows.lemma_filter_contains_rev(p, e);
    }
}

/// Row `t` belongs to the tile set of one rendering.
pub open spec fn tile_key(t: TileRow, mid: i64, w: i64, h: i64, theme: Seq<char>, policy: Seq<char>) -> bool {
    t.message_id == mid && t.width_px == w && t.tile_height_px == h && t.theme@ == theme
        && t.remote_policy@ == policy
}

/// Total bytes held by tile rows.
pub open spec fn tile_bytes(s: Seq<TileRow>) -> int
    decreases s.len(),
{
    if s.len() == 0 {
        0
    } else {
        tile_bytes(s.drop_last()) + s.last().bytes@.len()
    }
}

pub proof fn lemma_tile_bytes_nonneg(s: Seq<TileRow>)
    ensures
        tile_bytes(s) >= 0,
    decreases s.len(),
{
    if s.len() > 0 {
        lemma_tile_bytes_nonneg(s.drop_last());
    }
}

pub fn copy_bytes(v: &Vec<u8>) -> (r: Vec<u8>)
    ensures
        r@ == v@,
{
    let mut out: Vec<u8> = Vec::new();
    let mut i: usize = 0;
    while i < v.len()
        invariant
            i <= v@.len(),
            out@ == v@.subrange(0, i as int),
        decreases v.len() - i,
    {
        out.push(v[i]);
        i += 1;
    }
    assert(v@.subrange(0, v@.len() as int) =~= v@);
    out
}

pub fn str_eq(a: &String, b: &str) -> (r: bool)
    ensures
        r == (a@ == b@),
{
    let x = crate::text::chars_of(a.as_str());
    let y = crate::text::chars_of(b);
    if x.len() != y.len() {
        return false;
    }
    let r = crate::text::matches_at(&x, &y, 0);
    proof {
        assert(x@.subrange(0, y@.len() as int) =~= x@);
    }
    r
}

/// Some row of the given rendering holds tile `idx` and was stamped at `now`.
pub open spec fn tile_present(rows: Seq<TileRow>, mid: i64, w: i64, h: i64, theme: Seq<char>, policy: Seq<char>, idx: i64, now: u64) -> bool {
    exists|k: int|
        0 <= k < rows.len() && tile_key(#[trigger] rows[k], mid, w, h, theme, policy) && rows[k].tile_index == idx
            && rows[k].updated_at == now
}

/// Total tile bytes, saturated at the largest `i64`.
pub open spec fn saturated_bytes(s: Seq<TileRow>) -> int {
    if tile_bytes(s) < i64::MAX {
        tile_bytes(s)
    } else {
        i64::MAX as int
    }
}

/// The sync state recorded for folder `fid`: the first row that names it.
pub open spec fn state_of(states: Seq<FolderSyncState>, fid: i64) -> Option<FolderSyncState>
    decreases states.len(),
{
    if states.len() == 0 {
        None
    } else if states[0].folder_id == fid {
        Some(states[0])
    } else {
        state_of(states.drop_first(), fid)
    }
}

/// The sync state's highest seen uid is at least every uid that folder `fid` holds.
pub open spec fn covers_uids(st: Option<FolderSyncState>, rows: Seq<MessageRowView>, fid: i64) -> bool {
    forall|u: u32|
        #[trigger] uids_of(rows, fid).contains(u) ==> (st matches Some(s) && (s.last_seen_uid matches Some(l)
            && u as i64 <= l))
}

/// A sync batch merged into folder `fid` together with the update built from that same
/// batch keeps the folder's highest seen uid at or above every uid the folder holds.
pub proof fn lemma_sync_keeps_uid_watermark(
    rows: Seq<MessageRowView>,
    fid: i64,
    account_id: i64,
    batch: Seq<MessageSummary>,
    next: i64,
    existing: Option<FolderSyncState>,
    now: i64,
)
    requires
        covers_uids(existing, rows, fid),
    ensures
        covers_uids(
            Some(
                merged_state(
                    existing,
                    fid,
                    SyncUpdate { last_seen_uid: max_uid(batch), oldest_ts: min_date(batch), last_sync_ts: now },
                ),
            ),
            appended(rows, fid, account_id, batch, next).0,
            fid,
        ),
{
    lemma_appended_uids(rows, fid, account_id, batch, next);
    lemma_max_uid_bounds(batch);
    let after = appended(rows, fid, account_id, batch, next).0;
    assert forall|u: u32| #[trigger] uids_of(after, fid).contains(u) implies ({
        let st = merged_state(existing, fid, SyncUpdate { last_seen_uid: max_uid(batch), oldest_ts: min_date(batch), last_sync_ts: now });
        (st.last_seen_uid matches Some(l) && u as i64 <= l)
    }) by {
        if batch_uids(batch).contains(u) {
            let j = choose|j: int| 0 <= j < batch.len() && (#[trigger] batch[j]).imap_uid == Some(u);
            assert(batch[j].imap_uid is Some);
        } else {
            assert(uids_of(rows, fid).contains(u));
        }
    }
}

pub proof fn lemma_state_of_prefix(s: Seq<FolderSyncState>, k: int, fid: i64)
    requires
        0 <= k <= s.len(),
        forall|j: int| 0 <= j < k ==> (#[trigger] s[j]).folder_id != fid,
    ensures
        state_of(s, fid) == state_of(s.subrange(k, s.len() as int), fid),
    decreases k,
{
    if k > 0 {
        assert(s.drop_first().subrange(k - 1, s.drop_first().len() as int) =~= s.subrange(k, s.len() as int));
        lemma_state_of_prefix(s.drop_first(), k - 1, fid);
    } else {
        assert(s.subrange(0, s.len() as int) =~= s);
    }
}

pub proof fn lemma_state_of_update(s: Seq<FolderSyncState>, k: int, st: FolderSyncState)
    requires
        0 <= k < s.len(),
        s[k].folder_id == st.folder_id,
        forall|j: int| 0 <= j < k ==> (#[trigger] s[j]).folder_id != st.folder_id,
    ensures
        state_of(s.update(k, st), st.folder_id) == Some(st),
        forall|g: i64| g != st.folder_id ==> state_of(s.update(k, st), g) == state_of(s, g),
    decreases k,
{
    if k > 0 {
        assert(s.update(k, st).drop_first() =~= s.drop_first().update(k - 1, st));
        lemma_state_of_update(s.drop_first(), k - 1, st);
        assert forall|g: i64| g != st.folder_id implies state_of(s.update(k, st), g) == state_of(s, g) by {
            let u = s.update(k, st);
            assert(u[0] == s[0]);
            assert(u.len() > 0);
            if s[0].folder_id != g {
                assert(state_of(u, g) == state_of(u.drop_first(), g));
                assert(state_of(s, g) == state_of(s.drop_first(), g));
                assert(state_of(s.drop_first().update(k - 1, st), g) == state_of(s.drop_first(), g));
            }
        }
    } else {
        assert(s.update(0, st).drop_first() =~= s.drop_first());
        assert forall|g: i64| g != st.folder_id implies state_of(s.update(k, st), g) == state_of(s, g) by {
            assert(s.update(k, st)[0] == st);
        }
    }
}

pub proof fn lemma_state_of_push(s: Seq<FolderSyncState>, st: FolderSyncState)
    requires
        forall|j: int| 0 <= j < s.len() ==> (#[trigger] s[j]).folder_id != st.folder_id,
    ensures
        state_of(s.push(st), st.folder_id) == Some(st),
        forall|g: i64| g != st.folder_id ==> state_of(s.push(st), g) == state_of(s, g),
    decreases s.len(),
{
    if s.len() > 0 {
        assert(s.push(st).drop_first() =~= s.drop_first().push(st));
        lemma_state_of_push(s.drop_first(), st);
        assert forall|g: i64| g != st.folder_id implies state_of(s.push(st), g) == state_of(s, g) by {
            let u = s.push(st);
            assert(u[0] == s[0]);
            if s[0].folder_id != g {
                assert(state_of(u, g) == state_of(u.drop_first(), g));
                assert(state_of(s, g) == state_of(s.drop_first(), g));
                assert(state_of(s.drop_first().push(st), g) == state_of(s.drop_first(), g));
            }
        }
    } else {
        assert(s.push(st).drop_first() =~= s);
        assert forall|g: i64| g != st.folder_id implies state_of(s.push(st), g) == state_of(s, g) by {
            assert(s.push(st)[0] == st);
            assert(s.push(st).drop_first().len() == 0);
        }
    }
}

/// Some incoming folder carries the name `name`.
pub open spec fn name_listed(incoming: Seq<Folder>, name: Seq<char>) -> bool {
    exists|j: int| 0 <= j < incoming.len() && (#[trigger] incoming[j]).name@ == name
}

/// Folder `f` belongs to the account and is absent from the incoming list.
pub open spec fn folder_dropped(f: Folder, account_id: i64, incoming: Seq<Folder>) -> bool {
    f.account_id == account_id && !name_listed(incoming, f.name@)
}

/// Folder id `fid` names a folder that the incoming list drops.
pub open spec fn fid_dropped(folders: Seq<Folder>, account_id: i64, incoming: Seq<Folder>, fid: i64) -> bool {
    exists|k: int| 0 <= k < folders.len() && (#[trigger] folders[k]).id == fid && folder_dropped(folders[k], account_id, incoming)
}

/// Ids of the messages that sit in dropped folders, in row order.
pub open spec fn orphan_ids(msgs: Seq<StoredMessage>, folders: Seq<Folder>, account_id: i64, incoming: Seq<Folder>) -> Seq<i64> {
    msgs.filter(|m: StoredMessage| fid_dropped(folders, account_id, incoming, m.summary.folder_id)).map_values(
        |m: StoredMessage| m.summary.id,
    )
}

pub fn name_in(incoming: &[Folder], name: &String) -> (r: bool)
    ensures
        r == name_listed(incoming@, name@),
{
    let mut j: usize = 0;
    while j < incoming.len()
        invariant
            j <= incoming@.len(),
            forall|q: int| 0 <= q < j ==> (#[trigger] incoming@[q]).name@ != name@,
        decreases incoming.len() - j,
    {
        if incoming[j].name == *name {
            return true;
        }
        j += 1;
    }
    false
}

pub fn copy_folder(f: &Folder) -> (r: Folder)
    ensures
        r == *f,
{
    Folder { id: f.id, account_id: f.account_id, name: f.name.clone(), unread: f.unread }
}

/// A folder with the id, account and name of `f` stands in `folders`.
pub open spec fn same_folder_in(folders: Seq<Folder>, f: Folder) -> bool {
    exists|k: int| 0 <= k < folders.len() && (#[trigger] folders[k]).id == f.id && folders[k].account_id == f.account_id
        && folders[k].name@ == f.name@
}

/// Some folder of the account carries the name.
pub open spec fn has_folder_named(folders: Seq<Folder>, account_id: i64, name: Seq<char>) -> bool {
    exists|k: int| 0 <= k < folders.len() && (#[trigger] folders[k]).account_id == account_id && folders[k].name@ == name
}

/// Some folder of the account with id `id` is named `name`.
pub open spec fn folder_present(folders: Seq<Folder>, id: i64, account_id: i64, name: Seq<char>) -> bool {
    exists|k: int|
        0 <= k < folders.len() && (#[trigger] folders[k]).id == id && folders[k].account_id == account_id
            && folders[k].name@ == name
}

/// Width in columns of the display text kept for the reader pane.
pub const DEFAULT_TEXT_WIDTH: i64 = 80;

/// The display text cached for message `id` at the default width: the latest such row.
pub open spec fn text_of(rows: Seq<TextRow>, id: i64) -> Option<Seq<char>>
    decreases rows.len(),
{
    if rows.len() == 0 {
        None
    } else if rows.last().message_id == id && rows.last().width_cols == DEFAULT_TEXT_WIDTH {
        Some(rows.last().text@)
    } else {
        text_of(rows.drop_last(), id)
    }
}

/// A raw body is stored for message `id`.
pub open spec fn has_body(rows: Seq<RawBody>, id: i64) -> bool {
    exists|k: int| 0 <= k < rows.len() && (#[trigger] rows[k]).message_id == id
}

/// The detail view of a message, with `body` as its display text.
pub open spec fn detail_matches(d: MessageDetail, m: StoredMessage, body: Seq<char>) -> bool {
    &&& d.id == m.summary.id
    &&& d.subject@ == m.summary.subject@
    &&& d.from@ == m.summary.from@
    &&& d.to@ == m.to@
    &&& d.cc@ == m.cc@
    &&& d.date@ == m.summary.date@
    &&& d.body@ == body
    &&& d.links@.len() == 0
    &&& d.attachments@.len() == 0
}

/// The UTF-8 bytes of a string.
pub fn utf8_bytes(s: &str) -> (r: Vec<u8>)
    ensures
        r@ == s.spec_bytes(),
{
    s.as_bytes_vec()
}

/// A string holding the characters of `s`.
pub fn string_of_str(s: &str) -> (r: String)
    ensures
        r@ == s@,
{
    crate::text::string_of(&crate::text::chars_of(s))
}

/// Some detail in `details` shows message `m` with body `body`.
pub open spec fn has_detail(details: Seq<MessageDetail>, m: StoredMessage, body: Seq<char>) -> bool {
    exists|d: int| 0 <= d < details.len() && detail_matches(#[trigger] details[d], m, body)
}

/// After a recount, every recounted folder's unread counter equals the number of unread
/// messages it holds.
pub proof fn lemma_recount_consistent(folders: Seq<Folder>, msgs: Seq<StoredMessage>, affected: Set<i64>)
    requires
        msgs.len() <= MAX_MESSAGES,
    ensures
        forall|k: int|
            0 <= k < folders.len() && affected.contains(folders[k].id) ==> (#[trigger] recounted(folders, msgs, affected)[k]).unread
                == unread_in(msgs, folders[k].id),
{
    assert forall|k: int| 0 <= k < folders.len() && affected.contains(folders[k].id) implies (#[trigger] recounted(folders, msgs, affected)[k]).unread
        == unread_in(msgs, folders[k].id) by {
        lemma_unread_in_bound(msgs, folders[k].id);
    }
}

/// Moving one message to another folder and back restores the messages, and the unread
/// counters of both folders, provided those counters agreed with the messages before.
pub proof fn lemma_move_round_trip(msgs: Seq<StoredMessage>, folders: Seq<Folder>, m: i64, from: i64, to: i64)
    requires
        msgs.len() <= MAX_MESSAGES,
        rows_unique(msgs),
        exists|i: int| 0 <= i < msgs.len() && (#[trigger] msgs[i]).summary.id == m && msgs[i].summary.folder_id == from,
        forall|k: int|
            0 <= k < folders.len() && ((#[trigger] folders[k]).id == from || folders[k].id == to) ==> folders[k].unread
                == unread_in(msgs, folders[k].id),
    ensures
        moved(moved(msgs, seq![m], to), seq![m], from) == msgs,
        rows_unique(moved(moved(msgs, seq![m], to), seq![m], from)),
        folders_of(msgs, seq![m]).insert(to) == set![from, to],
        folders_of(moved(msgs, seq![m], to), seq![m]).insert(from) == set![to, from],
        recounted(
            recounted(folders, moved(msgs, seq![m], to), set![from, to]),
            moved(moved(msgs, seq![m], to), seq![m], from),
            set![to, from],
        ) == folders,
{
    let i = choose|i: int| 0 <= i < msgs.len() && (#[trigger] msgs[i]).summary.id == m && msgs[i].summary.folder_id == from;
    let once = moved(msgs, seq![m], to);
    let twice = moved(once, seq![m], from);
    assert(seq![m].contains(m)) by {
        assert(seq![m][0] == m);
    }
    assert forall|j: int| 0 <= j < msgs.len() implies #[trigger] twice[j] == msgs[j] by {
        if msgs[j].summary.id == m {
            if j != i {
                if j < i {
                    assert(msgs[j].summary.id != msgs[i].summary.id);
                } else {
                    assert(msgs[i].summary.id != msgs[j].summary.id);
                }
            }
        } else {
            assert(!seq![m].contains(msgs[j].summary.id));
        }
    }
    assert(twice =~= msgs);
    assert(folders_of(msgs, seq![m]).insert(to) =~= set![from, to]) by {
        assert(folders_of(msgs, seq![m]).contains(from)) by {
            assert(seq![m].contains(msgs[i].summary.id));
        }
        assert forall|f: i64| folders_of(msgs, seq![m]).contains(f) implies f == from by {
            let j = choose|j: int| 0 <= j < msgs.len() && seq![m].contains((#[trigger] msgs[j]).summary.id) && msgs[j].summary.folder_id == f;
            assert(msgs[j].summary.id == m);
            if j != i {
                if j < i {
                    assert(msgs[j].summary.id != msgs[i].summary.id);
                } else {
                    assert(msgs[i].summary.id != msgs[j].summary.id);
                }
            }
        }
    }
    assert(folders_of(once, seq![m]).insert(from) =~= set![to, from]) by {
        assert(folders_of(once, seq![m]).contains(to)) by {
            assert(seq![m].contains(once[i].summary.id));
        }
        assert forall|f: i64| folders_of(once, seq![m]).contains(f) implies f == to by {
            let j = choose|j: int| 0 <= j < once.len() && seq![m].contains((#[trigger] once[j]).summary.id) && once[j].summary.folder_id == f;
            assert(once[j].summary.id == msgs[j].summary.id);
        }
    }
    let r1 = recounted(folders, once, set![from, to]);
    let r2 = recounted(r1, twice, set![to, from]);
    assert forall|k: int| 0 <= k < folders.len() implies #[trigger] r2[k] == folders[k] by {
        if folders[k].id == from || folders[k].id == to {
            lemma_unread_in_bound(msgs, folders[k].id);
            assert(set![to, from].contains(folders[k].id));
        } else {
            assert(!set![from, to].contains(folders[k].id));
            assert(!set![to, from].contains(folders[k].id));
        }
    }
    assert(r2 =~= folders);
}

/// A saved draft, read back through a snapshot, shows the body and recipients it was saved
/// with.
pub proof fn lemma_draft_round_trip(
    msgs: Seq<StoredMessage>,
    texts: Seq<TextRow>,
    details: Seq<MessageDetail>,
    account_id: i64,
    id: i64,
    to: Seq<char>,
    cc: Seq<char>,
    body: Seq<char>,
)
    requires
        msgs.len() > 0,
        msgs.last().account_id == account_id,
        msgs.last().summary.id == id,
        msgs.last().to@ == to,
        msgs.last().cc@ == cc,
        text_of(texts, id) == Some(body),
        forall|i: int|
            0 <= i < msgs.len() && (#[trigger] msgs[i]).account_id == account_id && text_of(texts, msgs[i].summary.id) is Some
                ==> has_detail(details, msgs[i], text_of(texts, msgs[i].summary.id)->0),
    ensures
        exists|d: int|
            0 <= d < details.len() && (#[trigger] details[d]).id == id && details[d].body@ == body && details[d].to@ == to
                && details[d].cc@ == cc,
{
    let last = msgs.len() - 1;
    assert(msgs[last] == msgs.last());
    assert(has_detail(details, msgs[last], body));
}

/// The account with id 1, if any.
pub open spec fn account_one(accounts: Seq<Account>) -> Option<Account>
    decreases accounts.len(),
{
    if accounts.len() == 0 {
        None
    } else if accounts[0].id == 1 {
        Some(accounts[0])
    } else {
        account_one(accounts.drop_first())
    }
}

/// The label names the work demo.
pub open spec fn work_label(label: Seq<char>) -> bool {
    contains(lower(trim(label)), "work"@)
}

pub open spec fn demo_address(label: Seq<char>) -> Seq<char> {
    if work_label(label) {
        "work@ratmail-demo.local"@
    } else {
        "personal@ratmail-demo.local"@
    }
}

pub open spec fn demo_name(label: Seq<char>) -> Seq<char> {
    if trim(label).len() == 0 {
        "Ratmail Demo"@
    } else {
        trim(label)
    }
}

pub open spec fn demo_folder_names() -> Seq<Seq<char>> {
    seq!["INBOX"@, "Sent"@, "Drafts"@, "Archive"@, "Promotions"@, "Orders"@]
}

/// An account that an earlier demo installed, or a placeholder one.
pub open spec fn demo_like(a: Account, label: Seq<char>) -> bool {
    a.name@ == "personal@example.com"@ || a.address@ == "personal@example.com"@ || starts_with(
        a.name@,
        "Ratmail Demo"@,
    ) || ((lower(trim(label)) == "personal"@ || lower(trim(label)) == "work"@) && a.address@ != demo_address(label))
        || ends_with(a.address@, "@ratmail-demo.local"@)
}

fn same_chars(a: &[char], b: &[char]) -> (r: bool)
    ensures
        r == (a@ == b@),
{
    if a.len() != b.len() {
        return false;
    }
    let r = matches_at(a, b, 0);
    assert(a@.subrange(0, b@.len() as int) =~= a@);
    r
}

fn is_work_label(trimmed: &Vec<char>) -> (r: bool)
    ensures
        r == contains(lower(trimmed@), "work"@),
{
    contains_chars(&lower_chars(trimmed), &chars_of("work"))
}

fn demo_like_exec(a: &Account, label: &str) -> (r: bool)
    ensures
        r == demo_like(*a, label@),
{
    let name = chars_of(a.name.as_str());
    let address = chars_of(a.address.as_str());
    let t = trim_chars(&chars_of(label));
    let lt = lower_chars(&t);
    let work = is_work_label(&t);
    let expected = if work { chars_of("work@ratmail-demo.local") } else { chars_of("personal@ratmail-demo.local") };
    let placeholder = chars_of("personal@example.com");
    same_chars(&name, &placeholder) || same_chars(&address, &placeholder) || starts_with_chars(&name, &chars_of("Ratmail Demo"))
        || ((same_chars(&lt, &chars_of("personal")) || same_chars(&lt, &chars_of("work"))) && !same_chars(&address, &expected))
        || ends_with_chars(&address, &chars_of("@ratmail-demo.local"))
}

/// A sync in this mode replaces the folder's rows: an initial sync of an empty folder.
pub open spec fn replaces(mode: SyncMode, msgs: Seq<StoredMessage>, fid: i64) -> bool {
    mode is Initial && !exists|i: int| 0 <= i < msgs.len() && (#[trigger] msgs[i]).summary.folder_id == fid
}

/// The sort key of a listed message: its parsed date (0 when unparsable) and its id.
pub open spec fn list_key(m: StoredMessage) -> (i64, i64) {
    (match parsed_date(m.summary.date@) {
        Some(t) => t,
        None => 0,
    }, m.summary.id)
}

/// `a` is listed before `b`: newer first, then higher id first.
pub open spec fn listed_before(a: (i64, i64), b: (i64, i64)) -> bool {
    a.0 > b.0 || (a.0 == b.0 && a.1 > b.1)
}

/// Message `m` passes the listing filters.
pub open spec fn list_filter(m: StoredMessage, account_id: i64, folder_id: Option<i64>, unread: Option<bool>, since_ts: Option<i64>) -> bool {
    &&& m.account_id == account_id
    &&& (folder_id matches Some(f) ==> m.summary.folder_id == f)
    &&& (unread matches Some(u) ==> m.summary.unread == u)
    &&& (since_ts matches Some(t) ==> list_key(m).0 >= t)
}

/// Summary `s` is that of a message that passes the listing filters.
pub open spec fn listed_from(msgs: Seq<StoredMessage>, s: MessageSummary, account_id: i64, folder_id: Option<i64>, unread: Option<bool>, since_ts: Option<i64>) -> bool {
    exists|i: int| 0 <= i < msgs.len() && list_filter(#[trigger] msgs[i], account_id, folder_id, unread, since_ts) && s == msgs[i].summary
}

fn key_before(a: (i64, i64), b: (i64, i64)) -> (r: bool)
    ensures
        r == listed_before(a, b),
{
    a.0 > b.0 || (a.0 == b.0 && a.1 > b.1)
}

/// Tile `t` comes from a row of the given rendering, with the rendering's tile height.
pub open spec fn tile_served(rows: Seq<TileRow>, t: TileMeta, mid: i64, w: i64, h: i64, theme: Seq<char>, policy: Seq<char>) -> bool {
    exists|j: int| 0 <= j < rows.len() && tile_key(#[trigger] rows[j], mid, w, h, theme, policy) && t.tile_index == rows[j].tile_index
        && t.height_px == h && t.bytes@ == rows[j].bytes@
}

/// A list of distinct rows that names every matching row and only those has as many entries
/// as there are matching rows.
pub proof fn lemma_order_counts(rows: Seq<TileRow>, order: Seq<(i64, usize)>, mid: i64, w: i64, h: i64, theme: Seq<char>, policy: Seq<char>)
    requires
        forall|k: int| 0 <= k < order.len() ==> (#[trigger] order[k]).1 < rows.len() && tile_key(rows[order[k].1 as int], mid, w, h, theme, policy),
        forall|j: int| 0 <= j < rows.len() && tile_key(#[trigger] rows[j], mid, w, h, theme, policy) ==> exists|k: int| 0 <= k < order.len() && order[k].1 == j,
        forall|a: int, b: int| 0 <= a < b < order.len() ==> (#[trigger] order[a]).1 != (#[trigger] order[b]).1,
    ensures
        order.len() == rows.filter(|t: TileRow| tile_key(t, mid, w, h, theme, policy)).len(),
{
    let p = |t: TileRow| tile_key(t, mid, w, h, theme, policy);
    let matching = Set::new(|j: int| 0 <= j < rows.len() && p(rows[j]));
    let ids = order.map_values(|e: (i64, usize)| e.1 as int);
    let named = ids.to_set();
    assert(named =~= matching) by {
        assert forall|j: int| named.contains(j) implies matching.contains(j) by {
            let k = choose|k: int| 0 <= k < ids.len() && #[trigger] ids[k] == j;
            assert(order[k].1 == j);
        }
        assert forall|j: int| matching.contains(j) implies named.contains(j) by {
            let k = choose|k: int| 0 <= k < order.len() && order[k].1 == j;
            assert(ids[k] == j);
        }
    }
    assert(ids.no_duplicates()) by {
        assert forall|a: int, b: int| 0 <= a < ids.len() && 0 <= b < ids.len() && a != b implies ids[a] != ids[b] by {
            if a < b {
                assert(order[a].1 != order[b].1);
            } else {
                assert(order[b].1 != order[a].1);
            }
        }
    }
    ids.unique_seq_to_set();
    lemma_filter_count(rows, p, rows.len() as int);
    assert(matching =~= Set::new(|j: int| 0 <= j < rows.len() as int && p(rows[j])));
}

/// The matching positions below `n` number as many as the filtered prefix.
pub proof fn lemma_filter_count(rows: Seq<TileRow>, p: spec_fn(TileRow) -> bool, n: int)
    requires
        0 <= n <= rows.len(),
    ensures
        Set::new(|j: int| 0 <= j < n && p(rows[j])).finite(),
        Set::new(|j: int| 0 <= j < n && p(rows[j])).len() == rows.subrange(0, n).filter(p).len(),
        n == rows.len() ==> Set::new(|j: int| 0 <= j < n && p(rows[j])).len() == rows.filter(p).len(),
    decreases n,
{
    reveal(Seq::filter);
    let s = Set::new(|j: int| 0 <= j < n && p(rows[j]));
    if n == 0 {
        assert(s =~= Set::empty());
        assert(rows.subrange(0, 0).filter(p) =~= Seq::<TileRow>::empty());
    } else {
        lemma_filter_count(rows, p, n - 1);
        let s0 = Set::new(|j: int| 0 <= j < n - 1 && p(rows[j]));
        let sub = rows.subrange(0, n);
        assert(sub.drop_last() =~= rows.subrange(0, n - 1));
        assert(sub.last() == rows[n - 1]);
        if p(rows[n - 1]) {
            assert(s =~= s0.insert(n - 1));
        } else {
            assert(s =~= s0);
        }
    }
    if n == rows.len() {
        assert(rows.subrange(0, n) =~= rows);
    }
}

/// No tile after position `i` and before `end` has the index of tile `i`.
pub open spec fn last_with_index(tiles: Seq<TileMeta>, i: int, end: int) -> bool {
    forall|k: int| i < k < end ==> (#[trigger] tiles[k]).tile_index != tiles[i].tile_index
}

/// Some row of the given rendering holds tile `idx` with these bytes.
pub open spec fn tile_holds(rows: Seq<TileRow>, mid: i64, w: i64, h: i64, theme: Seq<char>, policy: Seq<char>, idx: i64, bytes: Seq<u8>) -> bool {
    exists|k: int|
        0 <= k < rows.len() && tile_key(#[trigger] rows[k], mid, w, h, theme, policy) && rows[k].tile_index == idx
            && rows[k].bytes@ == bytes
}

/// `msgs` with the unread flag of every listed id set to `unread`, in list order.
pub open spec fn flagged_all(msgs: Seq<StoredMessage>, ids: Seq<i64>, unread: bool) -> Seq<StoredMessage>
    decreases ids.len(),
{
    if ids.len() == 0 {
        msgs
    } else {
        flagged(flagged_all(msgs, ids.drop_last(), unread), ids.last(), unread)
    }
}

/// Flagging messages of other folders leaves a folder's unread count alone.
pub proof fn lemma_unread_flag_other(msgs: Seq<StoredMessage>, id: i64, unread: bool, fid: i64)
    requires
        forall|i: int| 0 <= i < msgs.len() && (#[trigger] msgs[i]).summary.id == id ==> msgs[i].summary.folder_id != fid,
    ensures
        unread_in(flagged(msgs, id, unread), fid) == unread_in(msgs, fid),
    decreases msgs.len(),
{
    if msgs.len() > 0 {
        let d = msgs.drop_last();
        assert(flagged(msgs, id, unread).drop_last() =~= flagged(d, id, unread));
        assert forall|i: int| 0 <= i < d.len() && (#[trigger] d[i]).summary.id == id implies d[i].summary.folder_id != fid by {
            assert(d[i] == msgs[i]);
        }
        lemma_unread_flag_other(d, id, unread, fid);
        assert(flagged(msgs, id, unread).last() == flagged(msgs, id, unread)[msgs.len() - 1]);
    }
}

/// Flagging keeps every row's id and folder.
pub proof fn lemma_flagged_all_frame(msgs: Seq<StoredMessage>, ids: Seq<i64>, unread: bool)
    ensures
        flagged_all(msgs, ids, unread).len() == msgs.len(),
        forall|i: int| 0 <= i < msgs.len() ==> (#[trigger] flagged_all(msgs, ids, unread)[i]).summary.id == msgs[i].summary.id
            && flagged_all(msgs, ids, unread)[i].summary.folder_id == msgs[i].summary.folder_id
            && flagged_all(msgs, ids, unread)[i].summary.imap_uid == msgs[i].summary.imap_uid,
    decreases ids.len(),
{
    if ids.len() > 0 {
        lemma_flagged_all_frame(msgs, ids.drop_last(), unread);
    }
}

/// Detail `d` shows an account message that has display text, with that text as body.
pub open spec fn detail_of_listed(msgs: Seq<StoredMessage>, texts: Seq<TextRow>, d: MessageDetail, account_id: i64) -> bool {
    exists|i: int|
        0 <= i < msgs.len() && (#[trigger] msgs[i]).account_id == account_id && text_of(texts, msgs[i].summary.id) is Some
            && detail_matches(d, msgs[i], text_of(texts, msgs[i].summary.id)->0)
}

/// Why a store mutation was refused.
#[derive(Debug, Clone, Copy, PartialEq, Eq, Structural)]
pub enum StoreError {
    /// Two messages of one folder would carry the same server uid.
    UidConflict,
    /// The store holds as many messages as it can count.
    Full,
    /// No account has the requested id.
    UnknownAccount,
}

pub fn copy_summary(m: &MessageSummary) -> (r: MessageSummary)
    ensures
        r == *m,
{
    MessageSummary {
        id: m.id,
        folder_id: m.folder_id,
        imap_uid: m.imap_uid,
        date: m.date.clone(),
        from: m.from.clone(),
        subject: m.subject.clone(),
        unread: m.unread,
        preview: m.preview.clone(),
    }
}

pub fn copy_message(m: &StoredMessage) -> (r: StoredMessage)
    ensures
        r == *m,
{
    StoredMessage {
        account_id: m.account_id,
        summary: copy_summary(&m.summary),
        to: m.to.clone(),
        cc: m.cc.clone(),
    }
}

pub fn contains_id(ids: &[i64], id: i64) -> (r: bool)
    ensures
        r == ids@.contains(id),
{
    let mut i: usize = 0;
    while i < ids.len()
        invariant
            i <= ids@.len(),
            forall|j: int| 0 <= j < i ==> ids@[j] != id,
        decreases ids.len() - i,
    {
        if ids[i] == id {
            return true;
        }
        i += 1;
    }
    false
}

/// Whether `rows_unique` holds of `msgs`.
pub fn check_rows_unique(msgs: &Vec<StoredMessage>) -> (r: bool)
    ensures
        r == rows_unique(msgs@),
{
    let mut i: usize = 0;
    while i < msgs.len()
        invariant
            i <= msgs@.len(),
            forall|a: int, b: int|
                0 <= a < i && a < b < msgs@.len() ==> (#[trigger] msgs@[a]).summary.id != (
                #[trigger] msgs@[b]).summary.id,
            forall|a: int, b: int|
                0 <= a < i && a < b < msgs@.len() && (#[trigger] msgs@[a]).summary.folder_id == (
                #[trigger] msgs@[b]).summary.folder_id && msgs@[a].summary.imap_uid is Some
                    ==> msgs@[a].summary.imap_uid != msgs@[b].summary.imap_uid,
        decreases msgs.len() - i,
    {
        let mut j: usize = i + 1;
        while j < msgs.len()
            invariant
                i < msgs@.len(),
                i + 1 <= j <= msgs@.len(),
                forall|a: int, b: int|
                    0 <= a < i && a < b < msgs@.len() ==> (#[trigger] msgs@[a]).summary.id != (
                    #[trigger] msgs@[b]).summary.id,
                forall|a: int, b: int|
                    0 <= a < i && a < b < msgs@.len() && (#[trigger] msgs@[a]).summary.folder_id
                        == (#[trigger] msgs@[b]).summary.folder_id && msgs@[a].summary.imap_uid is Some
                        ==> msgs@[a].summary.imap_uid != msgs@[b].summary.imap_uid,
                forall|b: int| i < b < j ==> (#[trigger] msgs@[b]).summary.id != msgs@[i as int].summary.id,
                forall|b: int|
                    i < b < j && (#[trigger] msgs@[b]).summary.folder_id == msgs@[i as int].summary.folder_id
                        && msgs@[i as int].summary.imap_uid is Some ==> msgs@[i as int].summary.imap_uid
                        != msgs@[b].summary.imap_uid,
            decreases msgs.len() - j,
        {
            if msgs[i].summary.id == msgs[j].summary.id {
                return false;
            }
            if msgs[i].summary.folder_id == msgs[j].summary.folder_id && msgs[i].summary.imap_uid.is_some()
                && msgs[i].summary.imap_uid == msgs[j].summary.imap_uid {
                return false;
            }
            j += 1;
        }
        i += 1;
    }
    true
}

impl MemoryMailStore {
    /// The store's invariant.
    pub open spec fn wf(&self) -> bool {
        &&& self.messages@.len() <= MAX_MESSAGES
        &&& rows_unique(self.messages@)
        &&& forall|i: int|
            0 <= i < self.messages@.len() ==> (#[trigger] self.messages@[i]).summary.id
                < self.next_id
        &&& 0 < self.next_id
        &&& forall|k: int| 0 <= k < self.tiles@.len() ==> (#[trigger] self.tiles@[k]).updated_at <= self.clock
    }

    /// Everything but the messages and the folders is the same in `a` and `b`.
    pub open spec fn others_same(a: &Self, b: &Self) -> bool {
        &&& a.accounts@ == b.accounts@
        &&& a.sync_states@ == b.sync_states@
        &&& a.bodies@ == b.bodies@
        &&& a.text_cache@ == b.text_cache@
        &&& a.html_cache@ == b.html_cache@
        &&& a.tiles@ == b.tiles@
        &&& a.next_id == b.next_id
        &&& a.clock == b.clock
    }

    pub fn new() -> (r: Self)
        ensures
            r.wf(),
            r.accounts@.len() == 0,
            r.folders@.len() == 0,
            r.messages@.len() == 0,
            r.tiles@.len() == 0,
            r.sync_states@.len() == 0,
            r.bodies@.len() == 0,
            r.text_cache@.len() == 0,
            r.html_cache@.len() == 0,
            r.next_id == 1,
            r.clock == 0,
    {
        MemoryMailStore {
            accounts: Vec::new(),
            folders: Vec::new(),
            sync_states: Vec::new(),
            messages: Vec::new(),
            bodies: Vec::new(),
            text_cache: Vec::new(),
            html_cache: Vec::new(),
            tiles: Vec::new(),
            next_id: 1,
            clock: 0,
        }
    }

    /// Counts the unread messages of folder `fid`.
    pub fn count_unread(&self, fid: i64) -> (r: u32)
        requires
            self.wf(),
        ensures
            r == unread_in(self.messages@, fid),
    {
        let mut n: u32 = 0;
        let mut i: usize = 0;
        while i < self.messages.len()
            invariant
                self.wf(),
                i <= self.messages@.len(),
                n == unread_in(self.messages@.subrange(0, i as int), fid),
            decreases self.messages.len() - i,
        {
            proof {
                let s = self.messages@.subrange(0, i as int + 1);
                assert(s.drop_last() =~= self.messages@.subrange(0, i as int));
                lemma_unread_in_bound(s, fid);
            }
            let m = &self.messages[i];
            if m.summary.folder_id == fid && m.summary.unread {
                n = n + 1;
            }
            i += 1;
        }
        assert(self.messages@.subrange(0, self.messages@.len() as int) =~= self.messages@);
        n
    }

    /// Recomputes the unread counter of every folder listed in `affected`.
    pub fn update_folder_unread_counts(&mut self, affected: &Vec<i64>)
        requires
            old(self).wf(),
        ensures
            final(self).wf(),
            final(self).messages@ == old(self).messages@,
            final(self).folders@ == recounted(old(self).folders@, old(self).messages@, affected@.to_set()),
            final(self).accounts@ == old(self).accounts@,
            final(self).sync_states@ == old(self).sync_states@,
            final(self).tiles@ == old(self).tiles@,
            final(self).bodies@ == old(self).bodies@,
            final(self).text_cache@ == old(self).text_cache@,
            final(self).html_cache@ == old(self).html_cache@,
            final(self).next_id == old(self).next_id,
            final(self).clock == old(self).clock,
    {
        let ghost aff = affected@.to_set();
        let ghost target = recounted(old(self).folders@, old(self).messages@, aff);
        let mut k: usize = 0;
        while k < self.folders.len()
            invariant
                self.wf(),
                self.messages@ == old(self).messages@,
                self.accounts@ == old(self).accounts@,
                self.sync_states@ == old(self).sync_states@,
                self.tiles@ == old(self).tiles@,
                self.bodies@ == old(self).bodies@,
                self.text_cache@ == old(self).text_cache@,
                self.html_cache@ == old(self).html_cache@,
                self.next_id == old(self).next_id,
                self.clock == old(self).clock,
                aff == affected@.to_set(),
                target == recounted(old(self).folders@, old(self).messages@, aff),
                self.folders@.len() == old(self).folders@.len(),
                k <= self.folders@.len(),
                forall|j: int| 0 <= j < k ==> self.folders@[j] == target[j],
                forall|j: int| k <= j < self.folders@.len() ==> self.folders@[j] == old(self).folders@[j],
            decreases self.folders.len() - k,
        {
            let fid = self.folders[k].id;
            let mut listed = false;
            let mut a: usize = 0;
            while a < affected.len()
                invariant
                    a <= affected@.len(),
                    listed == exists|b: int| 0 <= b < a && affected@[b] == fid,
                decreases affected.len() - a,
            {
                if affected[a] == fid {
                    listed = true;
                }
                a += 1;
            }
            if listed {
                let n = self.count_unread(fid);
                let f = Folder {
                    id: fid,
                    account_id: self.folders[k].account_id,
                    name: self.folders[k].name.clone(),
                    unread: n,
                };
                proof {
                    assert(affected@.contains(fid));
                    assert(aff.contains(fid));
                }
                self.folders.set(k, f);
            } else {
                proof {
                    if aff.contains(fid) {
                        let b = choose|b: int| 0 <= b < affected@.len() && affected@[b] == fid;
                        assert(affected@.contains(fid));
                    }
                }
            }
            k += 1;
        }
        assert(self.folders@ =~= target);
    }

    /// Places every listed message in folder `target` and recounts the unread messages of
    /// the folders they left and of `target`. Refused when two messages of one folder would
    /// then share a server uid.
    pub fn move_messages(&mut self, ids: &[i64], target: i64) -> (r: Result<(), StoreError>)
        requires
            old(self).wf(),
        ensures
            final(self).wf(),
            Self::others_same(final(self), old(self)),
            r is Ok <==> (ids@.len() == 0 || rows_unique(moved(old(self).messages@, ids@, target))),
            r is Err ==> r == Err::<(), StoreError>(StoreError::UidConflict),
            r is Ok && ids@.len() > 0 ==> final(self).messages@ == moved(old(self).messages@, ids@, target),
            r is Ok && ids@.len() > 0 ==> final(self).folders@ == recounted(
                old(self).folders@,
                final(self).messages@,
                folders_of(old(self).messages@, ids@).insert(target),
            ),
            !(r is Ok && ids@.len() > 0) ==> final(self).messages@ == old(self).messages@
                && final(self).folders@ == old(self).folders@,
    {
        if ids.len() == 0 {
            return Ok(());
        }
        let ghost msgs = self.messages@;
        let ghost goal = moved(msgs, ids@, target);
        let mut affected: Vec<i64> = Vec::new();
        let mut next: Vec<StoredMessage> = Vec::new();
        let mut i: usize = 0;
        while i < self.messages.len()
            invariant
                msgs == self.messages@,
                goal == moved(msgs, ids@, target),
                i <= msgs.len(),
                next@ == goal.subrange(0, i as int),
                forall|f: i64|
                    affected@.contains(f) <==> exists|j: int|
                        0 <= j < i && ids@.contains((#[trigger] msgs[j]).summary.id)
                            && msgs[j].summary.folder_id == f,
            decreases self.messages.len() - i,
        {
            let ghost old_aff = affected@;
            let m = &self.messages[i];
            let mut c = copy_message(m);
            if contains_id(ids, m.summary.id) {
                affected.push(m.summary.folder_id);
                c.summary.folder_id = target;
            }
            next.push(c);
            proof {
                assert(next@ =~= goal.subrange(0, i as int + 1));
                assert forall|f: i64|
                    affected@.contains(f) <==> exists|j: int|
                        0 <= j < i + 1 && ids@.contains((#[trigger] msgs[j]).summary.id)
                            && msgs[j].summary.folder_id == f by {
                    if ids@.contains(msgs[i as int].summary.id) {
                        lemma_push_contains(old_aff, msgs[i as int].summary.folder_id, f);
                    }
                    if exists|j: int|
                        0 <= j < i + 1 && ids@.contains((#[trigger] msgs[j]).summary.id)
                            && msgs[j].summary.folder_id == f {
                        let j = choose|j: int|
                            0 <= j < i + 1 && ids@.contains((#[trigger] msgs[j]).summary.id)
                                && msgs[j].summary.folder_id == f;
                        if j < i {
                        }
                    }
                }
            }
            i += 1;
        }
        let ghost before_target = affected@;
        affected.push(target);
        assert(next@ =~= goal);
        if !check_rows_unique(&next) {
            return Err(StoreError::UidConflict);
        }
        self.messages = next;
        proof {
            assert forall|j: int| 0 <= j < self.messages@.len() implies (#[trigger] self.messages@[j]).summary.id
                < self.next_id by {
                assert(self.messages@[j].summary.id == msgs[j].summary.id);
            }
            assert(affected@.to_set() =~= folders_of(msgs, ids@).insert(target)) by {
                assert forall|f: i64|
                    affected@.to_set().contains(f) <==> folders_of(msgs, ids@).insert(target).contains(f) by {
                    lemma_push_contains(before_target, target, f);
                }
            }
        }
        self.update_folder_unread_counts(&affected);
        Ok(())
    }

    /// The folders that hold a listed message.
    pub fn affected_folders(&self, ids: &[i64]) -> (r: Vec<i64>)
        ensures
            forall|f: i64| r@.contains(f) <==> folders_of(self.messages@, ids@).contains(f),
    {
        let ghost msgs = self.messages@;
        let mut affected: Vec<i64> = Vec::new();
        let mut i: usize = 0;
        while i < self.messages.len()
            invariant
                msgs == self.messages@,
                i <= msgs.len(),
                forall|f: i64|
                    affected@.contains(f) <==> exists|j: int|
                        0 <= j < i && ids@.contains((#[trigger] msgs[j]).summary.id)
                            && msgs[j].summary.folder_id == f,
            decreases self.messages.len() - i,
        {
            let ghost old_aff = affected@;
            if contains_id(ids, self.messages[i].summary.id) {
                affected.push(self.messages[i].summary.folder_id);
            }
            proof {
                assert forall|f: i64|
                    affected@.contains(f) <==> exists|j: int|
                        0 <= j < i + 1 && ids@.contains((#[trigger] msgs[j]).summary.id)
                            && msgs[j].summary.folder_id == f by {
                    if ids@.contains(msgs[i as int].summary.id) {
                        lemma_push_contains(old_aff, msgs[i as int].summary.folder_id, f);
                    }
                }
            }
            i += 1;
        }
        affected
    }

    /// Removes the listed messages with their bodies and caches, and recounts the unread
    /// messages of the folders they were in.
    pub fn delete_messages(&mut self, ids: &[i64])
        requires
            old(self).wf(),
        ensures
            final(self).wf(),
            final(self).messages@ == unlisted(old(self).messages@, ids@),
            final(self).folders@ == recounted(
                old(self).folders@,
                final(self).messages@,
                folders_of(old(self).messages@, ids@),
            ),
            final(self).bodies@ == unlisted(old(self).bodies@, ids@),
            final(self).text_cache@ == unlisted(old(self).text_cache@, ids@),
            final(self).html_cache@ == unlisted(old(self).html_cache@, ids@),
            final(self).tiles@ == unlisted(old(self).tiles@, ids@),
            final(self).accounts@ == old(self).accounts@,
            final(self).sync_states@ == old(self).sync_states@,
            final(self).next_id == old(self).next_id,
            final(self).clock == old(self).clock,
    {
        let affected = self.affected_folders(ids);
        purge_rows(&mut self.bodies, ids);
        purge_rows(&mut self.text_cache, ids);
        purge_rows(&mut self.html_cache, ids);
        purge_rows(&mut self.tiles, ids);
        let ghost before = self.messages@;
        let ghost tiles_before = old(self).tiles@;
        purge_rows(&mut self.messages, ids);
        proof {
            lemma_unlisted_within(tiles_before, ids@, self.clock);
            lemma_unique_filter(before, ids@);
            lemma_filter_len_le(before, ids@);
            assert forall|j: int| 0 <= j < self.messages@.len() implies (#[trigger] self.messages@[j]).summary.id
                < self.next_id by {
                assert(before.contains(self.messages@[j]));
            }
            assert(affected@.to_set() =~= folders_of(before, ids@));
        }
        self.update_folder_unread_counts(&affected);
    }

    /// Sets the unread flag of message `id` and recounts its folder.
    pub fn set_message_unread(&mut self, id: i64, unread: bool)
        requires
            old(self).wf(),
        ensures
            final(self).wf(),
            Self::others_same(final(self), old(self)),
            final(self).messages@ == flagged(old(self).messages@, id, unread),
            forall|i: int|
                row_index(old(self).messages@, id, i) ==> final(self).folders@ == recounted(
                    old(self).folders@,
                    final(self).messages@,
                    set![old(self).messages@[i].summary.folder_id],
                ),
            (forall|i: int| !row_index(old(self).messages@, id, i)) ==> final(self).folders@
                == old(self).folders@,
    {
        let ghost msgs = self.messages@;
        let mut i: usize = 0;
        while i < self.messages.len()
            invariant
                msgs == self.messages@,
                msgs == old(self).messages@,
                self.wf(),
                Self::others_same(self, old(self)),
                self.folders@ == old(self).folders@,
                i <= msgs.len(),
                forall|j: int| 0 <= j < i ==> msgs[j].summary.id != id,
            decreases self.messages.len() - i,
        {
            if self.messages[i].summary.id == id {
                let fid = self.messages[i].summary.folder_id;
                let mut m = copy_message(&self.messages[i]);
                m.summary.unread = unread;
                self.messages.set(i, m);
                proof {
                    assert forall|j: int| 0 <= j < msgs.len() implies #[trigger] self.messages@[j]
                        == flagged(msgs, id, unread)[j] by {
                        if j != i {
                            if msgs[j].summary.id == id {
                                if j < i {
                                } else {
                                    assert(msgs[i as int].summary.id == msgs[j].summary.id);
                                }
                            }
                        }
                    }
                    assert(self.messages@ =~= flagged(msgs, id, unread));
                    assert forall|a: int, b: int| 0 <= a < b < self.messages@.len() implies (#[trigger] self.messages@[a]).summary.id
                        != (#[trigger] self.messages@[b]).summary.id && (self.messages@[a].summary.folder_id == self.messages@[b].summary.folder_id
                        && self.messages@[a].summary.imap_uid is Some ==> self.messages@[a].summary.imap_uid != self.messages@[b].summary.imap_uid) by {
                        assert(msgs[a].summary.id != msgs[b].summary.id);
                    }
                    assert forall|j: int| 0 <= j < self.messages@.len() implies (#[trigger] self.messages@[j]).summary.id
                        < self.next_id by {
                        assert(msgs[j].summary.id < self.next_id);
                    }
                    assert forall|k: int| row_index(msgs, id, k) implies k == i by {
                        if k != i {
                            if k < i {
                            } else {
                                assert(msgs[i as int].summary.id == msgs[k].summary.id);
                            }
                        }
                    }
                }
                assert(row_index(msgs, id, i as int));
                let mut affected: Vec<i64> = Vec::new();
                affected.push(fid);
                assert(affected@.to_set() =~= set![fid]) by {
                    assert(affected@[0] == fid);
                }
                self.update_folder_unread_counts(&affected);
                return;
            }
            i += 1;
        }
        assert(msgs =~= flagged(msgs, id, unread));
    }

    /// Nothing but the messages and the id counter differ between `a` and `b`.
    pub open spec fn only_messages_differ(a: &Self, b: &Self) -> bool {
        &&& a.accounts@ == b.accounts@
        &&& a.folders@ == b.folders@
        &&& a.sync_states@ == b.sync_states@
        &&& a.bodies@ == b.bodies@
        &&& a.text_cache@ == b.text_cache@
        &&& a.html_cache@ == b.html_cache@
        &&& a.tiles@ == b.tiles@
        &&& a.clock == b.clock
    }

    /// Merges one incoming message into folder `fid` by its server uid.
    pub fn upsert_message(&mut self, account_id: i64, fid: i64, m: &MessageSummary)
        requires
            old(self).wf(),
            old(self).messages@.len() < MAX_MESSAGES,
            old(self).next_id < i64::MAX,
        ensures
            final(self).wf(),
            Self::only_messages_differ(final(self), old(self)),
            (rows_view(final(self).messages@), final(self).next_id) == upserted(
                rows_view(old(self).messages@),
                fid,
                account_id,
                *m,
                old(self).next_id,
            ),
    {
        let ghost msgs = self.messages@;
        let ghost rows = rows_view(msgs);
        if m.imap_uid.is_some() {
            let mut i: usize = 0;
            while i < self.messages.len()
                invariant
                    msgs == self.messages@,
                    msgs == old(self).messages@,
                    rows == rows_view(msgs),
                    self.wf(),
                    Self::only_messages_differ(self, old(self)),
                    self.next_id == old(self).next_id,
                    m.imap_uid is Some,
                    i <= msgs.len(),
                    forall|j: int| 0 <= j < i ==> !(msgs[j].summary.folder_id == fid && msgs[j].summary.imap_uid == m.imap_uid),
                decreases self.messages.len() - i,
            {
                if self.messages[i].summary.folder_id == fid && self.messages[i].summary.imap_uid == m.imap_uid {
                    let cur = &self.messages[i];
                    let row = StoredMessage {
                        account_id: cur.account_id,
                        summary: MessageSummary {
                            id: cur.summary.id,
                            folder_id: cur.summary.folder_id,
                            imap_uid: cur.summary.imap_uid,
                            date: m.date.clone(),
                            from: m.from.clone(),
                            subject: m.subject.clone(),
                            unread: m.unread,
                            preview: m.preview.clone(),
                        },
                        to: cur.to.clone(),
                        cc: cur.cc.clone(),
                    };
                    self.messages.set(i, row);
                    proof {
                        assert(rows[i as int].folder_id == fid && rows[i as int].imap_uid == m.imap_uid);
                        assert(uid_taken(rows, fid, m.imap_uid));
                        let k = choose|k: int|
                            0 <= k < rows.len() && (#[trigger] rows[k]).folder_id == fid && rows[k].imap_uid
                                == m.imap_uid;
                        if k != i {
                            assert(msgs[k].summary.folder_id == fid);
                            if k < i {
                            } else {
                                assert(msgs[i as int].summary.folder_id == msgs[k].summary.folder_id);
                            }
                        }
                        assert(rows_view(self.messages@) =~= upserted(rows, fid, account_id, *m, self.next_id).0);
                        assert forall|a: int, b: int| 0 <= a < b < self.messages@.len() implies (#[trigger] self.messages@[a]).summary.id
                            != (#[trigger] self.messages@[b]).summary.id && (self.messages@[a].summary.folder_id == self.messages@[b].summary.folder_id
                            && self.messages@[a].summary.imap_uid is Some ==> self.messages@[a].summary.imap_uid != self.messages@[b].summary.imap_uid) by {
                            assert(msgs[a].summary.id != msgs[b].summary.id);
                        }
                        assert forall|j: int| 0 <= j < self.messages@.len() implies (#[trigger] self.messages@[j]).summary.id
                            < self.next_id by {
                            assert(msgs[j].summary.id < self.next_id);
                        }
                    }
                    return;
                }
                i += 1;
            }
        }
        proof {
            if uid_taken(rows, fid, m.imap_uid) {
                let k = choose|k: int|
                    0 <= k < rows.len() && (#[trigger] rows[k]).folder_id == fid && rows[k].imap_uid
                        == m.imap_uid;
                assert(msgs[k].summary.folder_id == fid);
            }
        }
        let id = self.next_id;
        let row = StoredMessage {
            account_id: account_id,
            summary: MessageSummary {
                id: id,
                folder_id: fid,
                imap_uid: m.imap_uid,
                date: m.date.clone(),
                from: m.from.clone(),
                subject: m.subject.clone(),
                unread: m.unread,
                preview: m.preview.clone(),
            },
            to: String::new(),
            cc: String::new(),
        };
        self.messages.push(row);
        self.next_id = id + 1;
        proof {
            assert(rows_view(self.messages@) =~= upserted(rows, fid, account_id, *m, id).0);
            assert forall|a: int, b: int| 0 <= a < b < self.messages@.len() implies (#[trigger] self.messages@[a]).summary.id
                != (#[trigger] self.messages@[b]).summary.id && (self.messages@[a].summary.folder_id == self.messages@[b].summary.folder_id
                && self.messages@[a].summary.imap_uid is Some ==> self.messages@[a].summary.imap_uid != self.messages@[b].summary.imap_uid) by {
                if b == msgs.len() {
                    assert(msgs[a].summary.id < id);
                    if self.messages@[a].summary.folder_id == fid && self.messages@[a].summary.imap_uid is Some
                        && self.messages@[a].summary.imap_uid == m.imap_uid {
                        assert(rows[a].folder_id == fid);
                    }
                } else {
                    assert(msgs[a].summary.id != msgs[b].summary.id);
                }
            }
            assert forall|j: int| 0 <= j < self.messages@.len() implies (#[trigger] self.messages@[j]).summary.id
                < self.next_id by {
                if j < msgs.len() {
                    assert(msgs[j].summary.id < id);
                }
            }
        }
    }

    /// There is room for `n` more messages and ids.
    pub open spec fn has_room(&self, n: int) -> bool {
        self.messages@.len() + n <= MAX_MESSAGES && self.next_id + n < i64::MAX
    }

    pub fn room_for(&self, n: usize) -> (r: bool)
        requires
            self.wf(),
        ensures
            r == self.has_room(n as int),
    {
        self.messages.len() <= MAX_MESSAGES - n.min(MAX_MESSAGES) && n <= MAX_MESSAGES
            && (n as u64) < ((i64::MAX - self.next_id) as u64)
    }

    /// Merges a batch into folder `fid` by server uid, never removing a row.
    pub fn upsert_folder_messages_append(
        &mut self,
        account_id: i64,
        fid: i64,
        batch: &[MessageSummary],
    ) -> (r: Result<(), StoreError>)
        requires
            old(self).wf(),
        ensures
            final(self).wf(),
            Self::only_messages_differ(final(self), old(self)),
            r is Ok <==> old(self).has_room(batch@.len() as int),
            r is Err ==> r == Err::<(), StoreError>(StoreError::Full) && final(self).messages@
                == old(self).messages@ && final(self).next_id == old(self).next_id,
            r is Ok ==> (rows_view(final(self).messages@), final(self).next_id) == appended(
                rows_view(old(self).messages@),
                fid,
                account_id,
                batch@,
                old(self).next_id,
            ),
            batch@.len() == 0 ==> final(self).messages@ == old(self).messages@ && final(self).next_id
                == old(self).next_id,
    {
        if !self.room_for(batch.len()) {
            return Err(StoreError::Full);
        }
        let ghost rows0 = rows_view(self.messages@);
        let ghost n0 = self.next_id;
        let mut j: usize = 0;
        while j < batch.len()
            invariant
                self.wf(),
                Self::only_messages_differ(self, old(self)),
                rows0 == rows_view(old(self).messages@),
                n0 == old(self).next_id,
                old(self).has_room(batch@.len() as int),
                j <= batch@.len(),
                self.messages@.len() <= old(self).messages@.len() + j,
                self.next_id <= n0 + j,
                (rows_view(self.messages@), self.next_id) == appended(rows0, fid, account_id, batch@.subrange(0, j as int), n0),
                j == 0 ==> self.messages@ == old(self).messages@ && self.next_id == old(self).next_id,
            decreases batch.len() - j,
        {
            let ghost prev_msgs = self.messages@;
            let ghost prev_next = self.next_id;
            proof {
                let b = batch@.subrange(0, j as int + 1);
                assert(b.drop_last() =~= batch@.subrange(0, j as int));
                assert(b.last() == batch@[j as int]);
            }
            self.upsert_message(account_id, fid, &batch[j]);
            proof {
                lemma_upserted_len(rows_view(prev_msgs), fid, account_id, batch@[j as int], prev_next);
            }
            j += 1;
        }
        assert(batch@.subrange(0, batch@.len() as int) =~= batch@);
        Ok(())
    }

    /// Makes folder `fid` hold exactly the batch: rows without uid or with a uid absent from
    /// the batch go, with their bodies and caches; then the batch is merged by uid.
    pub fn replace_folder_messages(
        &mut self,
        account_id: i64,
        fid: i64,
        batch: &[MessageSummary],
    ) -> (r: Result<(), StoreError>)
        requires
            old(self).wf(),
        ensures
            final(self).wf(),
            final(self).accounts@ == old(self).accounts@,
            final(self).folders@ == old(self).folders@,
            final(self).sync_states@ == old(self).sync_states@,
            final(self).clock == old(self).clock,
            r is Ok <==> old(self).has_room(batch@.len() as int),
            r is Err ==> r == Err::<(), StoreError>(StoreError::Full) && final(self).messages@
                == old(self).messages@ && final(self).next_id == old(self).next_id
                && final(self).bodies@ == old(self).bodies@ && final(self).tiles@ == old(self).tiles@,
            r is Ok ==> (rows_view(final(self).messages@), final(self).next_id) == appended(
                rows_view(unlisted(old(self).messages@, stale_ids(old(self).messages@, fid, batch@))),
                fid,
                account_id,
                batch@,
                old(self).next_id,
            ),
            r is Ok ==> final(self).bodies@ == unlisted(old(self).bodies@, stale_ids(old(self).messages@, fid, batch@)),
            r is Ok ==> final(self).text_cache@ == unlisted(old(self).text_cache@, stale_ids(old(self).messages@, fid, batch@)),
            r is Ok ==> final(self).html_cache@ == unlisted(old(self).html_cache@, stale_ids(old(self).messages@, fid, batch@)),
            r is Ok ==> final(self).tiles@ == unlisted(old(self).tiles@, stale_ids(old(self).messages@, fid, batch@)),
            r is Ok ==> uids_of(rows_view(final(self).messages@), fid) == batch_uids(batch@),
            r is Ok && (forall|j: int| 0 <= j < batch@.len() ==> (#[trigger] batch@[j]).imap_uid is Some)
                ==> !has_local_row(rows_view(final(self).messages@), fid),
    {
        if !self.room_for(batch.len()) {
            return Err(StoreError::Full);
        }
        let ghost msgs = self.messages@;
        let mut stale: Vec<i64> = Vec::new();
        let mut i: usize = 0;
        while i < self.messages.len()
            invariant
                msgs == self.messages@,
                i <= msgs.len(),
                stale@ == stale_ids(msgs.subrange(0, i as int), fid, batch@),
            decreases self.messages.len() - i,
        {
            let m = &self.messages[i];
            let mut drop = false;
            if m.summary.folder_id == fid {
                match m.summary.imap_uid {
                    None => {
                        drop = true;
                    },
                    Some(u) => {
                        drop = !batch_has_uid(batch, u);
                    },
                }
            }
            proof {
                reveal(Seq::filter);
                let s1 = msgs.subrange(0, i as int + 1);
                assert(s1.drop_last() =~= msgs.subrange(0, i as int));
                assert(s1.last() == msgs[i as int]);
                assert(drop == is_stale(msgs[i as int], fid, batch@));
            }
            let ghost old_stale = stale@;
            if drop {
                stale.push(m.summary.id);
            }
            proof {
                reveal(Seq::filter);
                let st = |m: StoredMessage| is_stale(m, fid, batch@);
                let idf = |m: StoredMessage| m.summary.id;
                let s1 = msgs.subrange(0, i as int + 1);
                let s0 = msgs.subrange(0, i as int);
                assert(s1.drop_last() =~= s0);
                assert(s1.filter(st) == if st(s1.last()) {
                    s0.filter(st).push(s1.last())
                } else {
                    s0.filter(st)
                });
                if drop {
                    assert(st(s1.last()));
                    assert(stale@ == old_stale.push(msgs[i as int].summary.id));
                    assert(s0.filter(st).push(s1.last()).map_values(idf) =~= s0.filter(st).map_values(idf).push(idf(s1.last())));
                } else {
                    assert(!st(s1.last()));
                }
                assert(stale@ =~= s1.filter(st).map_values(idf));
            }
            i += 1;
        }
        assert(msgs.subrange(0, msgs.len() as int) =~= msgs);
        assert(stale@ == stale_ids(msgs, fid, batch@));
        purge_rows(&mut self.bodies, &stale);
        purge_rows(&mut self.text_cache, &stale);
        purge_rows(&mut self.html_cache, &stale);
        purge_rows(&mut self.tiles, &stale);
        purge_rows(&mut self.messages, &stale);
        proof {
            lemma_unlisted_within(old(self).tiles@, stale@, self.clock);
            lemma_unique_filter(msgs, stale@);
            lemma_filter_len_le(msgs, stale@);
            assert forall|j: int| 0 <= j < self.messages@.len() implies (#[trigger] self.messages@[j]).summary.id
                < self.next_id by {
                assert(msgs.contains(self.messages@[j]));
            }
        }
        let ghost kept = rows_view(self.messages@);
        let res = self.upsert_folder_messages_append(account_id, fid, batch);
        proof {
            lemma_kept_rows(msgs, fid, batch@);
            lemma_appended_uids(kept, fid, account_id, batch@, old(self).next_id);
            assert(uids_of(rows_view(self.messages@), fid) =~= batch_uids(batch@));
            if forall|j: int| 0 <= j < batch@.len() ==> (#[trigger] batch@[j]).imap_uid is Some {
                if has_local_row(rows_view(self.messages@), fid) {
                    let j = choose|j: int| 0 <= j < batch@.len() && (#[trigger] batch@[j]).imap_uid is None;
                }
            }
        }
        res
    }

    /// Nothing but the tiles and the clock differ between `a` and `b`.
    pub open spec fn only_tiles_differ(a: &Self, b: &Self) -> bool {
        &&& a.accounts@ == b.accounts@
        &&& a.folders@ == b.folders@
        &&& a.sync_states@ == b.sync_states@
        &&& a.messages@ == b.messages@
        &&& a.bodies@ == b.bodies@
        &&& a.text_cache@ == b.text_cache@
        &&& a.html_cache@ == b.html_cache@
        &&& a.next_id == b.next_id
    }

    /// Whether tile row `k` belongs to the given rendering.
    fn tile_matches(&self, k: usize, mid: i64, w: i64, h: i64, theme: &str, policy: &str) -> (r: bool)
        requires
            k < self.tiles@.len(),
        ensures
            r == tile_key(self.tiles@[k as int], mid, w, h, theme@, policy@),
    {
        let t = &self.tiles[k];
        t.message_id == mid && t.width_px == w && t.tile_height_px == h && str_eq(&t.theme, theme)
            && str_eq(&t.remote_policy, policy)
    }

    /// The row holding tile `idx` of the given rendering, or the row count.
    fn find_tile(&self, mid: i64, w: i64, h: i64, theme: &str, policy: &str, idx: i64) -> (r: usize)
        ensures
            r <= self.tiles@.len(),
            r < self.tiles@.len() ==> tile_key(self.tiles@[r as int], mid, w, h, theme@, policy@)
                && self.tiles@[r as int].tile_index == idx,
    {
        let mut k: usize = 0;
        while k < self.tiles.len()
            invariant
                k <= self.tiles@.len(),
            decreases self.tiles.len() - k,
        {
            if self.tile_matches(k, mid, w, h, theme, policy) && self.tiles[k].tile_index == idx {
                return k;
            }
            k += 1;
        }
        self.tiles.len()
    }

    /// Marks every tile of the given rendering as used now.
    pub fn touch_cache_tiles(&mut self, mid: i64, w: i64, h: i64, theme: &str, policy: &str)
        requires
            old(self).wf(),
            old(self).clock < u64::MAX,
        ensures
            final(self).wf(),
            Self::only_tiles_differ(final(self), old(self)),
            final(self).clock == old(self).clock + 1,
            final(self).tiles@.len() == old(self).tiles@.len(),
            forall|k: int|
                0 <= k < old(self).tiles@.len() ==> #[trigger] final(self).tiles@[k] == if tile_key(
                    old(self).tiles@[k],
                    mid,
                    w,
                    h,
                    theme@,
                    policy@,
                ) {
                    TileRow { updated_at: final(self).clock, ..old(self).tiles@[k] }
                } else {
                    old(self).tiles@[k]
                },
    {
        self.clock = self.clock + 1;
        let now = self.clock;
        let mut k: usize = 0;
        while k < self.tiles.len()
            invariant
                self.wf(),
                Self::only_tiles_differ(self, old(self)),
                now == self.clock,
                self.clock == old(self).clock + 1,
                self.tiles@.len() == old(self).tiles@.len(),
                k <= self.tiles@.len(),
                forall|j: int|
                    0 <= j < k ==> #[trigger] self.tiles@[j] == if tile_key(old(self).tiles@[j], mid, w, h, theme@, policy@) {
                        TileRow { updated_at: now, ..old(self).tiles@[j] }
                    } else {
                        old(self).tiles@[j]
                    },
                forall|j: int| k <= j < self.tiles@.len() ==> #[trigger] self.tiles@[j] == old(self).tiles@[j],
            decreases self.tiles.len() - k,
        {
            if self.tile_matches(k, mid, w, h, theme, policy) {
                let ghost before = self.tiles@;
                let mut row = self.tiles.remove(k);
                row.updated_at = now;
                self.tiles.insert(k, row);
                assert(self.tiles@ =~= before.update(k as int, TileRow { updated_at: now, ..before[k as int] }));
            }
            k += 1;
        }
    }

    /// The rows of one rendering as (tile index, row) pairs ordered by tile index, rows with
    /// equal index in row order.
    fn matching_rows_by_index(&self, mid: i64, w: i64, h: i64, theme: &str, policy: &str) -> (r: Vec<(i64, usize)>)
        ensures
            forall|k: int| 0 <= k < r@.len() ==> (#[trigger] r@[k]).1 < self.tiles@.len()
                && tile_key(self.tiles@[r@[k].1 as int], mid, w, h, theme@, policy@) && r@[k].0 == self.tiles@[r@[k].1 as int].tile_index,
            forall|j: int| 0 <= j < self.tiles@.len() && tile_key(#[trigger] self.tiles@[j], mid, w, h, theme@, policy@)
                ==> exists|k: int| 0 <= k < r@.len() && r@[k].1 == j,
            forall|a: int, b: int| 0 <= a < b < r@.len() ==> (#[trigger] r@[a]).0 <= (#[trigger] r@[b]).0 && r@[a].1 != r@[b].1,
    {
        let mut order: Vec<(i64, usize)> = Vec::new();
        let mut i: usize = 0;
        while i < self.tiles.len()
            invariant
                i <= self.tiles@.len(),
                forall|k: int| 0 <= k < order@.len() ==> (#[trigger] order@[k]).1 < i
                    && tile_key(self.tiles@[order@[k].1 as int], mid, w, h, theme@, policy@) && order@[k].0 == self.tiles@[order@[k].1 as int].tile_index,
                forall|j: int| 0 <= j < i && tile_key(#[trigger] self.tiles@[j], mid, w, h, theme@, policy@)
                    ==> exists|k: int| 0 <= k < order@.len() && order@[k].1 == j,
                forall|a: int, b: int| 0 <= a < b < order@.len() ==> (#[trigger] order@[a]).0 <= (#[trigger] order@[b]).0 && order@[a].1 != order@[b].1,
            decreases self.tiles.len() - i,
        {
            if self.tile_matches(i, mid, w, h, theme, policy) {
                let idx = self.tiles[i].tile_index;
                let mut p: usize = 0;
                while p < order.len() && order[p].0 <= idx
                    invariant
                        p <= order@.len(),
                        forall|k: int| 0 <= k < p ==> (#[trigger] order@[k]).0 <= idx,
                    decreases order.len() - p,
                {
                    p += 1;
                }
                let ghost before = order@;
                proof {
                    assert forall|k: int| p <= k < before.len() implies idx < (#[trigger] before[k]).0 by {
                        if k > p {
                            assert(before[p as int].0 <= before[k].0);
                        }
                    }
                }
                order.insert(p, (idx, i));
                proof {
                    assert forall|a: int, b: int| 0 <= a < b < order@.len() implies (#[trigger] order@[a]).0 <= (#[trigger] order@[b]).0
                        && order@[a].1 != order@[b].1 by {
                        if b < p {
                            assert(order@[a] == before[a] && order@[b] == before[b]);
                        } else if b == p {
                            assert(order@[a] == before[a]);
                        } else if a == p {
                            assert(order@[b] == before[b - 1]);
                        } else if a < p {
                            assert(order@[a] == before[a] && order@[b] == before[b - 1]);
                        } else {
                            assert(order@[a] == before[a - 1] && order@[b] == before[b - 1]);
                        }
                    }
                    assert forall|j: int| 0 <= j < i + 1 && tile_key(#[trigger] self.tiles@[j], mid, w, h, theme@, policy@)
                        implies exists|k: int| 0 <= k < order@.len() && order@[k].1 == j by {
                        if j == i {
                            assert(order@[p as int].1 == i);
                        } else {
                            let k = choose|k: int| 0 <= k < before.len() && before[k].1 == j;
                            if k < p {
                                assert(order@[k] == before[k]);
                            } else {
                                assert(order@[k + 1] == before[k]);
                            }
                        }
                    }
                    assert forall|k: int| 0 <= k < order@.len() implies (#[trigger] order@[k]).1 < i + 1
                        && tile_key(self.tiles@[order@[k].1 as int], mid, w, h, theme@, policy@) && order@[k].0 == self.tiles@[order@[k].1 as int].tile_index by {
                        if k < p {
                            assert(order@[k] == before[k]);
                        } else if k > p {
                            assert(order@[k] == before[k - 1]);
                        }
                    }
                }
            }
            i += 1;
        }
        order
    }

    /// The tiles of one rendering ordered by tile index, each with the rendering's tile
    /// height; a hit marks them as used now.
    pub fn get_cache_tiles(&mut self, mid: i64, w: i64, h: i64, theme: &str, policy: &str) -> (r: Vec<TileMeta>)
        requires
            old(self).wf(),
            old(self).clock < u64::MAX,
        ensures
            final(self).wf(),
            Self::only_tiles_differ(final(self), old(self)),
            final(self).tiles@.len() == old(self).tiles@.len(),
            forall|k: int| 0 <= k < r@.len() ==> tile_served(old(self).tiles@, #[trigger] r@[k], mid, w, h, theme@, policy@),
            forall|j: int| 0 <= j < old(self).tiles@.len() && tile_key(#[trigger] old(self).tiles@[j], mid, w, h, theme@, policy@)
                ==> r@.len() > 0,
            r@.len() <= old(self).tiles@.len(),
            forall|a: int, b: int| 0 <= a < b < r@.len() ==> (#[trigger] r@[a]).tile_index <= (#[trigger] r@[b]).tile_index,
            r@.len() == old(self).tiles@.filter(|t: TileRow| tile_key(t, mid, w, h, theme@, policy@)).len(),
            r@.len() > 0 ==> forall|k: int|
                0 <= k < old(self).tiles@.len() && tile_key(old(self).tiles@[k], mid, w, h, theme@, policy@)
                    ==> (#[trigger] final(self).tiles@[k]).updated_at > old(self).tiles@[k].updated_at,
            r@.len() > 0 ==> forall|k: int|
                0 <= k < old(self).tiles@.len() ==> #[trigger] final(self).tiles@[k] == if tile_key(
                    old(self).tiles@[k],
                    mid,
                    w,
                    h,
                    theme@,
                    policy@,
                ) {
                    TileRow { updated_at: final(self).clock, ..old(self).tiles@[k] }
                } else {
                    old(self).tiles@[k]
                },
            r@.len() == 0 ==> final(self).tiles@ == old(self).tiles@ && final(self).clock == old(self).clock,
    {
        let ghost rows = self.tiles@;
        let order = self.matching_rows_by_index(mid, w, h, theme, policy);
        proof {
            lemma_order_counts(rows, order@, mid, w, h, theme@, policy@);
        }
        let mut out: Vec<TileMeta> = Vec::new();
        let mut k: usize = 0;
        while k < order.len()
            invariant
                rows == self.tiles@,
                k <= order@.len(),
                out@.len() == k,
                forall|q: int| 0 <= q < order@.len() ==> (#[trigger] order@[q]).1 < rows.len()
                    && tile_key(rows[order@[q].1 as int], mid, w, h, theme@, policy@) && order@[q].0 == rows[order@[q].1 as int].tile_index,
                forall|q: int| 0 <= q < k ==> (#[trigger] out@[q]).tile_index == order@[q].0 && out@[q].height_px == h
                    && out@[q].bytes@ == rows[order@[q].1 as int].bytes@,
            decreases order.len() - k,
        {
            let row = &self.tiles[order[k].1];
            out.push(TileMeta { tile_index: row.tile_index, height_px: h, bytes: copy_bytes(&row.bytes) });
            k += 1;
        }
        proof {
            assert forall|q: int| 0 <= q < out@.len() implies tile_served(rows, #[trigger] out@[q], mid, w, h, theme@, policy@) by {
                let j = order@[q].1 as int;
                assert(tile_key(rows[j], mid, w, h, theme@, policy@));
            }
            assert forall|a: int, b: int| 0 <= a < b < out@.len() implies (#[trigger] out@[a]).tile_index <= (#[trigger] out@[b]).tile_index by {
                assert(order@[a].0 <= order@[b].0);
            }
            assert forall|j: int| 0 <= j < rows.len() && tile_key(#[trigger] rows[j], mid, w, h, theme@, policy@) implies out@.len() > 0 by {
                let k = choose|k: int| 0 <= k < order@.len() && order@[k].1 == j;
            }
        }
        if out.len() > 0 {
            self.touch_cache_tiles(mid, w, h, theme, policy);
            proof {
                assert forall|k: int|
                    0 <= k < rows.len() && tile_key(rows[k], mid, w, h, theme@, policy@)
                        implies (#[trigger] self.tiles@[k]).updated_at > rows[k].updated_at by {
                    assert(rows[k].updated_at <= old(self).clock);
                }
            }
        }
        out
    }

    /// Stores the tiles of one rendering, replacing rows with the same tile index, all
    /// stamped as used now.
    pub fn upsert_cache_tiles(&mut self, mid: i64, w: i64, h: i64, theme: &str, policy: &str, tiles: &[TileMeta])
        requires
            old(self).wf(),
            old(self).clock < u64::MAX,
        ensures
            final(self).wf(),
            Self::only_tiles_differ(final(self), old(self)),
            final(self).clock == old(self).clock + 1,
            final(self).tiles@.len() >= old(self).tiles@.len(),
            forall|k: int|
                0 <= k < old(self).tiles@.len() && !tile_key(old(self).tiles@[k], mid, w, h, theme@, policy@)
                    ==> #[trigger] final(self).tiles@[k] == old(self).tiles@[k],
            forall|j: int|
                0 <= j < tiles@.len() ==> tile_present(final(self).tiles@, mid, w, h, theme@, policy@, (#[trigger] tiles@[j]).tile_index, final(self).clock),
            forall|j: int|
                0 <= j < tiles@.len() && last_with_index(tiles@, j, tiles@.len() as int) ==> tile_holds(
                    final(self).tiles@,
                    mid,
                    w,
                    h,
                    theme@,
                    policy@,
                    (#[trigger] tiles@[j]).tile_index,
                    tiles@[j].bytes@,
                ),
    {
        self.clock = self.clock + 1;
        let now = self.clock;
        let mut j: usize = 0;
        while j < tiles.len()
            invariant
                self.wf(),
                Self::only_tiles_differ(self, old(self)),
                now == self.clock,
                self.clock == old(self).clock + 1,
                self.tiles@.len() >= old(self).tiles@.len(),
                j <= tiles@.len(),
                forall|k: int|
                    0 <= k < old(self).tiles@.len() && !tile_key(old(self).tiles@[k], mid, w, h, theme@, policy@)
                        ==> #[trigger] self.tiles@[k] == old(self).tiles@[k],
                forall|k: int|
                    old(self).tiles@.len() <= k < self.tiles@.len() ==> tile_key(#[trigger] self.tiles@[k], mid, w, h, theme@, policy@),
                forall|i: int|
                    0 <= i < j ==> tile_present(self.tiles@, mid, w, h, theme@, policy@, (#[trigger] tiles@[i]).tile_index, now),
                forall|i: int|
                    0 <= i < j && last_with_index(tiles@, i, j as int) ==> tile_holds(self.tiles@, mid, w, h, theme@, policy@,
                        (#[trigger] tiles@[i]).tile_index, tiles@[i].bytes@),
            decreases tiles.len() - j,
        {
            let tile = &tiles[j];
            let row = TileRow {
                message_id: mid,
                width_px: w,
                tile_height_px: h,
                theme: crate::text::string_of(&crate::text::chars_of(theme)),
                remote_policy: crate::text::string_of(&crate::text::chars_of(policy)),
                tile_index: tile.tile_index,
                bytes: copy_bytes(&tile.bytes),
                updated_at: now,
            };
            let pos = self.find_tile(mid, w, h, theme, policy, tile.tile_index);
            let ghost before = self.tiles@;
            if pos < self.tiles.len() {
                self.tiles.set(pos, row);
                proof {
                    assert forall|i: int|
                        0 <= i < j + 1 && last_with_index(tiles@, i, j as int + 1) implies tile_holds(self.tiles@, mid, w, h, theme@, policy@,
                            (#[trigger] tiles@[i]).tile_index, tiles@[i].bytes@) by {
                        if i == j {
                            assert(self.tiles@[pos as int] == row);
                        } else {
                            assert(tiles@[i].tile_index != tiles@[j as int].tile_index);
                            assert(last_with_index(tiles@, i, j as int));
                            assert(tile_holds(before, mid, w, h, theme@, policy@, tiles@[i].tile_index, tiles@[i].bytes@));
                            let q = choose|q: int| 0 <= q < before.len() && tile_key(#[trigger] before[q], mid, w, h, theme@, policy@)
                                && before[q].tile_index == tiles@[i].tile_index && before[q].bytes@ == tiles@[i].bytes@;
                            assert(q != pos);
                            assert(self.tiles@[q] == before[q]);
                        }
                    }
                    assert forall|i: int|
                        0 <= i < j + 1 implies tile_present(self.tiles@, mid, w, h, theme@, policy@, (#[trigger] tiles@[i]).tile_index, now) by {
                        if i == j {
                            assert(self.tiles@[pos as int] == row);
                        } else {
                            assert(tile_present(before, mid, w, h, theme@, policy@, tiles@[i].tile_index, now));
                            let q = choose|q: int|
                                0 <= q < before.len() && tile_key(#[trigger] before[q], mid, w, h, theme@, policy@)
                                    && before[q].tile_index == tiles@[i].tile_index
                                    && before[q].updated_at == now;
                            if q == pos {
                                assert(self.tiles@[pos as int] == row);
                            } else {
                                assert(self.tiles@[q] == before[q]);
                            }
                        }
                    }
                }
            } else {
                self.tiles.push(row);
                proof {
                    assert forall|i: int|
                        0 <= i < j + 1 && last_with_index(tiles@, i, j as int + 1) implies tile_holds(self.tiles@, mid, w, h, theme@, policy@,
                            (#[trigger] tiles@[i]).tile_index, tiles@[i].bytes@) by {
                        if i == j {
                            assert(self.tiles@[before.len() as int] == row);
                        } else {
                            assert(last_with_index(tiles@, i, j as int));
                            assert(tile_holds(before, mid, w, h, theme@, policy@, tiles@[i].tile_index, tiles@[i].bytes@));
                            let q = choose|q: int| 0 <= q < before.len() && tile_key(#[trigger] before[q], mid, w, h, theme@, policy@)
                                && before[q].tile_index == tiles@[i].tile_index && before[q].bytes@ == tiles@[i].bytes@;
                            assert(self.tiles@[q] == before[q]);
                        }
                    }
                    assert forall|i: int|
                        0 <= i < j + 1 implies tile_present(self.tiles@, mid, w, h, theme@, policy@, (#[trigger] tiles@[i]).tile_index, now) by {
                        if i == j {
                            assert(self.tiles@[before.len() as int] == row);
                        } else {
                            assert(tile_present(before, mid, w, h, theme@, policy@, tiles@[i].tile_index, now));
                            let q = choose|q: int|
                                0 <= q < before.len() && tile_key(#[trigger] before[q], mid, w, h, theme@, policy@)
                                    && before[q].tile_index == tiles@[i].tile_index
                                    && before[q].updated_at == now;
                            assert(self.tiles@[q] == before[q]);
                        }
                    }
                }
            }
            j += 1;
        }
    }

    /// Total tile bytes, saturated at `i64::MAX`.
    pub fn cache_tiles_total_bytes(&self) -> (r: i64)
        ensures
            r as int == saturated_bytes(self.tiles@),
    {
        let mut total: i64 = 0;
        let mut k: usize = 0;
        while k < self.tiles.len()
            invariant
                k <= self.tiles@.len(),
                total as int == if tile_bytes(self.tiles@.subrange(0, k as int)) < i64::MAX {
                    tile_bytes(self.tiles@.subrange(0, k as int))
                } else {
                    i64::MAX as int
                },
                total >= 0,
            decreases self.tiles.len() - k,
        {
            proof {
                let s1 = self.tiles@.subrange(0, k as int + 1);
                assert(s1.drop_last() =~= self.tiles@.subrange(0, k as int));
                lemma_tile_bytes_nonneg(s1.drop_last());
            }
            let n = self.tiles[k].bytes.len();
            if total < i64::MAX {
                if (n as u64) >= ((i64::MAX - total) as u64) {
                    total = i64::MAX;
                } else {
                    total = total + n as i64;
                }
            }
            k += 1;
        }
        assert(self.tiles@.subrange(0, self.tiles@.len() as int) =~= self.tiles@);
        total
    }

    /// Removes one least recently used tile row; returns where it stood.
    fn remove_oldest(&mut self) -> (r: usize)
        requires
            old(self).wf(),
            old(self).tiles@.len() > 0,
        ensures
            final(self).wf(),
            Self::only_tiles_differ(final(self), old(self)),
            final(self).clock == old(self).clock,
            r < old(self).tiles@.len(),
            final(self).tiles@ == old(self).tiles@.remove(r as int),
            forall|k: int| 0 <= k < old(self).tiles@.len() ==> old(self).tiles@[r as int].updated_at <= (#[trigger] old(self).tiles@[k]).updated_at,
    {
        let mut best: usize = 0;
        let mut k: usize = 1;
        while k < self.tiles.len()
            invariant
                1 <= k <= self.tiles@.len(),
                best < k,
                forall|j: int| 0 <= j < k ==> self.tiles@[best as int].updated_at <= (#[trigger] self.tiles@[j]).updated_at,
            decreases self.tiles.len() - k,
        {
            if self.tiles[k].updated_at < self.tiles[best].updated_at {
                best = k;
            }
            k += 1;
        }
        let ghost before = self.tiles@;
        let _gone = self.tiles.remove(best);
        proof {
            assert forall|j: int| 0 <= j < self.tiles@.len() implies (#[trigger] self.tiles@[j]).updated_at <= self.clock by {
                if j < best {
                    assert(self.tiles@[j] == before[j]);
                } else {
                    assert(self.tiles@[j] == before[j + 1]);
                }
            }
        }
        best
    }

    /// Evicts least recently used tiles, fifty rows per pass, until the tiles hold at most
    /// `max_bytes` bytes or none is left.
    pub fn prune_cache_tiles(&mut self, max_bytes: i64)
        requires
            old(self).wf(),
        ensures
            final(self).wf(),
            Self::only_tiles_differ(final(self), old(self)),
            final(self).clock == old(self).clock,
            saturated_bytes(final(self).tiles@) <= max_bytes || final(self).tiles@.len() == 0,
            tile_bytes(old(self).tiles@) <= max_bytes ==> final(self).tiles@ == old(self).tiles@,
            forall|k: int| 0 <= k < final(self).tiles@.len() ==> old(self).tiles@.contains(#[trigger] final(self).tiles@[k]),
            forall|o: TileRow, k: int| #![trigger old(self).tiles@.contains(o), final(self).tiles@[k]]
                old(self).tiles@.contains(o) && !final(self).tiles@.contains(o) && 0 <= k < final(self).tiles@.len()
                    ==> o.updated_at <= final(self).tiles@[k].updated_at,
            final(self).tiles@.len() <= old(self).tiles@.len(),
            final(self).tiles@.len() == 0 || (old(self).tiles@.len() - final(self).tiles@.len()) % 50 == 0,
    {
        let mut total = self.cache_tiles_total_bytes();
        let ghost mut passes: nat = 0;
        if total <= max_bytes {
            return;
        }
        loop
            invariant
                self.wf(),
                Self::only_tiles_differ(self, old(self)),
                self.clock == old(self).clock,
                total as int == saturated_bytes(self.tiles@),
                forall|k: int| 0 <= k < self.tiles@.len() ==> old(self).tiles@.contains(#[trigger] self.tiles@[k]),
                forall|o: TileRow, k: int| #![trigger old(self).tiles@.contains(o), self.tiles@[k]]
                    old(self).tiles@.contains(o) && !self.tiles@.contains(o) && 0 <= k < self.tiles@.len()
                        ==> o.updated_at <= self.tiles@[k].updated_at,
                self.tiles@.len() <= old(self).tiles@.len(),
                self.tiles@.len() == 0 || old(self).tiles@.len() - self.tiles@.len() == 50 * passes,
            ensures
                saturated_bytes(self.tiles@) <= max_bytes || self.tiles@.len() == 0,
                self.tiles@.len() <= old(self).tiles@.len(),
                self.tiles@.len() == 0 || old(self).tiles@.len() - self.tiles@.len() == 50 * passes,
            decreases self.tiles.len(),
        {
            if total <= max_bytes {
                break;
            }
            let mut deleted: usize = 0;
            let ghost start_len = self.tiles@.len();
            while deleted < 50 && self.tiles.len() > 0
                invariant
                    self.wf(),
                    Self::only_tiles_differ(self, old(self)),
                    self.clock == old(self).clock,
                    deleted <= 50,
                    self.tiles@.len() + deleted == start_len,
                    forall|k: int| 0 <= k < self.tiles@.len() ==> old(self).tiles@.contains(#[trigger] self.tiles@[k]),
                    forall|o: TileRow, k: int| #![trigger old(self).tiles@.contains(o), self.tiles@[k]]
                        old(self).tiles@.contains(o) && !self.tiles@.contains(o) && 0 <= k < self.tiles@.len()
                            ==> o.updated_at <= self.tiles@[k].updated_at,
                decreases 50 - deleted,
            {
                let ghost cur = self.tiles@;
                let i = self.remove_oldest();
                proof {
                    let nxt = self.tiles@;
                    assert forall|k: int| 0 <= k < nxt.len() implies cur.contains(#[trigger] nxt[k]) by {
                        if k < i {
                            assert(nxt[k] == cur[k]);
                        } else {
                            assert(nxt[k] == cur[k + 1]);
                        }
                    }
                    assert forall|k: int| 0 <= k < nxt.len() implies old(self).tiles@.contains(#[trigger] nxt[k]) by {
                        assert(cur.contains(nxt[k]));
                        let w = choose|w: int| 0 <= w < cur.len() && cur[w] == nxt[k];
                        assert(old(self).tiles@.contains(cur[w]));
                    }
                    assert forall|o: TileRow, k: int| #![trigger old(self).tiles@.contains(o), nxt[k]]
                        old(self).tiles@.contains(o) && !nxt.contains(o) && 0 <= k < nxt.len()
                            implies o.updated_at <= nxt[k].updated_at by {
                        assert(cur.contains(nxt[k]));
                        let w = choose|w: int| 0 <= w < cur.len() && cur[w] == nxt[k];
                        if cur.contains(o) {
                            let m = choose|m: int| 0 <= m < cur.len() && cur[m] == o;
                            if m != i {
                                if m < i {
                                    assert(nxt[m] == o);
                                } else {
                                    assert(nxt[m - 1] == o);
                                }
                            }
                            assert(cur[i as int].updated_at <= cur[w].updated_at);
                        }
                    }
                }
                deleted += 1;
            }
            proof {
                passes = passes + 1;
            }
            if deleted == 0 {
                break;
            }
            total = self.cache_tiles_total_bytes();
        }
        proof {
            if self.tiles@.len() != 0 {
                assert((50 * passes) % 50 == 0) by (nonlinear_arith);
            }
        }
    }

    /// The sync state of folder `fid`, if one was recorded.
    pub fn get_folder_sync_state(&self, fid: i64) -> (r: Option<FolderSyncState>)
        ensures
            r == state_of(self.sync_states@, fid),
    {
        let mut k: usize = 0;
        assert(self.sync_states@.subrange(0, self.sync_states@.len() as int) =~= self.sync_states@);
        while k < self.sync_states.len()
            invariant
                k <= self.sync_states@.len(),
                state_of(self.sync_states@, fid) == state_of(self.sync_states@.subrange(k as int, self.sync_states@.len() as int), fid),
            decreases self.sync_states.len() - k,
        {
            let st = &self.sync_states[k];
            proof {
                let t = self.sync_states@.subrange(k as int, self.sync_states@.len() as int);
                assert(t.drop_first() =~= self.sync_states@.subrange(k as int + 1, self.sync_states@.len() as int));
            }
            if st.folder_id == fid {
                return Some(FolderSyncState {
                    folder_id: st.folder_id,
                    uidvalidity: st.uidvalidity,
                    uidnext: st.uidnext,
                    last_seen_uid: st.last_seen_uid,
                    last_sync_ts: st.last_sync_ts,
                    oldest_ts: st.oldest_ts,
                });
            }
            k += 1;
        }
        None
    }

    /// Where the first sync state of folder `fid` stands, or the row count.
    fn find_state_index(&self, fid: i64) -> (r: usize)
        ensures
            r <= self.sync_states@.len(),
            r < self.sync_states@.len() ==> self.sync_states@[r as int].folder_id == fid,
            forall|j: int| 0 <= j < r ==> (#[trigger] self.sync_states@[j]).folder_id != fid,
    {
        let mut k: usize = 0;
        while k < self.sync_states.len()
            invariant
                k <= self.sync_states@.len(),
                forall|j: int| 0 <= j < k ==> (#[trigger] self.sync_states@[j]).folder_id != fid,
            decreases self.sync_states.len() - k,
        {
            if self.sync_states[k].folder_id == fid {
                return k;
            }
            k += 1;
        }
        k
    }

    /// Records the sync state of its folder, replacing the one recorded before.
    pub fn upsert_folder_sync_state(&mut self, st: FolderSyncState)
        requires
            old(self).wf(),
        ensures
            final(self).wf(),
            state_of(final(self).sync_states@, st.folder_id) == Some(st),
            forall|g: i64| g != st.folder_id ==> state_of(final(self).sync_states@, g) == state_of(old(self).sync_states@, g),
            final(self).messages@ == old(self).messages@,
            final(self).folders@ == old(self).folders@,
            final(self).accounts@ == old(self).accounts@,
            final(self).bodies@ == old(self).bodies@,
            final(self).text_cache@ == old(self).text_cache@,
            final(self).html_cache@ == old(self).html_cache@,
            final(self).tiles@ == old(self).tiles@,
            final(self).next_id == old(self).next_id,
            final(self).clock == old(self).clock,
    {
        let fid = st.folder_id;
        let k = self.find_state_index(fid);
        let ghost before = self.sync_states@;
        proof {
            lemma_state_of_prefix(before, k as int, fid);
        }
        if k < self.sync_states.len() {
            self.sync_states.set(k, st);
            proof {
                lemma_state_of_update(before, k as int, st);
            }
        } else {
            self.sync_states.push(st);
            proof {
                lemma_state_of_push(before, st);
            }
        }
    }

    /// Merges a sync batch into folder `fid`, then folds its update into the folder's sync
    /// state.
    pub fn apply_sync_batch(
        &mut self,
        account_id: i64,
        fid: i64,
        items: &[MessageSummary],
        update: Option<SyncUpdate>,
    ) -> (r: Result<(), StoreError>)
        requires
            old(self).wf(),
        ensures
            final(self).wf(),
            r is Ok <==> old(self).has_room(items@.len() as int),
            r is Ok ==> (rows_view(final(self).messages@), final(self).next_id) == appended(
                rows_view(old(self).messages@),
                fid,
                account_id,
                items@,
                old(self).next_id,
            ),
            r is Ok ==> state_of(final(self).sync_states@, fid) == match update {
                Some(u) => Some(merged_state(state_of(old(self).sync_states@, fid), fid, u)),
                None => state_of(old(self).sync_states@, fid),
            },
            r is Err ==> final(self).messages@ == old(self).messages@ && final(self).sync_states@ == old(self).sync_states@,
            final(self).folders@ == old(self).folders@,
            final(self).tiles@ == old(self).tiles@,
    {
        match self.upsert_folder_messages_append(account_id, fid, items) {
            Err(e) => Err(e),
            Ok(()) => {
                if let Some(u) = update {
                    let existing = self.get_folder_sync_state(fid);
                    let merged = merge_sync_state(existing, fid, &u);
                    self.upsert_folder_sync_state(merged);
                }
                Ok(())
            },
        }
    }

    /// The id of the account's folder named `name`.
    pub fn folder_id_by_name(&self, account_id: i64, name: &str) -> (r: Option<i64>)
        ensures
            r matches Some(id) ==> exists|k: int|
                0 <= k < self.folders@.len() && (#[trigger] self.folders@[k]).id == id
                    && self.folders@[k].account_id == account_id && self.folders@[k].name@ == name@,
            r is None ==> forall|k: int|
                0 <= k < self.folders@.len() ==> !((#[trigger] self.folders@[k]).account_id == account_id
                    && self.folders@[k].name@ == name@),
    {
        let mut k: usize = 0;
        while k < self.folders.len()
            invariant
                k <= self.folders@.len(),
                forall|q: int|
                    0 <= q < k ==> !((#[trigger] self.folders@[q]).account_id == account_id
                        && self.folders@[q].name@ == name@),
            decreases self.folders.len() - k,
        {
            if self.folders[k].account_id == account_id && str_eq(&self.folders[k].name, name) {
                return Some(self.folders[k].id);
            }
            k += 1;
        }
        None
    }

    /// Makes the account's folders exactly the listed names: known names take the listed
    /// unread count, new names are added, and folders absent from the list are removed with
    /// their messages. Returns the listed folders with their ids.
    pub fn upsert_folders(&mut self, account_id: i64, incoming: &[Folder]) -> (r: Result<Vec<Folder>, StoreError>)
        requires
            old(self).wf(),
        ensures
            final(self).wf(),
            r is Ok <==> old(self).next_id + incoming@.len() < i64::MAX,
            r is Err ==> final(self).folders@ == old(self).folders@ && final(self).messages@ == old(self).messages@,
            r matches Ok(out) ==> out@.len() == incoming@.len() && forall|j: int|
                0 <= j < incoming@.len() ==> (#[trigger] out@[j]).name@ == incoming@[j].name@
                    && out@[j].account_id == account_id && out@[j].unread == incoming@[j].unread,
            r matches Ok(out) ==> forall|j: int|
                0 <= j < incoming@.len() ==> folder_present(final(self).folders@, (#[trigger] out@[j]).id, account_id, incoming@[j].name@),
            r is Ok ==> forall|k: int|
                0 <= k < final(self).folders@.len() && (#[trigger] final(self).folders@[k]).account_id == account_id
                    ==> name_listed(incoming@, final(self).folders@[k].name@),
            r is Ok ==> forall|k: int|
                0 <= k < old(self).folders@.len() && (#[trigger] old(self).folders@[k]).account_id != account_id
                    ==> final(self).folders@.contains(old(self).folders@[k]),
            r matches Ok(out) ==> forall|j: int|
                0 <= j < incoming@.len() && has_folder_named(old(self).folders@, account_id, incoming@[j].name@)
                    ==> folder_present(old(self).folders@, (#[trigger] out@[j]).id, account_id, incoming@[j].name@),
            r is Ok ==> final(self).bodies@ == unlisted(old(self).bodies@, orphan_ids(old(self).messages@, old(self).folders@, account_id, incoming@)),
            r is Ok ==> final(self).text_cache@ == unlisted(old(self).text_cache@, orphan_ids(old(self).messages@, old(self).folders@, account_id, incoming@)),
            r is Ok ==> final(self).html_cache@ == unlisted(old(self).html_cache@, orphan_ids(old(self).messages@, old(self).folders@, account_id, incoming@)),
            r is Ok ==> final(self).tiles@ == unlisted(old(self).tiles@, orphan_ids(old(self).messages@, old(self).folders@, account_id, incoming@)),
            final(self).accounts@ == old(self).accounts@,
            final(self).sync_states@ == old(self).sync_states@,
            r is Ok ==> final(self).messages@ == unlisted(
                old(self).messages@,
                orphan_ids(old(self).messages@, old(self).folders@, account_id, incoming@),
            ),
            r is Ok && incoming@.len() == 0 ==> forall|k: int|
                0 <= k < final(self).folders@.len() ==> (#[trigger] final(self).folders@[k]).account_id != account_id,
    {
        if (incoming.len() as u64) >= ((i64::MAX - self.next_id) as u64) {
            return Err(StoreError::Full);
        }
        let ghost folders0 = self.folders@;
        let ghost msgs0 = self.messages@;
        // folders that the list drops
        let mut dropped: Vec<i64> = Vec::new();
        let mut k: usize = 0;
        while k < self.folders.len()
            invariant
                folders0 == self.folders@,
                k <= folders0.len(),
                forall|f: i64|
                    dropped@.contains(f) <==> exists|q: int|
                        0 <= q < k && (#[trigger] folders0[q]).id == f && folder_dropped(folders0[q], account_id, incoming@),
            decreases self.folders.len() - k,
        {
            let ghost before = dropped@;
            if self.folders[k].account_id == account_id && !name_in(incoming, &self.folders[k].name) {
                dropped.push(self.folders[k].id);
            }
            proof {
                assert forall|f: i64|
                    dropped@.contains(f) <==> exists|q: int|
                        0 <= q < k + 1 && (#[trigger] folders0[q]).id == f && folder_dropped(folders0[q], account_id, incoming@) by {
                    if folder_dropped(folders0[k as int], account_id, incoming@) {
                        lemma_push_contains(before, folders0[k as int].id, f);
                    }
                }
            }
            k += 1;
        }
        // messages in those folders
        let mut orphans: Vec<i64> = Vec::new();
        let mut i: usize = 0;
        while i < self.messages.len()
            invariant
                msgs0 == self.messages@,
                folders0 == self.folders@,
                i <= msgs0.len(),
                forall|f: i64| dropped@.contains(f) <==> fid_dropped(folders0, account_id, incoming@, f),
                orphans@ == orphan_ids(msgs0.subrange(0, i as int), folders0, account_id, incoming@),
            decreases self.messages.len() - i,
        {
            let gone = contains_id(&dropped, self.messages[i].summary.folder_id);
            let ghost old_orphans = orphans@;
            if gone {
                orphans.push(self.messages[i].summary.id);
            }
            proof {
                reveal(Seq::filter);
                let pr = |m: StoredMessage| fid_dropped(folders0, account_id, incoming@, m.summary.folder_id);
                let idf = |m: StoredMessage| m.summary.id;
                let s1 = msgs0.subrange(0, i as int + 1);
                let s0 = msgs0.subrange(0, i as int);
                assert(s1.drop_last() =~= s0);
                assert(s1.last() == msgs0[i as int]);
                assert(s1.filter(pr) == if pr(s1.last()) { s0.filter(pr).push(s1.last()) } else { s0.filter(pr) });
                if gone {
                    assert(s0.filter(pr).push(s1.last()).map_values(idf) =~= s0.filter(pr).map_values(idf).push(idf(s1.last())));
                }
                assert(orphans@ =~= s1.filter(pr).map_values(idf));
            }
            i += 1;
        }
        assert(msgs0.subrange(0, msgs0.len() as int) =~= msgs0);
        let ghost orph = orphans@;
        purge_rows(&mut self.bodies, &orphans);
        purge_rows(&mut self.text_cache, &orphans);
        purge_rows(&mut self.html_cache, &orphans);
        purge_rows(&mut self.tiles, &orphans);
        purge_rows(&mut self.messages, &orphans);
        proof {
            lemma_unlisted_within(old(self).tiles@, orph, self.clock);
            lemma_unique_filter(msgs0, orph);
            lemma_filter_len_le(msgs0, orph);
            assert forall|j: int| 0 <= j < self.messages@.len() implies (#[trigger] self.messages@[j]).summary.id
                < self.next_id by {
                assert(msgs0.contains(self.messages@[j]));
            }
        }
        // keep the folders that stay
        let mut kept: Vec<Folder> = Vec::new();
        let mut q: usize = 0;
        while q < self.folders.len()
            invariant
                q <= self.folders@.len(),
                forall|a: int| 0 <= a < kept@.len() ==> (#[trigger] kept@[a]).account_id == account_id
                    ==> name_listed(incoming@, kept@[a].name@),
                forall|a: int| 0 <= a < q && (#[trigger] self.folders@[a]).account_id != account_id ==> kept@.contains(self.folders@[a]),
                forall|a: int| 0 <= a < q && (#[trigger] self.folders@[a]).account_id == account_id && name_listed(incoming@, self.folders@[a].name@)
                    ==> kept@.contains(self.folders@[a]),
                forall|a: int| 0 <= a < kept@.len() ==> self.folders@.contains(#[trigger] kept@[a]),
            decreases self.folders.len() - q,
        {
            let ghost before = kept@;
            if self.folders[q].account_id != account_id || name_in(incoming, &self.folders[q].name) {
                kept.push(copy_folder(&self.folders[q]));
                proof {
                    assert forall|a: int| 0 <= a < q && (#[trigger] self.folders@[a]).account_id != account_id implies kept@.contains(self.folders@[a]) by {
                        let w = choose|w: int| 0 <= w < before.len() && before[w] == self.folders@[a];
                        assert(kept@[w] == before[w]);
                    }
                    assert forall|a: int| 0 <= a < q && (#[trigger] self.folders@[a]).account_id == account_id && name_listed(incoming@, self.folders@[a].name@)
                        implies kept@.contains(self.folders@[a]) by {
                        let w = choose|w: int| 0 <= w < before.len() && before[w] == self.folders@[a];
                        assert(kept@[w] == before[w]);
                    }
                    assert(kept@[kept@.len() - 1] == self.folders@[q as int]);
                    assert forall|a: int| 0 <= a < kept@.len() implies self.folders@.contains(#[trigger] kept@[a]) by {
                        if a < before.len() {
                            assert(kept@[a] == before[a]);
                        } else {
                            assert(self.folders@[q as int] == kept@[a]);
                        }
                    }
                }
            }
            q += 1;
        }
        let ghost folders_mid = self.folders@;
        assert(folders_mid == folders0);
        proof {
            assert forall|w: int| 0 <= w < folders0.len() && (#[trigger] folders0[w]).account_id == account_id
                && name_listed(incoming@, folders0[w].name@) implies same_folder_in(kept@, folders0[w]) by {
                assert(kept@.contains(folders0[w]));
                let k = choose|k: int| 0 <= k < kept@.len() && kept@[k] == folders0[w];
            }
            assert forall|k: int| 0 <= k < kept@.len() && (#[trigger] kept@[k]).account_id == account_id
                && has_folder_named(folders0, account_id, kept@[k].name@) implies folder_present(folders0, kept@[k].id, account_id, kept@[k].name@) by {
                assert(folders0.contains(kept@[k]));
                let w = choose|w: int| 0 <= w < folders0.len() && folders0[w] == kept@[k];
            }
        }
        self.folders = kept;
        // add or refresh the listed folders
        let mut out: Vec<Folder> = Vec::new();
        let mut j: usize = 0;
        while j < incoming.len()
            invariant
                self.wf(),
                self.messages@ == unlisted(msgs0, orphan_ids(msgs0, folders0, account_id, incoming@)),
                self.next_id <= old(self).next_id + j,
                old(self).next_id + incoming@.len() < i64::MAX,
                j <= incoming@.len(),
                out@.len() == j,
                forall|a: int| 0 <= a < j ==> (#[trigger] out@[a]).name@ == incoming@[a].name@
                    && out@[a].account_id == account_id && out@[a].unread == incoming@[a].unread,
                forall|a: int| 0 <= a < j ==> folder_present(self.folders@, (#[trigger] out@[a]).id, account_id, incoming@[a].name@),
                forall|a: int| 0 <= a < self.folders@.len() && (#[trigger] self.folders@[a]).account_id == account_id
                    ==> name_listed(incoming@, self.folders@[a].name@),
                forall|a: int| 0 <= a < folders_mid.len() && (#[trigger] folders_mid[a]).account_id != account_id
                    ==> self.folders@.contains(folders_mid[a]),
                folders_mid == folders0,
                orph == orphan_ids(msgs0, folders0, account_id, incoming@),
                self.bodies@ == unlisted(old(self).bodies@, orph),
                self.text_cache@ == unlisted(old(self).text_cache@, orph),
                self.html_cache@ == unlisted(old(self).html_cache@, orph),
                self.tiles@ == unlisted(old(self).tiles@, orph),
                self.accounts@ == old(self).accounts@,
                self.sync_states@ == old(self).sync_states@,
                forall|w: int| 0 <= w < folders0.len() && (#[trigger] folders0[w]).account_id == account_id
                    && name_listed(incoming@, folders0[w].name@) ==> same_folder_in(self.folders@, folders0[w]),
                forall|k: int| 0 <= k < self.folders@.len() && (#[trigger] self.folders@[k]).account_id == account_id
                    && has_folder_named(folders0, account_id, self.folders@[k].name@) ==> folder_present(folders0, self.folders@[k].id, account_id, self.folders@[k].name@),
                forall|a: int| 0 <= a < j && has_folder_named(folders0, account_id, incoming@[a].name@)
                    ==> folder_present(folders0, (#[trigger] out@[a]).id, account_id, incoming@[a].name@),
            decreases incoming.len() - j,
        {
            let f = &incoming[j];
            proof {
                assert(name_listed(incoming@, incoming@[j as int].name@));
            }
            let ghost before = self.folders@;
            let ghost next_before = self.next_id;
            let found = self.folder_id_by_name(account_id, f.name.as_str());
            let id = match found {
                Some(id) => {
                    let mut p: usize = 0;
                    while p < self.folders.len()
                        invariant
                            self.wf(),
                            self.messages@ == unlisted(msgs0, orphan_ids(msgs0, folders0, account_id, incoming@)),
                            self.next_id == next_before,
                            self.bodies@ == unlisted(old(self).bodies@, orph),
                            self.text_cache@ == unlisted(old(self).text_cache@, orph),
                            self.html_cache@ == unlisted(old(self).html_cache@, orph),
                            self.tiles@ == unlisted(old(self).tiles@, orph),
                            self.accounts@ == old(self).accounts@,
                            self.sync_states@ == old(self).sync_states@,
                            self.folders@.len() == before.len(),
                            p <= self.folders@.len(),
                            forall|z: int| 0 <= z < self.folders@.len() ==> (#[trigger] self.folders@[z]).id == before[z].id
                                && self.folders@[z].account_id == before[z].account_id && self.folders@[z].name@ == before[z].name@,
                            forall|z: int| 0 <= z < self.folders@.len() && before[z].account_id != account_id ==> #[trigger] self.folders@[z] == before[z],
                        decreases self.folders.len() - p,
                    {
                        if self.folders[p].id == id && self.folders[p].account_id == account_id {
                            let nf = Folder {
                                id: id,
                                account_id: account_id,
                                name: self.folders[p].name.clone(),
                                unread: f.unread,
                            };
                            self.folders.set(p, nf);
                        }
                        p += 1;
                    }
                    id
                },
                None => {
                    let id = self.next_id;
                    self.folders.push(Folder { id: id, account_id: account_id, name: f.name.clone(), unread: f.unread });
                    self.next_id = id + 1;
                    id
                },
            };
            proof {
                assert forall|w: int| 0 <= w < folders0.len() && (#[trigger] folders0[w]).account_id == account_id
                    && name_listed(incoming@, folders0[w].name@) implies same_folder_in(self.folders@, folders0[w]) by {
                    assert(same_folder_in(before, folders0[w]));
                    let k = choose|k: int| 0 <= k < before.len() && (#[trigger] before[k]).id == folders0[w].id
                        && before[k].account_id == folders0[w].account_id && before[k].name@ == folders0[w].name@;
                    assert(self.folders@[k].id == before[k].id);
                }
                assert forall|k: int| 0 <= k < self.folders@.len() && (#[trigger] self.folders@[k]).account_id == account_id
                    && has_folder_named(folders0, account_id, self.folders@[k].name@) implies folder_present(folders0, self.folders@[k].id, account_id, self.folders@[k].name@) by {
                    if k < before.len() {
                        assert(self.folders@[k].id == before[k].id && self.folders@[k].name@ == before[k].name@);
                    } else {
                        let w = choose|w: int| 0 <= w < folders0.len() && (#[trigger] folders0[w]).account_id == account_id && folders0[w].name@ == f.name@;
                        assert(name_listed(incoming@, folders0[w].name@));
                        assert(same_folder_in(before, folders0[w]));
                        let q = choose|q: int| 0 <= q < before.len() && (#[trigger] before[q]).id == folders0[w].id
                            && before[q].account_id == folders0[w].account_id && before[q].name@ == folders0[w].name@;
                        assert(before[q].account_id == account_id && before[q].name@ == f.name@);
                    }
                }
                assert forall|a: int| 0 <= a < self.folders@.len() && (#[trigger] self.folders@[a]).account_id == account_id
                    implies name_listed(incoming@, self.folders@[a].name@) by {
                    if a < before.len() {
                        assert(name_listed(incoming@, before[a].name@));
                    }
                }
                assert forall|a: int| 0 <= a < folders_mid.len() && (#[trigger] folders_mid[a]).account_id != account_id
                    implies self.folders@.contains(folders_mid[a]) by {
                    let w = choose|w: int| 0 <= w < before.len() && before[w] == folders_mid[a];
                    assert(self.folders@[w] == before[w]);
                }
            }
            out.push(Folder { id: id, account_id: account_id, name: f.name.clone(), unread: f.unread });
            proof {
                assert forall|a: int| 0 <= a < j + 1 && has_folder_named(folders0, account_id, incoming@[a].name@)
                    implies folder_present(folders0, (#[trigger] out@[a]).id, account_id, incoming@[a].name@) by {
                    if a == j {
                        if found is None {
                            let w = choose|w: int| 0 <= w < folders0.len() && (#[trigger] folders0[w]).account_id == account_id && folders0[w].name@ == f.name@;
                            assert(name_listed(incoming@, folders0[w].name@));
                            assert(same_folder_in(before, folders0[w]));
                            let q = choose|q: int| 0 <= q < before.len() && (#[trigger] before[q]).id == folders0[w].id
                                && before[q].account_id == folders0[w].account_id && before[q].name@ == folders0[w].name@;
                            assert(before[q].account_id == account_id && before[q].name@ == f.name@);
                        } else {
                            let k = choose|k: int|
                                0 <= k < before.len() && (#[trigger] before[k]).id == id
                                    && before[k].account_id == account_id && before[k].name@ == f.name@;
                        }
                    }
                }
                assert forall|a: int| 0 <= a < j + 1 implies folder_present(self.folders@, (#[trigger] out@[a]).id, account_id, incoming@[a].name@) by {
                    if a < j {
                        assert(folder_present(before, out@[a].id, account_id, incoming@[a].name@));
                        let k = choose|k: int|
                            0 <= k < before.len() && (#[trigger] before[k]).id == out@[a].id
                                && before[k].account_id == account_id && before[k].name@ == incoming@[a].name@;
                        assert(self.folders@[k].id == before[k].id);
                    } else {
                        if found is None {
                            assert(self.folders@[before.len() as int].id == id);
                        } else {
                            let k = choose|k: int|
                                0 <= k < before.len() && (#[trigger] before[k]).id == id
                                    && before[k].account_id == account_id && before[k].name@ == f.name@;
                            assert(self.folders@[k].id == before[k].id);
                        }
                    }
                }
            }
            j += 1;
        }
        Ok(out)
    }

    /// Records an account, replacing the name and address of the account with that id.
    pub fn upsert_account(&mut self, id: i64, name: &str, address: &str)
        ensures
            exists|k: int|
                0 <= k < final(self).accounts@.len() && (#[trigger] final(self).accounts@[k]).id == id
                    && final(self).accounts@[k].name@ == name@ && final(self).accounts@[k].address@ == address@,
            forall|k: int|
                0 <= k < old(self).accounts@.len() && (#[trigger] old(self).accounts@[k]).id != id
                    ==> final(self).accounts@.contains(old(self).accounts@[k]),
            final(self).messages@ == old(self).messages@,
            final(self).folders@ == old(self).folders@,
            final(self).sync_states@ == old(self).sync_states@,
            final(self).bodies@ == old(self).bodies@,
            final(self).text_cache@ == old(self).text_cache@,
            final(self).html_cache@ == old(self).html_cache@,
            final(self).tiles@ == old(self).tiles@,
            final(self).next_id == old(self).next_id,
            final(self).clock == old(self).clock,
    {
        let acc = Account { id: id, name: string_of_str(name), address: string_of_str(address) };
        let k = self.find_account_index(id);
        let ghost before = self.accounts@;
        if k < self.accounts.len() {
            self.accounts.set(k, acc);
            proof {
                assert(self.accounts@[k as int].id == id);
                assert forall|q: int| 0 <= q < before.len() && (#[trigger] before[q]).id != id
                    implies self.accounts@.contains(before[q]) by {
                    assert(self.accounts@[q] == before[q]);
                }
            }
        } else {
            self.accounts.push(acc);
            proof {
                assert(self.accounts@[before.len() as int].id == id);
                assert forall|q: int| 0 <= q < before.len() && (#[trigger] before[q]).id != id
                    implies self.accounts@.contains(before[q]) by {
                    assert(self.accounts@[q] == before[q]);
                }
            }
        }
    }

    /// Where the account with id `id` stands, or the row count.
    fn find_account_index(&self, id: i64) -> (r: usize)
        ensures
            r <= self.accounts@.len(),
            r < self.accounts@.len() ==> self.accounts@[r as int].id == id,
    {
        let mut k: usize = 0;
        while k < self.accounts.len()
            invariant
                k <= self.accounts@.len(),
            decreases self.accounts.len() - k,
        {
            if self.accounts[k].id == id {
                return k;
            }
            k += 1;
        }
        k
    }

    /// The id of the account with the given name.
    pub fn account_id_by_name(&self, name: &str) -> (r: Option<i64>)
        ensures
            r matches Some(id) ==> exists|k: int|
                0 <= k < self.accounts@.len() && (#[trigger] self.accounts@[k]).id == id && self.accounts@[k].name@ == name@,
            r is None ==> forall|k: int| 0 <= k < self.accounts@.len() ==> (#[trigger] self.accounts@[k]).name@ != name@,
    {
        let mut k: usize = 0;
        while k < self.accounts.len()
            invariant
                k <= self.accounts@.len(),
                forall|j: int| 0 <= j < k ==> (#[trigger] self.accounts@[j]).name@ != name@,
            decreases self.accounts.len() - k,
        {
            if str_eq(&self.accounts[k].name, name) {
                return Some(self.accounts[k].id);
            }
            k += 1;
        }
        None
    }

    /// The smallest account id.
    pub fn first_account_id(&self) -> (r: Option<i64>)
        ensures
            r is None <==> self.accounts@.len() == 0,
            r matches Some(id) ==> (exists|k: int| 0 <= k < self.accounts@.len() && (#[trigger] self.accounts@[k]).id == id)
                && forall|k: int| 0 <= k < self.accounts@.len() ==> id <= (#[trigger] self.accounts@[k]).id,
    {
        if self.accounts.len() == 0 {
            return None;
        }
        let mut best: usize = 0;
        let mut k: usize = 1;
        while k < self.accounts.len()
            invariant
                1 <= k <= self.accounts@.len(),
                best < k,
                forall|j: int| 0 <= j < k ==> self.accounts@[best as int].id <= (#[trigger] self.accounts@[j]).id,
            decreases self.accounts.len() - k,
        {
            if self.accounts[k].id < self.accounts[best].id {
                best = k;
            }
            k += 1;
        }
        Some(self.accounts[best].id)
    }

    /// The smallest folder id of the account.
    pub fn first_folder_id(&self, account_id: i64) -> (r: Option<i64>)
        ensures
            r is None <==> forall|k: int| 0 <= k < self.folders@.len() ==> (#[trigger] self.folders@[k]).account_id != account_id,
            r matches Some(id) ==> (exists|k: int|
                0 <= k < self.folders@.len() && (#[trigger] self.folders@[k]).id == id && self.folders@[k].account_id == account_id)
                && forall|k: int|
                    0 <= k < self.folders@.len() && (#[trigger] self.folders@[k]).account_id == account_id ==> id <= self.folders@[k].id,
    {
        let mut best: Option<i64> = None;
        let mut k: usize = 0;
        while k < self.folders.len()
            invariant
                k <= self.folders@.len(),
                best is None <==> forall|j: int| 0 <= j < k ==> (#[trigger] self.folders@[j]).account_id != account_id,
                best matches Some(id) ==> (exists|j: int|
                    0 <= j < k && (#[trigger] self.folders@[j]).id == id && self.folders@[j].account_id == account_id)
                    && forall|j: int| 0 <= j < k && (#[trigger] self.folders@[j]).account_id == account_id ==> id <= self.folders@[j].id,
            decreases self.folders.len() - k,
        {
            let f = &self.folders[k];
            if f.account_id == account_id {
                match best {
                    Some(b) => {
                        if f.id < b {
                            best = Some(f.id);
                        }
                    },
                    None => {
                        best = Some(f.id);
                    },
                }
            }
            k += 1;
        }
        best
    }

    /// The raw MIME bytes stored for message `id`.
    pub fn get_raw_body(&self, id: i64) -> (r: Option<Vec<u8>>)
        ensures
            r is Some <==> has_body(self.bodies@, id),
            r matches Some(b) ==> exists|k: int| 0 <= k < self.bodies@.len() && (#[trigger] self.bodies@[k]).message_id == id
                && self.bodies@[k].raw@ == b@,
    {
        let mut k: usize = 0;
        while k < self.bodies.len()
            invariant
                k <= self.bodies@.len(),
                forall|j: int| 0 <= j < k ==> (#[trigger] self.bodies@[j]).message_id != id,
            decreases self.bodies.len() - k,
        {
            if self.bodies[k].message_id == id {
                return Some(copy_bytes(&self.bodies[k].raw));
            }
            k += 1;
        }
        None
    }

    /// Stores display text of message `id` at a width; the latest row of a key is the one read.
    pub fn upsert_cache_text(&mut self, id: i64, width_cols: i64, text: &str)
        requires
            old(self).wf(),
        ensures
            final(self).wf(),
            final(self).text_cache@.len() == old(self).text_cache@.len() + 1,
            final(self).text_cache@.drop_last() == old(self).text_cache@,
            final(self).text_cache@.last().message_id == id,
            final(self).text_cache@.last().width_cols == width_cols,
            final(self).text_cache@.last().text@ == text@,
            final(self).html_cache@ == old(self).html_cache@,
            final(self).messages@ == old(self).messages@,
            final(self).folders@ == old(self).folders@,
            final(self).accounts@ == old(self).accounts@,
            final(self).bodies@ == old(self).bodies@,
            final(self).tiles@ == old(self).tiles@,
            final(self).sync_states@ == old(self).sync_states@,
            final(self).next_id == old(self).next_id,
            final(self).clock == old(self).clock,
    {
        self.text_cache.push(TextRow { message_id: id, width_cols: width_cols, text: string_of_str(text) });
        assert(self.text_cache@.drop_last() =~= old(self).text_cache@);
    }

    /// The display text cached for message `id` at the default width.
    pub fn get_message_text(&self, id: i64) -> (r: Option<String>)
        ensures
            r matches Some(t) ==> text_of(self.text_cache@, id) == Some(t@),
            r is None ==> text_of(self.text_cache@, id) is None,
    {
        let mut k: usize = self.text_cache.len();
        assert(self.text_cache@.subrange(0, k as int) =~= self.text_cache@);
        while k > 0
            invariant
                k <= self.text_cache@.len(),
                text_of(self.text_cache@, id) == text_of(self.text_cache@.subrange(0, k as int), id),
            decreases k,
        {
            proof {
                let s1 = self.text_cache@.subrange(0, k as int);
                assert(s1.drop_last() =~= self.text_cache@.subrange(0, k as int - 1));
            }
            let row = &self.text_cache[k - 1];
            if row.message_id == id && row.width_cols == DEFAULT_TEXT_WIDTH {
                return Some(row.text.clone());
            }
            k -= 1;
        }
        None
    }

    /// A fetched body of message `id`: stored with its display text unless the message
    /// already has a body, in which case nothing changes.
    pub fn apply_raw_body(&mut self, id: i64, raw: &Vec<u8>, text: Option<String>)
        requires
            old(self).wf(),
        ensures
            final(self).wf(),
            has_body(old(self).bodies@, id) ==> final(self).bodies@ == old(self).bodies@
                && final(self).text_cache@ == old(self).text_cache@,
            !has_body(old(self).bodies@, id) ==> final(self).bodies@.len() == old(self).bodies@.len() + 1
                && final(self).bodies@.drop_last() == old(self).bodies@
                && final(self).bodies@.last().message_id == id && final(self).bodies@.last().raw@ == raw@,
            !has_body(old(self).bodies@, id) && text is Some ==> text_of(final(self).text_cache@, id) == Some(text->0@),
            !has_body(old(self).bodies@, id) && text is None ==> final(self).text_cache@ == old(self).text_cache@,
            final(self).messages@ == old(self).messages@,
            final(self).folders@ == old(self).folders@,
            final(self).tiles@ == old(self).tiles@,
    {
        if self.get_raw_body(id).is_some() {
            return;
        }
        self.bodies.push(RawBody { message_id: id, raw: copy_bytes(raw) });
        assert(self.bodies@.drop_last() =~= old(self).bodies@);
        if let Some(t) = text {
            self.upsert_cache_text(id, DEFAULT_TEXT_WIDTH, t.as_str());
        }
    }

    /// Saves a locally composed draft in the account's "Drafts" folder, creating the folder
    /// when missing: a message without server uid, its display text and its MIME text.
    /// Returns the new message id.
    pub fn save_draft(
        &mut self,
        account_id: i64,
        from_addr: &str,
        to: &str,
        cc: &str,
        bcc: &str,
        subject: &str,
        body: &str,
        date: &str,
        date_rfc2822: &str,
    ) -> (r: Result<i64, StoreError>)
        requires
            old(self).wf(),
        ensures
            final(self).wf(),
            r is Ok <==> old(self).has_room(2),
            r is Err ==> final(self).messages@ == old(self).messages@ && final(self).folders@ == old(self).folders@,
            r matches Ok(id) ==> final(self).messages@.len() == old(self).messages@.len() + 1
                && final(self).messages@.drop_last() == old(self).messages@
                && rows_view(final(self).messages@).last() == (MessageRowView {
                    account_id: account_id,
                    id: id,
                    folder_id: final(self).messages@.last().summary.folder_id,
                    imap_uid: None,
                    date: date@,
                    from: from_addr@,
                    subject: subject@,
                    unread: false,
                    preview: preview_from(body@, 0),
                    to: to@,
                    cc: cc@,
                }),
            r matches Ok(id) ==> folder_present(final(self).folders@, final(self).messages@.last().summary.folder_id, account_id, "Drafts"@),
            r matches Ok(id) ==> text_of(final(self).text_cache@, id) == Some(body@),
            r matches Ok(id) ==> final(self).bodies@.last().message_id == id
                && exists|t: &str| t@ == draft_text(from_addr@, to@, cc@, bcc@, subject@, body@, date_rfc2822@)
                    && final(self).bodies@.last().raw@ == t.spec_bytes(),
            r is Ok ==> final(self).bodies@.drop_last() == old(self).bodies@
                && final(self).bodies@.len() == old(self).bodies@.len() + 1,
            r is Ok && has_folder_named(old(self).folders@, account_id, "Drafts"@) ==> final(self).folders@ == old(self).folders@
                && folder_present(old(self).folders@, final(self).messages@.last().summary.folder_id, account_id, "Drafts"@),
            r is Ok && !has_folder_named(old(self).folders@, account_id, "Drafts"@) ==> final(self).folders@.len()
                == old(self).folders@.len() + 1 && final(self).folders@.drop_last() == old(self).folders@
                && final(self).folders@.last().id == final(self).messages@.last().summary.folder_id
                && final(self).folders@.last().account_id == account_id && final(self).folders@.last().name@ == "Drafts"@
                && final(self).folders@.last().unread == 0,
            final(self).tiles@ == old(self).tiles@,
            final(self).accounts@ == old(self).accounts@,
            final(self).sync_states@ == old(self).sync_states@,
            final(self).html_cache@ == old(self).html_cache@,
            final(self).clock == old(self).clock,
    {
        if !self.room_for(2) {
            return Err(StoreError::Full);
        }
        let fid = match self.folder_id_by_name(account_id, "Drafts") {
            Some(fid) => fid,
            None => {
                let fid = self.next_id;
                let ghost fb = self.folders@;
                self.folders.push(Folder { id: fid, account_id: account_id, name: string_of_str("Drafts"), unread: 0 });
                self.next_id = fid + 1;
                assert(self.folders@[self.folders@.len() - 1].id == fid);
                assert(self.folders@.drop_last() =~= fb);
                fid
            },
        };
        let ghost folders_now = self.folders@;
        let id = self.next_id;
        let row = StoredMessage {
            account_id: account_id,
            summary: MessageSummary {
                id: id,
                folder_id: fid,
                imap_uid: None,
                date: string_of_str(date),
                from: string_of_str(from_addr),
                subject: string_of_str(subject),
                unread: false,
                preview: draft_preview(body),
            },
            to: string_of_str(to),
            cc: string_of_str(cc),
        };
        let ghost before = self.messages@;
        self.messages.push(row);
        self.next_id = id + 1;
        proof {
            assert(self.messages@.drop_last() =~= before);
            assert forall|a: int, b: int| 0 <= a < b < self.messages@.len() implies (#[trigger] self.messages@[a]).summary.id
                != (#[trigger] self.messages@[b]).summary.id && (self.messages@[a].summary.folder_id == self.messages@[b].summary.folder_id
                && self.messages@[a].summary.imap_uid is Some ==> self.messages@[a].summary.imap_uid != self.messages@[b].summary.imap_uid) by {
                if b == before.len() {
                    assert(before[a].summary.id < id);
                } else {
                    assert(before[a].summary.id != before[b].summary.id);
                }
            }
            assert forall|j: int| 0 <= j < self.messages@.len() implies (#[trigger] self.messages@[j]).summary.id
                < self.next_id by {
                if j < before.len() {
                    assert(before[j].summary.id < id);
                }
            }
        }
        self.upsert_cache_text(id, DEFAULT_TEXT_WIDTH, body);
        let raw = draft_raw(from_addr, to, cc, bcc, subject, body, date_rfc2822);
        let text = raw.as_str();
        self.bodies.push(RawBody { message_id: id, raw: utf8_bytes(text) });
        assert(self.bodies@.last().raw@ == text.spec_bytes());
        Ok(id)
    }

    /// A point-in-time copy of one account: its folders, its messages newest first, and the
    /// detail of every message that has display text at the default width.
    pub fn load_snapshot(&self, account_id: i64) -> (r: Result<StoreSnapshot, StoreError>)
        requires
            self.wf(),
        ensures
            r is Err <==> forall|k: int| 0 <= k < self.accounts@.len() ==> (#[trigger] self.accounts@[k]).id != account_id,
            r is Err ==> r == Err::<StoreSnapshot, StoreError>(StoreError::UnknownAccount),
            r matches Ok(snap) ==> snap.account.id == account_id
                && snap.folders@ == self.folders@.filter(|f: Folder| f.account_id == account_id),
            r matches Ok(snap) ==> forall|a: int, b: int| 0 <= a < b < snap.messages@.len() ==> (#[trigger] snap.messages@[a]).id != (#[trigger] snap.messages@[b]).id,
            r matches Ok(snap) ==> forall|d: int| 0 <= d < snap.message_details@.len() ==> detail_of_listed(self.messages@, self.text_cache@, #[trigger] snap.message_details@[d], account_id),
            r matches Ok(snap) ==> forall|k: int| 0 <= k < snap.messages@.len() ==> listed_from(self.messages@, #[trigger] snap.messages@[k], account_id, None, None, None),
            r matches Ok(snap) ==> forall|a: int, b: int| 0 <= a < b < snap.messages@.len() ==> listed_before(
                (match parsed_date(snap.messages@[a].date@) { Some(t) => t, None => 0 }, snap.messages@[a].id),
                (match parsed_date(snap.messages@[b].date@) { Some(t) => t, None => 0 }, snap.messages@[b].id),
            ),
            r matches Ok(snap) ==> forall|i: int|
                0 <= i < self.messages@.len() && (#[trigger] self.messages@[i]).account_id == account_id ==> snap.messages@.contains(self.messages@[i].summary),
            r matches Ok(snap) ==> forall|i: int|
                0 <= i < self.messages@.len() && (#[trigger] self.messages@[i]).account_id == account_id
                    && text_of(self.text_cache@, self.messages@[i].summary.id) is Some ==> has_detail(snap.message_details@,
                    self.messages@[i], text_of(self.text_cache@, self.messages@[i].summary.id)->0),
    {
        let mut k: usize = 0;
        let mut found: Option<usize> = None;
        while k < self.accounts.len()
            invariant
                k <= self.accounts@.len(),
                found matches Some(f) ==> f < self.accounts@.len() && self.accounts@[f as int].id == account_id,
                found is None ==> forall|j: int| 0 <= j < k ==> (#[trigger] self.accounts@[j]).id != account_id,
            decreases self.accounts.len() - k,
        {
            if found.is_none() && self.accounts[k].id == account_id {
                found = Some(k);
            }
            k += 1;
        }
        let a = match found {
            None => {
                return Err(StoreError::UnknownAccount);
            },
            Some(a) => a,
        };
        let account = Account {
            id: self.accounts[a].id,
            name: self.accounts[a].name.clone(),
            address: self.accounts[a].address.clone(),
        };
        let mut folders: Vec<Folder> = Vec::new();
        let mut q: usize = 0;
        while q < self.folders.len()
            invariant
                q <= self.folders@.len(),
                folders@ == self.folders@.subrange(0, q as int).filter(|f: Folder| f.account_id == account_id),
            decreases self.folders.len() - q,
        {
            proof {
                reveal(Seq::filter);
                let s1 = self.folders@.subrange(0, q as int + 1);
                assert(s1.drop_last() =~= self.folders@.subrange(0, q as int));
                assert(s1.last() == self.folders@[q as int]);
            }
            if self.folders[q].account_id == account_id {
                folders.push(copy_folder(&self.folders[q]));
            }
            q += 1;
        }
        assert(self.folders@.subrange(0, self.folders@.len() as int) =~= self.folders@);
        let messages = self.list_messages(account_id, None, None, None, None);
        proof {
            assert forall|i: int| 0 <= i < self.messages@.len() && (#[trigger] self.messages@[i]).account_id == account_id
                implies messages@.contains(self.messages@[i].summary) by {
                assert(list_filter(self.messages@[i], account_id, None, None, None));
            }
        }
        let mut details: Vec<MessageDetail> = Vec::new();
        let mut i: usize = 0;
        while i < self.messages.len()
            invariant
                i <= self.messages@.len(),
                forall|d: int| 0 <= d < details@.len() ==> detail_of_listed(self.messages@, self.text_cache@, #[trigger] details@[d], account_id),
                forall|j: int|
                    0 <= j < i && (#[trigger] self.messages@[j]).account_id == account_id
                        && text_of(self.text_cache@, self.messages@[j].summary.id) is Some ==> has_detail(details@,
                        self.messages@[j], text_of(self.text_cache@, self.messages@[j].summary.id)->0),
            decreases self.messages.len() - i,
        {
            let ghost before = details@;
            let m = &self.messages[i];
            if m.account_id == account_id {
                match self.get_message_text(m.summary.id) {
                    Some(body) => {
                        details.push(MessageDetail {
                            id: m.summary.id,
                            subject: m.summary.subject.clone(),
                            from: m.summary.from.clone(),
                            to: m.to.clone(),
                            cc: m.cc.clone(),
                            date: m.summary.date.clone(),
                            body: body,
                            links: Vec::new(),
                            attachments: Vec::new(),
                        });
                        proof {
                            assert(detail_matches(details@[details@.len() - 1], self.messages@[i as int],
                                text_of(self.text_cache@, self.messages@[i as int].summary.id)->0));
                            assert forall|d: int| 0 <= d < details@.len() implies detail_of_listed(self.messages@, self.text_cache@, #[trigger] details@[d], account_id) by {
                                if d < details@.len() - 1 {
                                    assert(details@[d] == before[d]);
                                } else {
                                    assert(self.messages@[i as int].account_id == account_id);
                                }
                            }
                        }
                    },
                    None => {},
                }
            }
            proof {
                assert forall|j: int|
                    0 <= j < i + 1 && (#[trigger] self.messages@[j]).account_id == account_id
                        && text_of(self.text_cache@, self.messages@[j].summary.id) is Some implies has_detail(details@,
                        self.messages@[j], text_of(self.text_cache@, self.messages@[j].summary.id)->0) by {
                    if j < i {
                        assert(has_detail(before, self.messages@[j], text_of(self.text_cache@, self.messages@[j].summary.id)->0));
                        let d = choose|d: int|
                            0 <= d < before.len() && detail_matches(#[trigger] before[d], self.messages@[j],
                                text_of(self.text_cache@, self.messages@[j].summary.id)->0);
                        assert(details@[d] == before[d]);
                    } else {
                        assert(detail_matches(details@[details@.len() - 1], self.messages@[j],
                            text_of(self.text_cache@, self.messages@[j].summary.id)->0));
                    }
                }
            }
            i += 1;
        }
        Ok(StoreSnapshot { account: account, folders: folders, messages: messages, message_details: details })
    }
    /// Inserts one demo message with a fixed id and no server uid.
    fn push_seed_message(
        &mut self,
        id: i64,
        fid: i64,
        date: &str,
        from: &str,
        to: &str,
        cc: &str,
        subject: &str,
        unread: bool,
        preview: &str,
    )
        requires
            old(self).wf(),
            old(self).messages@.len() < MAX_MESSAGES,
            id < old(self).next_id,
            forall|i: int| 0 <= i < old(self).messages@.len() ==> (#[trigger] old(self).messages@[i]).summary.id < id,
        ensures
            final(self).wf(),
            final(self).messages@.len() == old(self).messages@.len() + 1,
            final(self).messages@.drop_last() == old(self).messages@,
            final(self).messages@.last().summary.id == id,
            final(self).messages@.last().summary.folder_id == fid,
            final(self).messages@.last().summary.unread == unread,
            final(self).messages@.last().account_id == 1,
            final(self).next_id == old(self).next_id,
            final(self).accounts@ == old(self).accounts@,
            final(self).folders@ == old(self).folders@,
            final(self).tiles@ == old(self).tiles@,
            final(self).text_cache@ == old(self).text_cache@,
            final(self).sync_states@ == old(self).sync_states@,
    {
        let ghost before = self.messages@;
        self.messages.push(StoredMessage {
            account_id: 1,
            summary: MessageSummary {
                id: id,
                folder_id: fid,
                imap_uid: None,
                date: string_of_str(date),
                from: string_of_str(from),
                subject: string_of_str(subject),
                unread: unread,
                preview: string_of_str(preview),
            },
            to: string_of_str(to),
            cc: string_of_str(cc),
        });
        proof {
            assert(self.messages@.drop_last() =~= before);
            assert forall|a: int, b: int| 0 <= a < b < self.messages@.len() implies (#[trigger] self.messages@[a]).summary.id
                != (#[trigger] self.messages@[b]).summary.id && (self.messages@[a].summary.folder_id == self.messages@[b].summary.folder_id
                && self.messages@[a].summary.imap_uid is Some ==> self.messages@[a].summary.imap_uid != self.messages@[b].summary.imap_uid) by {
                if b == before.len() {
                    assert(before[a].summary.id < id);
                } else {
                    assert(before[a].summary.id != before[b].summary.id);
                }
            }
            assert forall|j: int| 0 <= j < self.messages@.len() implies (#[trigger] self.messages@[j]).summary.id
                < self.next_id by {
                if j < before.len() {
                    assert(before[j].summary.id < id);
                }
            }
        }
    }

    /// Inserts the display text of one demo message.
    fn push_seed_text(&mut self, id: i64, body: &str)
        requires
            old(self).wf(),
        ensures
            final(self).wf(),
            final(self).messages@ == old(self).messages@,
            final(self).next_id == old(self).next_id,
            final(self).accounts@ == old(self).accounts@,
            final(self).folders@ == old(self).folders@,
            final(self).tiles@ == old(self).tiles@,
            final(self).sync_states@ == old(self).sync_states@,
    {
        self.upsert_cache_text(id, DEFAULT_TEXT_WIDTH, body);
    }

    fn seed_work_messages(&mut self, to_header: &String)
        requires
            old(self).wf(),
            old(self).messages@.len() == 0,
            old(self).next_id > 108,
        ensures
            final(self).wf(),
            final(self).messages@.map_values(|m: StoredMessage| m.summary.id) == seq![101i64, 102, 103, 104, 105, 106, 107, 108],
            final(self).messages@.map_values(|m: StoredMessage| m.summary.folder_id) == seq![6i64, 1i64, 1i64, 5i64, 1i64, 1i64, 2i64, 3i64],
            final(self).messages@.map_values(|m: StoredMessage| m.summary.unread) == seq![true, true, false, true, false, true, false, false],
            forall|k: int| 0 <= k < final(self).messages@.len() ==> (#[trigger] final(self).messages@[k]).account_id == 1,
            final(self).next_id == old(self).next_id,
            final(self).accounts@ == old(self).accounts@,
            final(self).folders@ == old(self).folders@,
            final(self).tiles@ == old(self).tiles@,
            final(self).text_cache@ == old(self).text_cache@,
            final(self).sync_states@ == old(self).sync_states@,
    {
        self.push_seed_message(101, 6, "2026-02-14 09:42", "Northstar Outfitters <orders@northstar-outfitters.com>", to_header.as_str(), "", "Your order NS-20419 has shipped", true, "Track your shipment and view order details.");
        self.push_seed_message(102, 1, "2026-02-14 08:15", "Orbit Weekly <editor@orbitweekly.com>", to_header.as_str(), "", "The Friday Brief: product launches, retail trends, and growth playbooks", true, "A polished newsletter with top stories and market signals.");
        self.push_seed_message(103, 1, "2026-02-13 17:28", "Acorn Payments <billing@acornpayments.com>", to_header.as_str(), "finance@northstar-outfitters.com", "Invoice 8842 paid successfully", false, "Payment confirmed. Receipt and breakdown attached.");
        self.push_seed_message(104, 5, "2026-02-13 13:52", "Northstar Studio <hello@northstar-outfitters.com>", to_header.as_str(), "", "48-hour Winter Edit: premium picks up to 30% off", true, "Store campaign with product cards and image-rich layout.");
        self.push_seed_message(105, 1, "2026-02-12 16:10", "Ratmail Team <product@ratmail.dev>", to_header.as_str(), "", "Ratmail 0.7 release notes and roadmap preview", false, "Terminal rendering upgrades, compose improvements, and CLI policy updates.");
        self.push_seed_message(106, 1, "2026-02-12 10:04", "Security Desk <security@workspace.example>", to_header.as_str(), "", "New login detected from San Diego, CA", true, "Sign-in alert with security review link.");
        self.push_seed_message(107, 2, "2026-02-11 21:44", to_header.as_str(), "Jordan Park <jordan@partnerstudio.io>", "", "Re: Q2 co-marketing timeline", false, "Shared timeline and creative milestones for Q2 launch.");
        self.push_seed_message(108, 3, "2026-02-11 14:03", to_header.as_str(), "marketing@northstar-outfitters.com", "", "Draft: Spring campaign concept", false, "Drafting launch copy and hero section options.");
    }

    fn seed_personal_messages(&mut self, to_header: &String)
        requires
            old(self).wf(),
            old(self).messages@.len() == 0,
            old(self).next_id > 108,
        ensures
            final(self).wf(),
            final(self).messages@.map_values(|m: StoredMessage| m.summary.id) == seq![101i64, 102, 103, 104, 105, 106, 107, 108],
            final(self).messages@.map_values(|m: StoredMessage| m.summary.folder_id) == seq![1i64, 1i64, 1i64, 5i64, 1i64, 1i64, 2i64, 3i64],
            final(self).messages@.map_values(|m: StoredMessage| m.summary.unread) == seq![true, true, false, true, false, false, false, false],
            forall|k: int| 0 <= k < final(self).messages@.len() ==> (#[trigger] final(self).messages@[k]).account_id == 1,
            final(self).next_id == old(self).next_id,
            final(self).accounts@ == old(self).accounts@,
            final(self).folders@ == old(self).folders@,
            final(self).tiles@ == old(self).tiles@,
            final(self).text_cache@ == old(self).text_cache@,
            final(self).sync_states@ == old(self).sync_states@,
    {
        self.push_seed_message(101, 1, "2026-02-14 18:22", "Maya Lin <maya.lin@friendsmail.com>", to_header.as_str(), "", "Dinner on Friday?", true, "Italian or sushi? I booked us for 7 if you're free.");
        self.push_seed_message(102, 1, "2026-02-14 11:04", "SkyBridge Airlines <updates@skybridge-air.com>", to_header.as_str(), "", "Trip confirmed: Austin, Mar 3", true, "Gate details, baggage allowance, and check-in timeline.");
        self.push_seed_message(103, 1, "2026-02-13 20:19", "River Bank <alerts@riverbank.com>", to_header.as_str(), "", "Your February statement is ready", false, "Statement available in secure inbox.");
        self.push_seed_message(104, 5, "2026-02-13 08:40", "Neighborhood Makers <hello@makers-district.org>", to_header.as_str(), "", "Weekend events near you", true, "Food popups, gallery night, and live jazz picks.");
        self.push_seed_message(105, 1, "2026-02-12 21:12", "Lena Park <lena.park@photoshare.app>", to_header.as_str(), "", "Photos from Tahoe are up", false, "Shared album with 64 new photos.");
        self.push_seed_message(106, 1, "2026-02-12 09:18", "Google Account <no-reply@accounts.google.com>", to_header.as_str(), "", "Password changed successfully", false, "Security confirmation for your account.");
        self.push_seed_message(107, 2, "2026-02-11 17:31", to_header.as_str(), "Noah Rivera <noah.rivera@friendsmail.com>", "", "Re: Mom's birthday plan", false, "I can pick up the cake and decorations Saturday morning.");
        self.push_seed_message(108, 3, "2026-02-10 22:06", to_header.as_str(), "travel@notes.local", "", "Draft: Packing list for Austin", false, "Carry-on checklist and hotel confirmation notes.");
    }

    fn seed_work_texts(&mut self)
        requires
            old(self).wf(),
        ensures
            final(self).wf(),
            final(self).messages@ == old(self).messages@,
            final(self).next_id == old(self).next_id,
            final(self).accounts@ == old(self).accounts@,
            final(self).folders@ == old(self).folders@,
            final(self).tiles@ == old(self).tiles@,
            final(self).sync_states@ == old(self).sync_states@,
    {
        self.push_seed_text(101, "Your Northstar order NS-20419 is on the way.\nCarrier: ParcelPro\nTracking: PP203948112\nETA: Monday, Feb 17\n\nTrack package: https://northstar-outfitters.com/track/PP203948112");
        self.push_seed_text(102, "Orbit Weekly Friday Brief\n\n1) Retail benchmark report: conversion +12% for mobile-first checkouts.\n2) Creative teardown: what made this week's top lifecycle campaign work.\n3) Product playbook: shipping polished HTML newsletters in under a day.\n\nRead full issue: https://orbitweekly.com/brief/friday");
        self.push_seed_text(103, "Invoice 8842 has been paid.\nAmount: $1,284.00\nMethod: ACH\nPaid: 2026-02-13\n\nReceipt attached in your billing portal.");
        self.push_seed_text(104, "Winter Edit sale is live for 48 hours.\nSelected items are up to 30% off.\nShop now: https://northstar-outfitters.com/winter-edit");
        self.push_seed_text(105, "Ratmail 0.7 highlights:\n- Better HTML rendering stability\n- Faster list redraws\n- Expanded CLI policy controls\n\nRoadmap and release notes: https://ratmail.dev/changelog/0-7");
        self.push_seed_text(106, "We detected a new login from San Diego, CA on 2026-02-12 10:02 PST.\nIf this was you, no action is required.\nIf not, reset your password immediately:\nhttps://workspace.example/security");
        self.push_seed_text(107, "Works for us. We can lock creative on March 3 and start media on March 10.\nI'll share final assets in one folder by end of week.");
        self.push_seed_text(108, "Hero concept A: product-first photography with concise CTA.\nHero concept B: editorial story style with founder quote.\nPending final copy.");
    }

    fn seed_personal_texts(&mut self)
        requires
            old(self).wf(),
        ensures
            final(self).wf(),
            final(self).messages@ == old(self).messages@,
            final(self).next_id == old(self).next_id,
            final(self).accounts@ == old(self).accounts@,
            final(self).folders@ == old(self).folders@,
            final(self).tiles@ == old(self).tiles@,
            final(self).sync_states@ == old(self).sync_states@,
    {
        self.push_seed_text(101, "Are you free Friday at 7?\nI booked us at Luca if you're in.\nIf not, we can switch to sushi downtown.");
        self.push_seed_text(102, "Flight SB231 to Austin is confirmed.\nDeparture: Mar 3, 08:25\nCheck-in opens 24 hours before departure.\n\nManage trip: https://skybridge-air.com/manage/SB231");
        self.push_seed_text(103, "Your February statement is ready.\nSecure message center: https://riverbank.com/inbox");
        self.push_seed_text(104, "Weekend picks near you:\n- Friday: Gallery night (7 PM)\n- Saturday: Food market\n- Sunday: Jazz set at Green Room");
        self.push_seed_text(105, "Uploaded 64 photos from Tahoe. Favorite set: sunrise + lake trail.\nAlbum link: https://photoshare.app/a/tahoe-feb");
        self.push_seed_text(106, "Your password was changed on Feb 12 at 09:17.\nIf this wasn't you, review security settings immediately.");
        self.push_seed_text(107, "I can pick up the cake and decorations on Saturday morning.\nLet's do dinner at 6:30 so everyone can make it.");
        self.push_seed_text(108, "Packing list draft:\n- Jacket\n- Sneakers\n- Chargers\n- Camera\n- Tripod\n- Toiletries");
    }


    /// Whether the demo fixture should be (re)installed: the store has no account, or its
    /// first account looks like an earlier demo.
    pub open spec fn demo_reset_due(&self, label: Seq<char>) -> bool {
        self.accounts@.len() == 0 || match account_one(self.accounts@) {
            Some(a) => demo_like(a, label),
            None => false,
        }
    }

    /// Installs the demo fixture when the store is empty or holds an earlier demo: one
    /// account (id 1) named after the label, six folders, eight messages with ids 101 to 108
    /// and their display text; the work variant when the label mentions "work".
    pub fn seed_demo_if_empty(&mut self, account_label: &str)
        requires
            old(self).wf(),
        ensures
            final(self).wf(),
            !old(self).demo_reset_due(account_label@) ==> final(self).accounts@ == old(self).accounts@
                && final(self).folders@ == old(self).folders@ && final(self).messages@ == old(self).messages@,
            old(self).demo_reset_due(account_label@) ==> final(self).accounts@.len() == 1
                && final(self).accounts@[0].id == 1
                && final(self).accounts@[0].name@ == demo_name(account_label@)
                && final(self).accounts@[0].address@ == demo_address(account_label@)
                && final(self).folders@.map_values(|f: Folder| f.name@) == demo_folder_names()
                && final(self).folders@.map_values(|f: Folder| f.unread) == seq![4u32, 0, 1, 0, 2, 1]
                && final(self).folders@.map_values(|f: Folder| f.id) == seq![1i64, 2, 3, 4, 5, 6]
                && (forall|k: int| 0 <= k < final(self).folders@.len() ==> (#[trigger] final(self).folders@[k]).account_id == 1)
                && (forall|k: int| 0 <= k < final(self).messages@.len() ==> (#[trigger] final(self).messages@[k]).account_id == 1)
                && final(self).messages@.map_values(|m: StoredMessage| m.summary.id) == seq![101i64, 102, 103, 104, 105, 106, 107, 108]
                && final(self).messages@.map_values(|m: StoredMessage| m.summary.folder_id) == if work_label(account_label@) {
                    seq![6i64, 1, 1, 5, 1, 1, 2, 3]
                } else {
                    seq![1i64, 1, 1, 5, 1, 1, 2, 3]
                }
                && final(self).sync_states@.len() == 0 && final(self).tiles@.len() == 0,
    {
        if !self.demo_reset_needed(account_label) {
            return;
        }
        let label = trim_chars(&chars_of(account_label));
        let work = is_work_label(&label);
        self.accounts = Vec::new();
        self.folders = Vec::new();
        self.sync_states = Vec::new();
        self.messages = Vec::new();
        self.bodies = Vec::new();
        self.text_cache = Vec::new();
        self.html_cache = Vec::new();
        self.tiles = Vec::new();
        self.next_id = 200;
        let name = if label.len() == 0 { string_of_str("Ratmail Demo") } else { crate::text::string_of(&label) };
        let address = if work { string_of_str("work@ratmail-demo.local") } else { string_of_str("personal@ratmail-demo.local") };
        let mut header = chars_of(name.as_str());
        crate::text::append_chars(&mut header, &chars_of(" <"));
        crate::text::append_chars(&mut header, &chars_of(address.as_str()));
        crate::text::append_chars(&mut header, &chars_of(">"));
        let to_header = crate::text::string_of(&header);
        self.accounts.push(Account { id: 1, name: name, address: address });
        self.folders.push(Folder { id: 1, account_id: 1, name: string_of_str("INBOX"), unread: 4 });
        self.folders.push(Folder { id: 2, account_id: 1, name: string_of_str("Sent"), unread: 0 });
        self.folders.push(Folder { id: 3, account_id: 1, name: string_of_str("Drafts"), unread: 1 });
        self.folders.push(Folder { id: 4, account_id: 1, name: string_of_str("Archive"), unread: 0 });
        self.folders.push(Folder { id: 5, account_id: 1, name: string_of_str("Promotions"), unread: 2 });
        self.folders.push(Folder { id: 6, account_id: 1, name: string_of_str("Orders"), unread: 1 });
        assert(self.folders@.map_values(|f: Folder| f.name@) =~= demo_folder_names());
        assert(self.folders@.map_values(|f: Folder| f.unread) =~= seq![4u32, 0, 1, 0, 2, 1]);
        assert(self.folders@.map_values(|f: Folder| f.id) =~= seq![1i64, 2, 3, 4, 5, 6]);
        if work {
            self.seed_work_messages(&to_header);
            self.seed_work_texts();
        } else {
            self.seed_personal_messages(&to_header);
            self.seed_personal_texts();
        }
    }

    /// Whether the demo fixture should be installed for this label.
    pub fn demo_reset_needed(&self, account_label: &str) -> (r: bool)
        ensures
            r == self.demo_reset_due(account_label@),
    {
        if self.accounts.len() == 0 {
            return true;
        }
        let mut k: usize = 0;
        assert(self.accounts@.subrange(0, self.accounts@.len() as int) =~= self.accounts@);
        while k < self.accounts.len()
            invariant
                k <= self.accounts@.len(),
                account_one(self.accounts@) == account_one(self.accounts@.subrange(k as int, self.accounts@.len() as int)),
            decreases self.accounts.len() - k,
        {
            proof {
                let t = self.accounts@.subrange(k as int, self.accounts@.len() as int);
                assert(t.drop_first() =~= self.accounts@.subrange(k as int + 1, self.accounts@.len() as int));
            }
            if self.accounts[k].id == 1 {
                return demo_like_exec(&self.accounts[k], account_label);
            }
            k += 1;
        }
        false
    }

    /// Whether folder `fid` holds a message.
    pub fn folder_has_rows(&self, fid: i64) -> (r: bool)
        ensures
            r == exists|i: int| 0 <= i < self.messages@.len() && (#[trigger] self.messages@[i]).summary.folder_id == fid,
    {
        let mut i: usize = 0;
        while i < self.messages.len()
            invariant
                i <= self.messages@.len(),
                forall|j: int| 0 <= j < i ==> (#[trigger] self.messages@[j]).summary.folder_id != fid,
            decreases self.messages.len() - i,
        {
            if self.messages[i].summary.folder_id == fid {
                return true;
            }
            i += 1;
        }
        false
    }

    /// Stores the result of a folder sync: an initial sync of an empty folder replaces its
    /// rows, every other sync appends; then the batch's update (highest uid, earliest date,
    /// the time `now`) is folded into the folder's sync state.
    pub fn apply_sync_result(&mut self, mode: &SyncMode, account_id: i64, fid: i64, items: &[MessageSummary], now: i64) -> (r: Result<(), StoreError>)
        requires
            old(self).wf(),
        ensures
            final(self).wf(),
            r is Ok <==> old(self).has_room(items@.len() as int),
            r is Ok && replaces(*mode, old(self).messages@, fid) ==> uids_of(rows_view(final(self).messages@), fid) == batch_uids(items@),
            r is Ok && !replaces(*mode, old(self).messages@, fid) ==> (rows_view(final(self).messages@), final(self).next_id) == appended(
                rows_view(old(self).messages@),
                fid,
                account_id,
                items@,
                old(self).next_id,
            ),
            r is Ok && items@.len() > 0 ==> state_of(final(self).sync_states@, fid) == Some(
                merged_state(
                    state_of(old(self).sync_states@, fid),
                    fid,
                    SyncUpdate { last_seen_uid: max_uid(items@), oldest_ts: min_date(items@), last_sync_ts: now },
                ),
            ),
            r is Ok && items@.len() == 0 ==> state_of(final(self).sync_states@, fid) == state_of(old(self).sync_states@, fid),
    {
        let initial = match mode {
            SyncMode::Initial { .. } => true,
            _ => false,
        };
        let update = build_sync_update(items, now);
        if initial && !self.folder_has_rows(fid) {
            match self.replace_folder_messages(account_id, fid, items) {
                Err(e) => {
                    return Err(e);
                },
                Ok(()) => {},
            }
            if let Some(u) = update {
                let existing = self.get_folder_sync_state(fid);
                let merged = merge_sync_state(existing, fid, &u);
                self.upsert_folder_sync_state(merged);
            }
            Ok(())
        } else {
            self.apply_sync_batch(account_id, fid, items, update)
        }
    }

    /// The listing key of row `i`.
    fn row_key(&self, i: usize) -> (r: (i64, i64))
        requires
            i < self.messages@.len(),
        ensures
            r == list_key(self.messages@[i as int]),
    {
        let m = &self.messages[i];
        let ts = match parse_date(m.summary.date.as_str()) {
            Some(t) => t,
            None => 0,
        };
        (ts, m.summary.id)
    }

    /// The account's messages that pass the filters (folder, unread flag, parsed date at or
    /// after `since_ts`), newest first and then by descending id, at most `limit` of them
    /// (a negative limit lists all).
    #[verifier::rlimit(60)]
    pub fn list_messages(
        &self,
        account_id: i64,
        folder_id: Option<i64>,
        unread: Option<bool>,
        since_ts: Option<i64>,
        limit: Option<i64>,
    ) -> (r: Vec<MessageSummary>)
        requires
            self.wf(),
        ensures
            forall|k: int| 0 <= k < r@.len() ==> listed_from(self.messages@, #[trigger] r@[k], account_id, folder_id, unread, since_ts),
            forall|a: int, b: int| 0 <= a < b < r@.len() ==> (#[trigger] r@[a]).id != (#[trigger] r@[b]).id,
            forall|a: int, b: int| 0 <= a < b < r@.len() ==> listed_before(
                (match parsed_date(r@[a].date@) { Some(t) => t, None => 0 }, r@[a].id),
                (match parsed_date(r@[b].date@) { Some(t) => t, None => 0 }, r@[b].id),
            ),
            forall|i: int|
                0 <= i < self.messages@.len() && list_filter(#[trigger] self.messages@[i], account_id, folder_id, unread, since_ts)
                    && !r@.contains(self.messages@[i].summary) ==> (limit matches Some(l) && (l >= 0 && r@.len() == l
                    && forall|k: int| 0 <= k < r@.len() ==> listed_before(
                        (match parsed_date(r@[k].date@) { Some(t) => t, None => 0 }, r@[k].id),
                        list_key(self.messages@[i]),
                    ))),
    {
        // row indices of the filtered messages, kept sorted by key
        let ghost msgs = self.messages@;
        let mut order: Vec<(i64, i64, usize)> = Vec::new();
        let mut i: usize = 0;
        while i < self.messages.len()
            invariant
                self.wf(),
                msgs == self.messages@,
                i <= msgs.len(),
                forall|k: int| 0 <= k < order@.len() ==> (#[trigger] order@[k]).2 < i && (order@[k].0, order@[k].1)
                    == list_key(msgs[order@[k].2 as int]) && list_filter(msgs[order@[k].2 as int], account_id, folder_id, unread, since_ts),
                forall|j: int| 0 <= j < i && list_filter(#[trigger] msgs[j], account_id, folder_id, unread, since_ts)
                    ==> exists|k: int| 0 <= k < order@.len() && order@[k].2 == j,
                forall|a: int, b: int| 0 <= a < b < order@.len() ==> listed_before(
                    ((#[trigger] order@[a]).0, order@[a].1),
                    ((#[trigger] order@[b]).0, order@[b].1),
                ),
                forall|a: int, b: int| 0 <= a < b < order@.len() ==> (#[trigger] order@[a]).2 != (#[trigger] order@[b]).2,
            decreases self.messages.len() - i,
        {
            let m = &self.messages[i];
            let keep = m.account_id == account_id && match folder_id {
                Some(f) => m.summary.folder_id == f,
                None => true,
            } && match unread {
                Some(u) => m.summary.unread == u,
                None => true,
            };
            let key = self.row_key(i);
            let pass = keep && match since_ts {
                Some(t) => key.0 >= t,
                None => true,
            };
            if pass {
                let mut p: usize = 0;
                while p < order.len() && key_before((order[p].0, order[p].1), key)
                    invariant
                        p <= order@.len(),
                        forall|k: int| 0 <= k < p ==> listed_before(((#[trigger] order@[k]).0, order@[k].1), key),
                    decreases order.len() - p,
                {
                    p += 1;
                }
                let ghost before = order@;
                proof {
                    assert forall|k: int| p <= k < before.len() implies listed_before(key, ((#[trigger] before[k]).0, before[k].1)) by {
                        // keys of distinct rows differ in id
                        assert(before[k].2 < i);
                        assert(msgs[before[k].2 as int].summary.id != msgs[i as int].summary.id);
                        if k > p {
                            assert(listed_before((before[p as int].0, before[p as int].1), (before[k].0, before[k].1)));
                        }
                    }
                }
                order.insert(p, (key.0, key.1, i));
                proof {
                    assert forall|a: int, b: int| 0 <= a < b < order@.len() implies listed_before(
                        ((#[trigger] order@[a]).0, order@[a].1),
                        ((#[trigger] order@[b]).0, order@[b].1),
                    ) by {
                        if b < p {
                            assert(order@[a] == before[a] && order@[b] == before[b]);
                        } else if b == p {
                            assert(order@[a] == before[a]);
                        } else if a == p {
                            assert(order@[b] == before[b - 1]);
                        } else if a < p {
                            assert(order@[a] == before[a] && order@[b] == before[b - 1]);
                            assert(listed_before((before[a].0, before[a].1), key));
                            assert(listed_before(key, (before[b - 1].0, before[b - 1].1)));
                        } else {
                            assert(order@[a] == before[a - 1] && order@[b] == before[b - 1]);
                        }
                    }
                    assert forall|a: int, b: int| 0 <= a < b < order@.len() implies (#[trigger] order@[a]).2 != (#[trigger] order@[b]).2 by {
                        if b < p {
                            assert(order@[a] == before[a] && order@[b] == before[b]);
                        } else if b == p {
                            assert(order@[a] == before[a]);
                        } else if a == p {
                            assert(order@[b] == before[b - 1]);
                        } else if a < p {
                            assert(order@[a] == before[a] && order@[b] == before[b - 1]);
                        } else {
                            assert(order@[a] == before[a - 1] && order@[b] == before[b - 1]);
                        }
                    }
                    assert forall|j: int| 0 <= j < i + 1 && list_filter(#[trigger] msgs[j], account_id, folder_id, unread, since_ts)
                        implies exists|k: int| 0 <= k < order@.len() && order@[k].2 == j by {
                        if j == i {
                            assert(order@[p as int].2 == i);
                        } else {
                            let k = choose|k: int| 0 <= k < before.len() && before[k].2 == j;
                            if k < p {
                                assert(order@[k] == before[k]);
                            } else {
                                assert(order@[k + 1] == before[k]);
                            }
                        }
                    }
                    assert forall|k: int| 0 <= k < order@.len() implies (#[trigger] order@[k]).2 < i + 1 && (order@[k].0, order@[k].1)
                        == list_key(msgs[order@[k].2 as int]) && list_filter(msgs[order@[k].2 as int], account_id, folder_id, unread, since_ts) by {
                        if k < p {
                            assert(order@[k] == before[k]);
                        } else if k > p {
                            assert(order@[k] == before[k - 1]);
                        }
                    }
                }
            } else {
                proof {
                    assert(!list_filter(msgs[i as int], account_id, folder_id, unread, since_ts));
                }
            }
            i += 1;
        }
        let n: usize = match limit {
            Some(l) => if l >= 0 && (l as u64) < (order.len() as u64) { l as usize } else { order.len() },
            None => order.len(),
        };
        let mut out: Vec<MessageSummary> = Vec::new();
        let mut k: usize = 0;
        while k < n
            invariant
                msgs == self.messages@,
                n <= order@.len(),
                k <= n,
                out@.len() == k,
                forall|q: int| 0 <= q < k ==> #[trigger] out@[q] == msgs[order@[q].2 as int].summary,
                forall|q: int| 0 <= q < order@.len() ==> (#[trigger] order@[q]).2 < msgs.len() && (order@[q].0, order@[q].1)
                    == list_key(msgs[order@[q].2 as int]),
                forall|a: int, b: int| 0 <= a < b < order@.len() ==> (#[trigger] order@[a]).2 != (#[trigger] order@[b]).2,
                self.wf(),
            decreases n - k,
        {
            out.push(copy_summary(&self.messages[order[k].2].summary));
            k += 1;
        }
        proof {
            assert forall|a: int, b: int| 0 <= a < b < out@.len() implies (#[trigger] out@[a]).id != (#[trigger] out@[b]).id by {
                let ra = order@[a].2 as int;
                let rb = order@[b].2 as int;
                assert(ra != rb);
                if ra < rb {
                    assert(msgs[ra].summary.id != msgs[rb].summary.id);
                } else {
                    assert(msgs[rb].summary.id != msgs[ra].summary.id);
                }
            }
            assert forall|q: int| 0 <= q < out@.len() implies listed_from(msgs, #[trigger] out@[q], account_id, folder_id, unread, since_ts) by {
                assert(list_filter(msgs[order@[q].2 as int], account_id, folder_id, unread, since_ts));
            }
            assert forall|a: int, b: int| 0 <= a < b < out@.len() implies listed_before(
                (match parsed_date(out@[a].date@) { Some(t) => t, None => 0 }, out@[a].id),
                (match parsed_date(out@[b].date@) { Some(t) => t, None => 0 }, out@[b].id),
            ) by {
                assert(listed_before((order@[a].0, order@[a].1), (order@[b].0, order@[b].1)));
            }
            assert forall|j: int|
                0 <= j < msgs.len() && list_filter(#[trigger] msgs[j], account_id, folder_id, unread, since_ts)
                    && !out@.contains(msgs[j].summary) implies (limit matches Some(l) && (l >= 0 && out@.len() == l
                    && forall|q: int| 0 <= q < out@.len() ==> listed_before(
                        (match parsed_date(out@[q].date@) { Some(t) => t, None => 0 }, out@[q].id),
                        list_key(msgs[j]),
                    ))) by {
                let kk = choose|kk: int| 0 <= kk < order@.len() && order@[kk].2 == j;
                if kk < n {
                    assert(out@[kk] == msgs[j].summary);
                }
                assert forall|q: int| 0 <= q < out@.len() implies listed_before(
                    (match parsed_date(out@[q].date@) { Some(t) => t, None => 0 }, out@[q].id),
                    list_key(msgs[j]),
                ) by {
                    assert(listed_before((order@[q].0, order@[q].1), (order@[kk].0, order@[kk].1)));
                }
            }
        }
        out
    }

    /// The account's folders, in row order.
    pub fn list_folders(&self, account_id: i64) -> (r: Vec<Folder>)
        ensures
            r@ == self.folders@.filter(|f: Folder| f.account_id == account_id),
    {
        let mut out: Vec<Folder> = Vec::new();
        let mut q: usize = 0;
        while q < self.folders.len()
            invariant
                q <= self.folders@.len(),
                out@ == self.folders@.subrange(0, q as int).filter(|f: Folder| f.account_id == account_id),
            decreases self.folders.len() - q,
        {
            proof {
                reveal(Seq::filter);
                let s1 = self.folders@.subrange(0, q as int + 1);
                assert(s1.drop_last() =~= self.folders@.subrange(0, q as int));
                assert(s1.last() == self.folders@[q as int]);
            }
            if self.folders[q].account_id == account_id {
                out.push(copy_folder(&self.folders[q]));
            }
            q += 1;
        }
        assert(self.folders@.subrange(0, self.folders@.len() as int) =~= self.folders@);
        out
    }

    /// Where message `id` stands, or the row count.
    fn message_index(&self, id: i64) -> (r: usize)
        ensures
            r <= self.messages@.len(),
            r < self.messages@.len() ==> self.messages@[r as int].summary.id == id,
            r == self.messages@.len() ==> forall|j: int| 0 <= j < self.messages@.len() ==> (#[trigger] self.messages@[j]).summary.id != id,
    {
        let mut k: usize = 0;
        while k < self.messages.len()
            invariant
                k <= self.messages@.len(),
                forall|j: int| 0 <= j < k ==> (#[trigger] self.messages@[j]).summary.id != id,
            decreases self.messages.len() - k,
        {
            if self.messages[k].summary.id == id {
                return k;
            }
            k += 1;
        }
        k
    }

    /// The summary of message `id`.
    pub fn get_message_summary(&self, id: i64) -> (r: Option<MessageSummary>)
        ensures
            r is None <==> forall|j: int| 0 <= j < self.messages@.len() ==> (#[trigger] self.messages@[j]).summary.id != id,
            r matches Some(m) ==> exists|j: int| 0 <= j < self.messages@.len() && (#[trigger] self.messages@[j]).summary == m
                && m.id == id,
    {
        let k = self.message_index(id);
        if k < self.messages.len() {
            Some(copy_summary(&self.messages[k].summary))
        } else {
            None
        }
    }

    /// The recipients of message `id`.
    pub fn get_message_to(&self, id: i64) -> (r: Option<String>)
        ensures
            r is None <==> forall|j: int| 0 <= j < self.messages@.len() ==> (#[trigger] self.messages@[j]).summary.id != id,
            r matches Some(t) ==> exists|j: int| 0 <= j < self.messages@.len() && (#[trigger] self.messages@[j]).summary.id == id
                && self.messages@[j].to@ == t@,
    {
        let k = self.message_index(id);
        if k < self.messages.len() {
            Some(self.messages[k].to.clone())
        } else {
            None
        }
    }

    /// The copy recipients of message `id`.
    pub fn get_message_cc(&self, id: i64) -> (r: Option<String>)
        ensures
            r is None <==> forall|j: int| 0 <= j < self.messages@.len() ==> (#[trigger] self.messages@[j]).summary.id != id,
            r matches Some(t) ==> exists|j: int| 0 <= j < self.messages@.len() && (#[trigger] self.messages@[j]).summary.id == id
                && self.messages@[j].cc@ == t@,
    {
        let k = self.message_index(id);
        if k < self.messages.len() {
            Some(self.messages[k].cc.clone())
        } else {
            None
        }
    }

    /// Sets the recipients of message `id`.
    pub fn update_message_to(&mut self, id: i64, to: &str)
        requires
            old(self).wf(),
        ensures
            final(self).wf(),
            final(self).messages@.len() == old(self).messages@.len(),
            forall|j: int| 0 <= j < old(self).messages@.len() ==> (#[trigger] final(self).messages@[j]) == if old(self).messages@[j].summary.id == id {
                StoredMessage { to: final(self).messages@[j].to, ..old(self).messages@[j] }
            } else {
                old(self).messages@[j]
            },
            forall|j: int| 0 <= j < old(self).messages@.len() && old(self).messages@[j].summary.id == id ==> (#[trigger] final(self).messages@[j]).to@ == to@,
            Self::others_same(final(self), old(self)),
            final(self).folders@ == old(self).folders@,
    {
        let k = self.message_index(id);
        if k < self.messages.len() {
            let ghost before = self.messages@;
            let mut m = self.messages.remove(k);
            m.to = string_of_str(to);
            self.messages.insert(k, m);
            proof {
                assert forall|j: int| 0 <= j < before.len() implies (#[trigger] self.messages@[j]) == if before[j].summary.id == id {
                    StoredMessage { to: self.messages@[j].to, ..before[j] }
                } else {
                    before[j]
                } by {
                    if j != k {
                        if before[j].summary.id == id {
                            if j < k {
                                assert(before[j].summary.id != before[k as int].summary.id);
                            } else {
                                assert(before[k as int].summary.id != before[j].summary.id);
                            }
                        }
                    }
                }
                assert forall|a: int, b: int| 0 <= a < b < self.messages@.len() implies (#[trigger] self.messages@[a]).summary.id
                    != (#[trigger] self.messages@[b]).summary.id && (self.messages@[a].summary.folder_id == self.messages@[b].summary.folder_id
                    && self.messages@[a].summary.imap_uid is Some ==> self.messages@[a].summary.imap_uid != self.messages@[b].summary.imap_uid) by {
                    assert(before[a].summary.id != before[b].summary.id);
                }
                assert forall|j: int| 0 <= j < self.messages@.len() implies (#[trigger] self.messages@[j]).summary.id < self.next_id by {
                    assert(before[j].summary.id < self.next_id);
                }
                assert forall|j: int| 0 <= j < before.len() && before[j].summary.id == id implies (#[trigger] self.messages@[j]).to@ == to@ by {
                    if j != k {
                        if j < k {
                            assert(before[j].summary.id != before[k as int].summary.id);
                        } else {
                            assert(before[k as int].summary.id != before[j].summary.id);
                        }
                    }
                }
            }
        }
    }

    /// Sets the copy recipients of message `id`.
    pub fn update_message_cc(&mut self, id: i64, cc: &str)
        requires
            old(self).wf(),
        ensures
            final(self).wf(),
            final(self).messages@.len() == old(self).messages@.len(),
            forall|j: int| 0 <= j < old(self).messages@.len() ==> (#[trigger] final(self).messages@[j]) == if old(self).messages@[j].summary.id == id {
                StoredMessage { cc: final(self).messages@[j].cc, ..old(self).messages@[j] }
            } else {
                old(self).messages@[j]
            },
            forall|j: int| 0 <= j < old(self).messages@.len() && old(self).messages@[j].summary.id == id ==> (#[trigger] final(self).messages@[j]).cc@ == cc@,
            Self::others_same(final(self), old(self)),
            final(self).folders@ == old(self).folders@,
    {
        let k = self.message_index(id);
        if k < self.messages.len() {
            let ghost before = self.messages@;
            let mut m = self.messages.remove(k);
            m.cc = string_of_str(cc);
            self.messages.insert(k, m);
            proof {
                assert forall|j: int| 0 <= j < before.len() implies (#[trigger] self.messages@[j]) == if before[j].summary.id == id {
                    StoredMessage { cc: self.messages@[j].cc, ..before[j] }
                } else {
                    before[j]
                } by {
                    if j != k {
                        if before[j].summary.id == id {
                            if j < k {
                                assert(before[j].summary.id != before[k as int].summary.id);
                            } else {
                                assert(before[k as int].summary.id != before[j].summary.id);
                            }
                        }
                    }
                }
                assert forall|a: int, b: int| 0 <= a < b < self.messages@.len() implies (#[trigger] self.messages@[a]).summary.id
                    != (#[trigger] self.messages@[b]).summary.id && (self.messages@[a].summary.folder_id == self.messages@[b].summary.folder_id
                    && self.messages@[a].summary.imap_uid is Some ==> self.messages@[a].summary.imap_uid != self.messages@[b].summary.imap_uid) by {
                    assert(before[a].summary.id != before[b].summary.id);
                }
                assert forall|j: int| 0 <= j < self.messages@.len() implies (#[trigger] self.messages@[j]).summary.id < self.next_id by {
                    assert(before[j].summary.id < self.next_id);
                }
                assert forall|j: int| 0 <= j < before.len() && before[j].summary.id == id implies (#[trigger] self.messages@[j]).cc@ == cc@ by {
                    if j != k {
                        if j < k {
                            assert(before[j].summary.id != before[k as int].summary.id);
                        } else {
                            assert(before[k as int].summary.id != before[j].summary.id);
                        }
                    }
                }
            }
        }
    }

    /// Stores the raw bytes of message `id`, replacing earlier ones.
    pub fn upsert_raw_body(&mut self, id: i64, raw: &[u8])
        requires
            old(self).wf(),
        ensures
            final(self).wf(),
            exists|k: int| 0 <= k < final(self).bodies@.len() && (#[trigger] final(self).bodies@[k]).message_id == id
                && final(self).bodies@[k].raw@ == raw@ && forall|j: int| 0 <= j < k ==> final(self).bodies@[j].message_id != id,
            forall|k: int| 0 <= k < old(self).bodies@.len() && (#[trigger] old(self).bodies@[k]).message_id != id
                ==> final(self).bodies@.contains(old(self).bodies@[k]),
            final(self).messages@ == old(self).messages@,
            final(self).folders@ == old(self).folders@,
            final(self).tiles@ == old(self).tiles@,
            final(self).text_cache@ == old(self).text_cache@,
    {
        let mut bytes: Vec<u8> = Vec::new();
        let mut i: usize = 0;
        while i < raw.len()
            invariant
                i <= raw@.len(),
                bytes@ == raw@.subrange(0, i as int),
            decreases raw.len() - i,
        {
            bytes.push(raw[i]);
            i += 1;
        }
        assert(raw@.subrange(0, raw@.len() as int) =~= raw@);
        let mut k: usize = 0;
        while k < self.bodies.len() && self.bodies[k].message_id != id
            invariant
                k <= self.bodies@.len(),
                forall|j: int| 0 <= j < k ==> (#[trigger] self.bodies@[j]).message_id != id,
            decreases self.bodies.len() - k,
        {
            k += 1;
        }
        let ghost before = self.bodies@;
        if k < self.bodies.len() {
            self.bodies.set(k, RawBody { message_id: id, raw: bytes });
            proof {
                assert(self.bodies@[k as int].message_id == id);
                assert forall|q: int| 0 <= q < before.len() && (#[trigger] before[q]).message_id != id implies self.bodies@.contains(before[q]) by {
                    assert(self.bodies@[q] == before[q]);
                }
            }
        } else {
            self.bodies.push(RawBody { message_id: id, raw: bytes });
            proof {
                assert(self.bodies@[before.len() as int].message_id == id);
                assert forall|q: int| 0 <= q < before.len() && (#[trigger] before[q]).message_id != id implies self.bodies@.contains(before[q]) by {
                    assert(self.bodies@[q] == before[q]);
                }
            }
        }
    }

    /// The prepared HTML of message `id` under a remote policy; the latest row is read.
    pub fn get_cache_html(&self, id: i64, remote_policy: &str) -> (r: Option<String>)
        ensures
            r matches Some(h) ==> exists|k: int| 0 <= k < self.html_cache@.len() && (#[trigger] self.html_cache@[k]).message_id == id
                && self.html_cache@[k].remote_policy@ == remote_policy@ && self.html_cache@[k].html@ == h@
                && forall|j: int| k < j < self.html_cache@.len() ==> !(self.html_cache@[j].message_id == id
                    && self.html_cache@[j].remote_policy@ == remote_policy@),
            r is None ==> forall|k: int| 0 <= k < self.html_cache@.len() ==> !((#[trigger] self.html_cache@[k]).message_id == id
                && self.html_cache@[k].remote_policy@ == remote_policy@),
    {
        let mut k: usize = self.html_cache.len();
        while k > 0
            invariant
                k <= self.html_cache@.len(),
                forall|j: int| k <= j < self.html_cache@.len() ==> !((#[trigger] self.html_cache@[j]).message_id == id
                    && self.html_cache@[j].remote_policy@ == remote_policy@),
            decreases k,
        {
            let row = &self.html_cache[k - 1];
            if row.message_id == id && str_eq(&row.remote_policy, remote_policy) {
                return Some(row.html.clone());
            }
            k -= 1;
        }
        None
    }

    /// Stores prepared HTML of message `id` under a remote policy; the latest row is read.
    pub fn upsert_cache_html(&mut self, id: i64, remote_policy: &str, html: &str)
        requires
            old(self).wf(),
        ensures
            final(self).wf(),
            final(self).html_cache@.drop_last() == old(self).html_cache@,
            final(self).html_cache@.len() == old(self).html_cache@.len() + 1,
            final(self).html_cache@.last().message_id == id,
            final(self).html_cache@.last().remote_policy@ == remote_policy@,
            final(self).html_cache@.last().html@ == html@,
            final(self).messages@ == old(self).messages@,
            final(self).tiles@ == old(self).tiles@,
    {
        self.html_cache.push(HtmlRow { message_id: id, remote_policy: string_of_str(remote_policy), html: string_of_str(html) });
        assert(self.html_cache@.drop_last() =~= old(self).html_cache@);
    }

    /// Removes every message of the account with its bodies and caches, and the account's
    /// folders.
    pub fn clear_account_data(&mut self, account_id: i64)
        requires
            old(self).wf(),
        ensures
            final(self).wf(),
            forall|i: int| 0 <= i < final(self).messages@.len() ==> (#[trigger] final(self).messages@[i]).account_id != account_id,
            forall|i: int| 0 <= i < old(self).messages@.len() && (#[trigger] old(self).messages@[i]).account_id != account_id
                ==> final(self).messages@.contains(old(self).messages@[i]),
            final(self).folders@.len() == old(self).folders@.filter(|f: Folder| f.account_id != account_id).len(),
            forall|k: int| 0 <= k < final(self).folders@.len() ==> (#[trigger] final(self).folders@[k]).id
                == old(self).folders@.filter(|f: Folder| f.account_id != account_id)[k].id && final(self).folders@[k].account_id
                == old(self).folders@.filter(|f: Folder| f.account_id != account_id)[k].account_id && final(self).folders@[k].name
                == old(self).folders@.filter(|f: Folder| f.account_id != account_id)[k].name,
    {
        let mut kept: Vec<Folder> = Vec::new();
        let mut q: usize = 0;
        let ghost fs = self.folders@;
        while q < self.folders.len()
            invariant
                fs == self.folders@,
                q <= fs.len(),
                kept@ == fs.subrange(0, q as int).filter(|f: Folder| f.account_id != account_id),
            decreases self.folders.len() - q,
        {
            proof {
                reveal(Seq::filter);
                let s1 = fs.subrange(0, q as int + 1);
                assert(s1.drop_last() =~= fs.subrange(0, q as int));
                assert(s1.last() == fs[q as int]);
            }
            if self.folders[q].account_id != account_id {
                kept.push(copy_folder(&self.folders[q]));
            }
            q += 1;
        }
        assert(fs.subrange(0, fs.len() as int) =~= fs);
        self.folders = kept;
        let ghost filtered = self.folders@;
        let ghost msgs = self.messages@;
        let mut ids: Vec<i64> = Vec::new();
        let mut i: usize = 0;
        while i < self.messages.len()
            invariant
                msgs == self.messages@,
                i <= msgs.len(),
                forall|j: int| 0 <= j < i ==> (ids@.contains((#[trigger] msgs[j]).summary.id) <==> msgs[j].account_id == account_id
                    || exists|q: int| 0 <= q < i && msgs[q].account_id == account_id && msgs[q].summary.id == msgs[j].summary.id),
                forall|x: i64| ids@.contains(x) ==> exists|q: int| 0 <= q < i && (#[trigger] msgs[q]).account_id == account_id && msgs[q].summary.id == x,
            decreases self.messages.len() - i,
        {
            let ghost before = ids@;
            if self.messages[i].account_id == account_id {
                ids.push(self.messages[i].summary.id);
            }
            proof {
                assert forall|x: i64| ids@.contains(x) implies exists|q: int| 0 <= q < i + 1 && (#[trigger] msgs[q]).account_id == account_id && msgs[q].summary.id == x by {
                    if msgs[i as int].account_id == account_id {
                        lemma_push_contains(before, msgs[i as int].summary.id, x);
                    }
                }
                assert forall|j: int| 0 <= j < i + 1 implies (ids@.contains((#[trigger] msgs[j]).summary.id) <==> msgs[j].account_id == account_id
                    || exists|q: int| 0 <= q < i + 1 && msgs[q].account_id == account_id && msgs[q].summary.id == msgs[j].summary.id) by {
                    if msgs[i as int].account_id == account_id {
                        lemma_push_contains(before, msgs[i as int].summary.id, msgs[j].summary.id);
                    }
                    if j == i && msgs[j].account_id == account_id {
                        assert(ids@[ids@.len() - 1] == msgs[j].summary.id);
                    }
                }
            }
            i += 1;
        }
        self.delete_messages(&ids);
        proof {
            let after = self.messages@;
            lemma_unique_filter(msgs, ids@);
            assert forall|k: int| 0 <= k < after.len() implies (#[trigger] after[k]).account_id != account_id by {
                let e = after[k];
                assert(msgs.contains(e));
                let w = choose|w: int| 0 <= w < msgs.len() && msgs[w] == e;
                let p = |r: StoredMessage| !ids@.contains(r.message_key());
                #[allow(deprecated)]
                msgs.filter_lemma(p);
                assert(p(after[k]));
            }
            assert forall|j: int| 0 <= j < msgs.len() && (#[trigger] msgs[j]).account_id != account_id implies after.contains(msgs[j]) by {
                let p = |r: StoredMessage| !ids@.contains(r.message_key());
                #[allow(deprecated)]
                msgs.filter_lemma(p);
                if ids@.contains(msgs[j].summary.id) {
                    let q = choose|q: int| 0 <= q < msgs.len() && (#[trigger] msgs[q]).account_id == account_id && msgs[q].summary.id == msgs[j].summary.id;
                    if q < j {
                        assert(msgs[q].summary.id != msgs[j].summary.id);
                    } else if j < q {
                        assert(msgs[j].summary.id != msgs[q].summary.id);
                    }
                }
                assert(p(msgs[j]));
            }
        }
    }

    /// Sets the unread flag of every listed message and recounts the folders that hold them.
    pub fn set_messages_unread(&mut self, ids: &[i64], unread: bool)
        requires
            old(self).wf(),
        ensures
            final(self).wf(),
            Self::others_same(final(self), old(self)),
            final(self).messages@ == flagged_all(old(self).messages@, ids@, unread),
            final(self).folders@.len() == old(self).folders@.len(),
            forall|z: int| 0 <= z < old(self).folders@.len() ==> (#[trigger] final(self).folders@[z]).id == old(self).folders@[z].id
                && final(self).folders@[z].account_id == old(self).folders@[z].account_id
                && final(self).folders@[z].name == old(self).folders@[z].name
                && final(self).folders@[z].unread == if folders_of(old(self).messages@, ids@).contains(old(self).folders@[z].id) {
                    unread_in(final(self).messages@, old(self).folders@[z].id) as u32
                } else {
                    old(self).folders@[z].unread
                },
    {
        let ghost m0 = self.messages@;
        let ghost f0 = self.folders@;
        let mut k: usize = 0;
        while k < ids.len()
            invariant
                self.wf(),
                Self::others_same(self, old(self)),
                m0 == old(self).messages@,
                f0 == old(self).folders@,
                k <= ids@.len(),
                self.messages@ == flagged_all(m0, ids@.subrange(0, k as int), unread),
                self.folders@.len() == f0.len(),
                forall|z: int| 0 <= z < f0.len() ==> (#[trigger] self.folders@[z]).id == f0[z].id
                    && self.folders@[z].account_id == f0[z].account_id && self.folders@[z].name == f0[z].name
                    && self.folders@[z].unread == if folders_of(m0, ids@.subrange(0, k as int)).contains(f0[z].id) {
                        unread_in(self.messages@, f0[z].id) as u32
                    } else {
                        f0[z].unread
                    },
            decreases ids.len() - k,
        {
            let ghost mk = self.messages@;
            let ghost fk = self.folders@;
            let x = ids[k];
            proof {
                lemma_flagged_all_frame(m0, ids@.subrange(0, k as int), unread);
                let s1 = ids@.subrange(0, k as int + 1);
                assert(s1.drop_last() =~= ids@.subrange(0, k as int));
                assert(s1.last() == x);
            }
            self.set_message_unread(x, unread);
            proof {
                let pre = ids@.subrange(0, k as int);
                let post = ids@.subrange(0, k as int + 1);
                assert(post.drop_last() =~= pre);
                lemma_flagged_all_frame(m0, post, unread);
                assert forall|g: i64| folders_of(m0, post).contains(g) <==> (folders_of(m0, pre).contains(g)
                    || exists|i: int| 0 <= i < m0.len() && (#[trigger] m0[i]).summary.id == x && m0[i].summary.folder_id == g) by {
                    if folders_of(m0, post).contains(g) {
                        let i = choose|i: int| 0 <= i < m0.len() && post.contains((#[trigger] m0[i]).summary.id) && m0[i].summary.folder_id == g;
                        let q = choose|q: int| 0 <= q < post.len() && post[q] == m0[i].summary.id;
                        if q < k {
                            assert(pre[q] == post[q]);
                        }
                    }
                    if folders_of(m0, pre).contains(g) {
                        let i = choose|i: int| 0 <= i < m0.len() && pre.contains((#[trigger] m0[i]).summary.id) && m0[i].summary.folder_id == g;
                        let q = choose|q: int| 0 <= q < pre.len() && pre[q] == m0[i].summary.id;
                        assert(post[q] == pre[q]);
                    }
                    if exists|i: int| 0 <= i < m0.len() && (#[trigger] m0[i]).summary.id == x && m0[i].summary.folder_id == g {
                        let i = choose|i: int| 0 <= i < m0.len() && (#[trigger] m0[i]).summary.id == x && m0[i].summary.folder_id == g;
                        assert(post[k as int] == x);
                    }
                }
                if exists|i: int| row_index(mk, x, i) {
                    let i = choose|i: int| row_index(mk, x, i);
                    let fid = mk[i].summary.folder_id;
                    assert(self.folders@ == recounted(fk, self.messages@, set![fid]));
                    assert forall|z: int| 0 <= z < f0.len() implies (#[trigger] self.folders@[z]).id == f0[z].id
                        && self.folders@[z].account_id == f0[z].account_id && self.folders@[z].name == f0[z].name
                        && self.folders@[z].unread == if folders_of(m0, post).contains(f0[z].id) {
                            unread_in(self.messages@, f0[z].id) as u32
                        } else {
                            f0[z].unread
                        } by {
                        assert(m0[i].summary.id == x && m0[i].summary.folder_id == fid);
                        if f0[z].id != fid {
                            assert forall|j: int| 0 <= j < mk.len() && (#[trigger] mk[j]).summary.id == x implies mk[j].summary.folder_id != f0[z].id by {
                                if j != i {
                                    if j < i {
                                        assert(mk[j].summary.id != mk[i].summary.id);
                                    } else {
                                        assert(mk[i].summary.id != mk[j].summary.id);
                                    }
                                }
                            }
                            lemma_unread_flag_other(mk, x, unread, f0[z].id);
                            if !folders_of(m0, pre).contains(f0[z].id) {
                                assert(!(exists|q: int| 0 <= q < m0.len() && (#[trigger] m0[q]).summary.id == x && m0[q].summary.folder_id == f0[z].id)) by {
                                    if exists|q: int| 0 <= q < m0.len() && (#[trigger] m0[q]).summary.id == x && m0[q].summary.folder_id == f0[z].id {
                                        let q = choose|q: int| 0 <= q < m0.len() && (#[trigger] m0[q]).summary.id == x && m0[q].summary.folder_id == f0[z].id;
                                        if q != i {
                                            if q < i {
                                                assert(mk[q].summary.id != mk[i].summary.id);
                                            } else {
                                                assert(mk[i].summary.id != mk[q].summary.id);
                                            }
                                        }
                                    }
                                }
                            }
                        } else {
                            lemma_unread_in_bound(self.messages@, fid);
                        }
                    }
                } else {
                    assert(self.folders@ == fk);
                    assert(mk =~= flagged(mk, x, unread)) by {
                        assert forall|j: int| 0 <= j < mk.len() implies mk[j] == #[trigger] flagged(mk, x, unread)[j] by {
                            assert(!row_index(mk, x, j));
                        }
                    }
                    assert forall|z: int| 0 <= z < f0.len() implies (#[trigger] self.folders@[z]).id == f0[z].id
                        && self.folders@[z].account_id == f0[z].account_id && self.folders@[z].name == f0[z].name
                        && self.folders@[z].unread == if folders_of(m0, post).contains(f0[z].id) {
                            unread_in(self.messages@, f0[z].id) as u32
                        } else {
                            f0[z].unread
                        } by {
                        if exists|q: int| 0 <= q < m0.len() && (#[trigger] m0[q]).summary.id == x && m0[q].summary.folder_id == f0[z].id {
                            let q = choose|q: int| 0 <= q < m0.len() && (#[trigger] m0[q]).summary.id == x && m0[q].summary.folder_id == f0[z].id;
                            assert(row_index(mk, x, q));
                        }
                    }
                }
            }
            k += 1;
        }
        assert(ids@.subrange(0, ids@.len() as int) =~= ids@);
    }
}

} // verus!
