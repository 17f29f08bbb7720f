use vstd::prelude::*;

use crate::types::{FolderSyncState, MessageSummary, SyncMode};

verus! {

/// What one sync batch contributes to its folder's sync state.
#[derive(Debug, Clone, Copy, PartialEq, Eq, Structural)]
pub struct SyncUpdate {
    pub last_seen_uid: Option<i64>,
    pub oldest_ts: Option<i64>,
    pub last_sync_ts: i64,
}

/// The epoch seconds that `mailparse::dateparse` reads from a date header, if it reads one.
pub uninterp spec fn parsed_date(s: Seq<char>) -> Option<i64>;

/// Relies on `mailparse::dateparse`: the epoch seconds of an RFC 2822 date, which depend on
/// the text alone.
#[verifier::external_body]
pub(crate) fn parse_date(s: &str) -> (r: Option<i64>)
    ensures
        r == parsed_date(s@),
{
    mailparse::dateparse(s).ok()
}

/// The larger of two optional values; a missing one gives way to the other.
pub open spec fn opt_max(a: Option<i64>, b: Option<i64>) -> Option<i64> {
    match (a, b) {
        (Some(x), Some(y)) => Some(if x >= y { x } else { y }),
        (Some(x), None) => Some(x),
        (None, Some(y)) => Some(y),
        (None, None) => None,
    }
}

/// The smaller of two optional values; a missing one gives way to the other.
pub open spec fn opt_min(a: Option<i64>, b: Option<i64>) -> Option<i64> {
    match (a, b) {
        (Some(x), Some(y)) => Some(if x <= y { x } else { y }),
        (Some(x), None) => Some(x),
        (None, Some(y)) => Some(y),
        (None, None) => None,
    }
}

pub fn max_opt(a: Option<i64>, b: Option<i64>) -> (r: Option<i64>)
    ensures
        r == opt_max(a, b),
{
    match (a, b) {
        (Some(x), Some(y)) => Some(if x >= y { x } else { y }),
        (Some(x), None) => Some(x),
        (None, Some(y)) => Some(y),
        (None, None) => None,
    }
}

pub fn min_opt(a: Option<i64>, b: Option<i64>) -> (r: Option<i64>)
    ensures
        r == opt_min(a, b),
{
    match (a, b) {
        (Some(x), Some(y)) => Some(if x <= y { x } else { y }),
        (Some(x), None) => Some(x),
        (None, Some(y)) => Some(y),
        (None, None) => None,
    }
}

/// The highest uid of a batch.
pub open spec fn max_uid(batch: Seq<MessageSummary>) -> Option<i64>
    decreases batch.len(),
{
    if batch.len() == 0 {
        None
    } else {
        opt_max(
            max_uid(batch.drop_last()),
            match batch.last().imap_uid {
                Some(u) => Some(u as i64),
                None => None,
            },
        )
    }
}

/// The earliest parsable date of a batch.
pub open spec fn min_date(batch: Seq<MessageSummary>) -> Option<i64>
    decreases batch.len(),
{
    if batch.len() == 0 {
        None
    } else {
        opt_min(min_date(batch.drop_last()), parsed_date(batch.last().date@))
    }
}

/// Every uid of the batch is at most `max_uid` of the batch.
pub proof fn lemma_max_uid_bounds(batch: Seq<MessageSummary>)
    ensures
        forall|j: int|
            0 <= j < batch.len() && (#[trigger] batch[j]).imap_uid is Some ==> max_uid(batch) is Some
                && batch[j].imap_uid->0 as i64 <= max_uid(batch)->0,
    decreases batch.len(),
{
    if batch.len() > 0 {
        let d = batch.drop_last();
        lemma_max_uid_bounds(d);
        assert forall|j: int| 0 <= j < batch.len() && (#[trigger] batch[j]).imap_uid is Some implies max_uid(batch) is Some
            && batch[j].imap_uid->0 as i64 <= max_uid(batch)->0 by {
            if j < d.len() {
                assert(d[j] == batch[j]);
            }
        }
    }
}

/// Sums up a sync batch: its highest uid, its earliest date and the time of the sync.
/// An empty batch gives nothing.
pub fn build_sync_update(items: &[MessageSummary], now: i64) -> (r: Option<SyncUpdate>)
    ensures
        r is None <==> items@.len() == 0,
        r matches Some(u) ==> u.last_seen_uid == max_uid(items@) && u.oldest_ts == min_date(items@)
            && u.last_sync_ts == now,
{
    if items.len() == 0 {
        return None;
    }
    let mut last_seen_uid: Option<i64> = None;
    let mut oldest_ts: Option<i64> = None;
    let mut i: usize = 0;
    while i < items.len()
        invariant
            i <= items@.len(),
            last_seen_uid == max_uid(items@.subrange(0, i as int)),
            oldest_ts == min_date(items@.subrange(0, i as int)),
        decreases items.len() - i,
    {
        proof {
            let s1 = items@.subrange(0, i as int + 1);
            assert(s1.drop_last() =~= items@.subrange(0, i as int));
            assert(s1.last() == items@[i as int]);
        }
        let uid = match items[i].imap_uid {
            Some(u) => Some(u as i64),
            None => None,
        };
        last_seen_uid = max_opt(last_seen_uid, uid);
        oldest_ts = min_opt(oldest_ts, parse_date(items[i].date.as_str()));
        i += 1;
    }
    assert(items@.subrange(0, items@.len() as int) =~= items@);
    Some(SyncUpdate { last_seen_uid, oldest_ts, last_sync_ts: now })
}

/// A folder's sync state after a batch's update: the highest uid and the earliest date win,
/// the sync time is the update's.
pub open spec fn merged_state(existing: Option<FolderSyncState>, fid: i64, u: SyncUpdate) -> FolderSyncState {
    FolderSyncState {
        folder_id: fid,
        uidvalidity: match existing {
            Some(e) => e.uidvalidity,
            None => None,
        },
        uidnext: match existing {
            Some(e) => e.uidnext,
            None => None,
        },
        last_seen_uid: opt_max(
            match existing {
                Some(e) => e.last_seen_uid,
                None => None,
            },
            u.last_seen_uid,
        ),
        last_sync_ts: Some(u.last_sync_ts),
        oldest_ts: opt_min(
            match existing {
                Some(e) => e.oldest_ts,
                None => None,
            },
            u.oldest_ts,
        ),
    }
}

pub fn merge_sync_state(existing: Option<FolderSyncState>, fid: i64, u: &SyncUpdate) -> (r: FolderSyncState)
    ensures
        r == merged_state(existing, fid, *u),
{
    match existing {
        Some(e) => FolderSyncState {
            folder_id: fid,
            uidvalidity: e.uidvalidity,
            uidnext: e.uidnext,
            last_seen_uid: max_opt(e.last_seen_uid, u.last_seen_uid),
            last_sync_ts: Some(u.last_sync_ts),
            oldest_ts: min_opt(e.oldest_ts, u.oldest_ts),
        },
        None => FolderSyncState {
            folder_id: fid,
            uidvalidity: None,
            uidnext: None,
            last_seen_uid: max_opt(None, u.last_seen_uid),
            last_sync_ts: Some(u.last_sync_ts),
            oldest_ts: min_opt(None, u.oldest_ts),
        },
    }
}

/// The mode of a folder sync: incremental from the highest seen uid when one is recorded,
/// else an initial sync over the last `initial_days` days.
pub open spec fn planned_mode(state: Option<FolderSyncState>, initial_days: i64) -> SyncMode {
    match state {
        Some(s) => match s.last_seen_uid {
            Some(uid) => SyncMode::Incremental { last_seen_uid: uid as u32 },
            None => SyncMode::Initial { days: initial_days },
        },
        None => SyncMode::Initial { days: initial_days },
    }
}

pub fn folder_sync_mode(state: &Option<FolderSyncState>, initial_days: i64) -> (r: SyncMode)
    ensures
        r == planned_mode(*state, initial_days),
{
    match state {
        Some(s) => match s.last_seen_uid {
            Some(uid) => SyncMode::Incremental { last_seen_uid: uid as u32 },
            None => SyncMode::Initial { days: initial_days },
        },
        None => SyncMode::Initial { days: initial_days },
    }
}

/// A backfill before the oldest known message, over `window_days` days; none while no
/// message date is recorded.
pub fn backfill_mode(state: &Option<FolderSyncState>, window_days: i64) -> (r: Option<SyncMode>)
    ensures
        r == match *state {
            Some(s) => match s.oldest_ts {
                Some(t) => Some(SyncMode::Backfill { before_ts: t, window_days: window_days }),
                None => None,
            },
            None => None,
        },
{
    match state {
        Some(s) => match s.oldest_ts {
            Some(t) => Some(SyncMode::Backfill { before_ts: t, window_days: window_days }),
            None => None,
        },
        None => None,
    }
}

/// A request for folder `name` at `now_ms` goes ahead unless the same folder was requested
/// less than `window_ms` milliseconds before.
pub fn debounce_allows(last: &Option<(String, u64)>, name: &str, now_ms: u64, window_ms: u64) -> (r: bool)
    ensures
        r == match *last {
            Some(l) => !(l.0@ == name@ && now_ms >= l.1 && now_ms - l.1 < window_ms),
            None => true,
        },
{
    match last {
        Some((n, at)) => !(crate::store::str_eq(n, name) && now_ms >= *at && now_ms - *at < window_ms),
        None => true,
    }
}

} // verus!
