use ratmail::store::{MemoryMailStore, StoreError};
use ratmail::actor::StoreUpdate;
use ratmail::sync::{backfill_mode, build_sync_update, debounce_allows, folder_sync_mode};
use ratmail::types::FolderSyncState;
use ratmail::types::{Folder, MessageSummary, SyncMode, TileMeta};

fn msg(uid: Option<u32>, date: &str, unread: bool) -> MessageSummary {
    MessageSummary {
        id: 0,
        folder_id: 0,
        imap_uid: uid,
        date: date.to_string(),
        from: "Sender <s@example.com>".to_string(),
        subject: format!("subject {:?}", uid),
        unread,
        preview: "preview".to_string(),
    }
}

fn folder(name: &str, unread: u32) -> Folder {
    Folder { id: 0, account_id: 1, name: name.to_string(), unread }
}

fn uids_of(store: &MemoryMailStore, fid: i64) -> Vec<u32> {
    let mut v: Vec<u32> = store
        .messages
        .iter()
        .filter(|m| m.summary.folder_id == fid)
        .filter_map(|m| m.summary.imap_uid)
        .collect();
    v.sort();
    v
}

fn setup() -> (MemoryMailStore, i64) {
    let mut store = MemoryMailStore::new();
    store.upsert_account(1, "Personal", "personal@example.com");
    let folders = store.upsert_folders(1, &[folder("INBOX", 0), folder("Archive", 0)]).unwrap();
    (store, folders[0].id)
}

#[test]
fn draft_save_writes_folder_message_and_raw() {
    let (mut store, _) = setup();
    let id = store
        .save_draft(1, "Owner <o@e.com>", "t@e.com", "c@e.com", "b@e.com", "S", "Line", "2026-01-02 03:04", "Fri, 02 Jan 2026 03:04:00 +0000")
        .unwrap();
    let drafts = store.folder_id_by_name(1, "Drafts").expect("Drafts folder");
    let row = store.messages.iter().find(|m| m.summary.id == id).unwrap();
    assert_eq!(row.summary.folder_id, drafts);
    assert_eq!(row.summary.subject, "S");
    assert_eq!(row.summary.preview, "Line");
    assert_eq!(row.summary.imap_uid, None);
    let raw = store.get_raw_body(id).unwrap();
    let text = String::from_utf8(raw).unwrap();
    assert!(text.starts_with("From: Owner <o@e.com>\r\nTo: t@e.com\r\nCc: c@e.com\r\nBcc: b@e.com\r\nSubject: S\r\n"));
}

#[test]
fn fresh_db_supports_draft_save_and_snapshot_load() {
    let mut store = MemoryMailStore::new();
    store.upsert_account(1, "Personal", "owner@example.com");
    let id = store
        .save_draft(1, "Owner <owner@example.com>", "to@example.com", "cc@example.com", "bcc@example.com", "Draft Subject", "Draft body line", "2026-01-02 03:04", "Fri, 02 Jan 2026 03:04:00 +0000")
        .unwrap();
    assert!(id > 0);
    let snap = store.load_snapshot(1).unwrap();
    assert_eq!(snap.account.id, 1);
    assert!(snap.messages.iter().any(|m| m.id == id));
    assert!(snap.folders.iter().any(|f| f.name == "Drafts"), "missing Drafts folder");
    let detail = snap.message_details.iter().find(|d| d.id == id).expect("missing draft detail");
    assert_eq!(detail.body, "Draft body line");
    assert_eq!(detail.to, "to@example.com");
    assert_eq!(detail.cc, "cc@example.com");
    assert_eq!(detail.subject, "Draft Subject");
    assert_eq!(store.load_snapshot(7).unwrap_err(), StoreError::UnknownAccount);
}

#[test]
fn draft_preview_skips_blank_lines() {
    assert_eq!(ratmail::draft::draft_preview("\n   \r\n  Hello there  \nmore"), "Hello there");
    let long: String = std::iter::repeat('x').take(250).collect();
    assert_eq!(ratmail::draft::draft_preview(&long).chars().count(), 200);
    assert_eq!(ratmail::draft::draft_preview(""), "");
}

#[test]
fn tile_cache_hit_is_lru_touched() {
    let (mut store, _) = setup();
    let set: Vec<TileMeta> = (0..50).map(|i| TileMeta { tile_index: i, height_px: 100, bytes: vec![7u8; 10] }).collect();
    store.upsert_cache_tiles(1, 800, 100, "dark:bgv2", "blocked", &set);
    store.upsert_cache_tiles(2, 800, 100, "dark:bgv2", "blocked", &set);
    assert_eq!(store.cache_tiles_total_bytes(), 1000);
    let a = store.get_cache_tiles(1, 800, 100, "dark:bgv2", "blocked");
    assert_eq!(a.len(), 50);
    assert_eq!(a[3].tile_index, 3);
    store.prune_cache_tiles(500);
    assert_eq!(store.get_cache_tiles(2, 800, 100, "dark:bgv2", "blocked").len(), 0);
    assert_eq!(store.get_cache_tiles(1, 800, 100, "dark:bgv2", "blocked").len(), 50);
    assert_eq!(store.cache_tiles_total_bytes(), 500);
}

#[test]
fn get_cache_tiles_bumps_updated_at() {
    let (mut store, _) = setup();
    store.upsert_cache_tiles(1, 800, 100, "t", "allowed", &[TileMeta { tile_index: 0, height_px: 1, bytes: vec![1] }]);
    let before = store.tiles[0].updated_at;
    assert_eq!(store.get_cache_tiles(1, 800, 100, "t", "allowed").len(), 1);
    assert!(store.tiles[0].updated_at > before);
    assert_eq!(store.get_cache_tiles(1, 800, 100, "other", "allowed").len(), 0);
}

#[test]
fn prune_stops_under_budget_or_empty() {
    let (mut store, _) = setup();
    store.upsert_cache_tiles(1, 800, 100, "t", "allowed", &[TileMeta { tile_index: 0, height_px: 1, bytes: vec![1; 30] }]);
    store.prune_cache_tiles(100);
    assert_eq!(store.tiles.len(), 1);
    store.prune_cache_tiles(10);
    assert_eq!(store.tiles.len(), 0);
}

#[test]
fn incremental_sync_reconciliation() {
    let (mut store, inbox) = setup();
    let first = vec![
        msg(Some(10), "Mon, 05 Jan 2026 10:00:00 +0000", false),
        msg(Some(11), "Tue, 06 Jan 2026 10:00:00 +0000", true),
        msg(Some(12), "Wed, 07 Jan 2026 10:00:00 +0000", false),
    ];
    let update = build_sync_update(&first, 1000);
    store.apply_sync_batch(1, inbox, &first, update).unwrap();
    let old_oldest = store.get_folder_sync_state(inbox).unwrap().oldest_ts.unwrap();
    let batch = vec![
        msg(Some(13), "Thu, 01 Jan 2026 10:00:00 +0000", true),
        msg(Some(14), "Fri, 02 Jan 2026 10:00:00 +0000", true),
    ];
    let update = build_sync_update(&batch, 2000);
    store.apply_sync_batch(1, inbox, &batch, update).unwrap();
    assert_eq!(uids_of(&store, inbox), vec![10, 11, 12, 13, 14]);
    let state = store.get_folder_sync_state(inbox).unwrap();
    assert_eq!(state.last_seen_uid, Some(14));
    let new_min = mailparse::dateparse("Thu, 01 Jan 2026 10:00:00 +0000").unwrap();
    assert_eq!(state.oldest_ts, Some(old_oldest.min(new_min)));
    assert_eq!(state.last_sync_ts, Some(2000));
}

#[test]
fn full_replace_drops_absent_uids() {
    let (mut store, inbox) = setup();
    let first = vec![msg(Some(10), "x", false), msg(Some(11), "x", false), msg(Some(12), "x", false)];
    store.upsert_folder_messages_append(1, inbox, &first).unwrap();
    let id10 = store.messages.iter().find(|m| m.summary.imap_uid == Some(10)).unwrap().summary.id;
    store.apply_raw_body(id10, &b"raw".to_vec(), Some("text".to_string()));
    store.upsert_cache_tiles(id10, 1, 1, "t", "allowed", &[TileMeta { tile_index: 0, height_px: 1, bytes: vec![1] }]);
    let next = vec![msg(Some(11), "x", false), msg(Some(12), "x", false), msg(Some(15), "x", false)];
    store.replace_folder_messages(1, inbox, &next).unwrap();
    assert_eq!(uids_of(&store, inbox), vec![11, 12, 15]);
    assert!(store.get_raw_body(id10).is_none());
    assert!(store.get_message_text(id10).is_none());
    assert!(store.tiles.is_empty());
}

#[test]
fn replace_removes_local_rows() {
    let (mut store, inbox) = setup();
    store.upsert_folder_messages_append(1, inbox, &[msg(None, "x", false), msg(Some(3), "x", false)]).unwrap();
    store.replace_folder_messages(1, inbox, &[msg(Some(3), "x", true)]).unwrap();
    let rows: Vec<_> = store.messages.iter().filter(|m| m.summary.folder_id == inbox).collect();
    assert_eq!(rows.len(), 1);
    assert_eq!(rows[0].summary.imap_uid, Some(3));
    assert!(rows[0].summary.unread);
}

#[test]
fn empty_folder_list_deletes_all_folders() {
    let (mut store, inbox) = setup();
    store.upsert_folder_messages_append(1, inbox, &[msg(Some(1), "x", true)]).unwrap();
    let out = store.upsert_folders(1, &[]).unwrap();
    assert!(out.is_empty());
    assert!(store.folders.iter().all(|f| f.account_id != 1));
    assert!(store.messages.is_empty());
}

#[test]
fn upsert_folders_keeps_ids_and_updates_counts() {
    let (mut store, inbox) = setup();
    let out = store.upsert_folders(1, &[folder("INBOX", 9), folder("Spam", 1)]).unwrap();
    assert_eq!(out[0].id, inbox);
    assert_eq!(out[0].unread, 9);
    assert!(store.folder_id_by_name(1, "Archive").is_none());
    assert_eq!(store.folder_id_by_name(1, "Spam"), Some(out[1].id));
}

#[test]
fn empty_append_is_noop() {
    let (mut store, inbox) = setup();
    store.upsert_folder_messages_append(1, inbox, &[msg(Some(1), "x", false)]).unwrap();
    let before = store.messages.len();
    let next_before = store.next_id;
    store.upsert_folder_messages_append(1, inbox, &[]).unwrap();
    assert_eq!(store.messages.len(), before);
    assert_eq!(store.next_id, next_before);
}

#[test]
fn body_fetch_on_present_body_is_noop() {
    let (mut store, _) = setup();
    store.apply_raw_body(5, &b"first".to_vec(), Some("one".to_string()));
    store.apply_raw_body(5, &b"second".to_vec(), Some("two".to_string()));
    assert_eq!(store.get_raw_body(5), Some(b"first".to_vec()));
    assert_eq!(store.get_message_text(5), Some("one".to_string()));
    assert_eq!(store.bodies.len(), 1);
}

#[test]
fn move_round_trip_restores_folder_and_counts() {
    let (mut store, inbox) = setup();
    let archive = store.folder_id_by_name(1, "Archive").unwrap();
    store.upsert_folder_messages_append(1, inbox, &[msg(Some(1), "x", true), msg(Some(2), "x", true)]).unwrap();
    let id = store.messages[0].summary.id;
    store.move_messages(&[id], archive).unwrap();
    let counts = |s: &MemoryMailStore| s.folders.iter().map(|f| (f.id, f.unread)).collect::<Vec<_>>();
    assert!(counts(&store).contains(&(inbox, 1)));
    assert!(counts(&store).contains(&(archive, 1)));
    store.move_messages(&[id], inbox).unwrap();
    assert_eq!(store.messages[0].summary.folder_id, inbox);
    assert!(counts(&store).contains(&(inbox, 2)));
    assert!(counts(&store).contains(&(archive, 0)));
}

#[test]
fn move_into_folder_with_same_uid_is_refused() {
    let (mut store, inbox) = setup();
    let archive = store.folder_id_by_name(1, "Archive").unwrap();
    store.upsert_folder_messages_append(1, inbox, &[msg(Some(1), "x", true)]).unwrap();
    store.upsert_folder_messages_append(1, archive, &[msg(Some(1), "x", true)]).unwrap();
    let id = store.messages[0].summary.id;
    assert_eq!(store.move_messages(&[id], archive), Err(StoreError::UidConflict));
    assert_eq!(store.messages[0].summary.folder_id, inbox);
}

#[test]
fn unread_counts_follow_flags_and_deletes() {
    let (mut store, inbox) = setup();
    store.upsert_folder_messages_append(1, inbox, &[msg(Some(1), "x", true), msg(Some(2), "x", false)]).unwrap();
    let id1 = store.messages[0].summary.id;
    let id2 = store.messages[1].summary.id;
    store.set_message_unread(id2, true);
    assert_eq!(store.folders.iter().find(|f| f.id == inbox).unwrap().unread, 2);
    store.delete_messages(&[id1]);
    assert_eq!(store.folders.iter().find(|f| f.id == inbox).unwrap().unread, 1);
    assert_eq!(store.messages.len(), 1);
}

#[test]
fn accounts_resolve_by_name_and_order() {
    let mut store = MemoryMailStore::new();
    assert_eq!(store.first_account_id(), None);
    store.upsert_account(5, "Work", "w@example.com");
    store.upsert_account(2, "Personal", "p@example.com");
    store.upsert_account(5, "Work2", "w2@example.com");
    assert_eq!(store.first_account_id(), Some(2));
    assert_eq!(store.account_id_by_name("Work2"), Some(5));
    assert_eq!(store.account_id_by_name("Work"), None);
    assert_eq!(store.accounts.len(), 2);
}

#[test]
fn demo_seed_installs_personal_fixture() {
    let mut store = MemoryMailStore::new();
    store.seed_demo_if_empty("Personal");
    assert_eq!(store.accounts.len(), 1);
    assert_eq!(store.accounts[0].address, "personal@ratmail-demo.local");
    assert_eq!(store.accounts[0].name, "Personal");
    let names: Vec<&str> = store.folders.iter().map(|f| f.name.as_str()).collect();
    assert_eq!(names, vec!["INBOX", "Sent", "Drafts", "Archive", "Promotions", "Orders"]);
    assert_eq!(store.list_folders(1).len(), 6);
    assert!(store.messages.iter().all(|m| m.account_id == 1 && store.folders.iter().any(|f| f.id == m.summary.folder_id)));
    assert_eq!(store.folders.iter().find(|f| f.name == "INBOX").unwrap().unread, 4);
    let ids: Vec<i64> = store.messages.iter().map(|m| m.summary.id).collect();
    assert_eq!(ids, (101..=108).collect::<Vec<i64>>());
    assert_eq!(store.get_message_text(101).unwrap().lines().next(), Some("Are you free Friday at 7?"));
    store.seed_demo_if_empty("Work");
    assert_eq!(store.accounts[0].address, "work@ratmail-demo.local");
    let mut real = MemoryMailStore::new();
    real.upsert_account(1, "Me", "me@real.example");
    real.seed_demo_if_empty("Someone");
    assert_eq!(real.accounts[0].address, "me@real.example");
    real.seed_demo_if_empty("Personal");
    assert_eq!(real.accounts[0].address, "personal@ratmail-demo.local");
}

#[test]
fn list_messages_orders_newest_first_and_filters() {
    let (mut store, inbox) = setup();
    let batch = vec![
        msg(Some(1), "Mon, 05 Jan 2026 10:00:00 +0000", true),
        msg(Some(2), "Wed, 07 Jan 2026 10:00:00 +0000", false),
        msg(Some(3), "not a date", true),
        msg(Some(4), "Tue, 06 Jan 2026 10:00:00 +0000", true),
    ];
    store.upsert_folder_messages_append(1, inbox, &batch).unwrap();
    let all = store.list_messages(1, Some(inbox), None, None, None);
    let uids: Vec<Option<u32>> = all.iter().map(|m| m.imap_uid).collect();
    assert_eq!(uids, vec![Some(2), Some(4), Some(1), Some(3)]);
    let unread = store.list_messages(1, None, Some(true), None, Some(2));
    let uids: Vec<Option<u32>> = unread.iter().map(|m| m.imap_uid).collect();
    assert_eq!(uids, vec![Some(4), Some(1)]);
    let since = mailparse::dateparse("Tue, 06 Jan 2026 00:00:00 +0000").unwrap();
    assert_eq!(store.list_messages(1, None, None, Some(since), Some(-1)).len(), 2);
    assert!(store.list_messages(2, None, None, None, None).is_empty());
}

#[test]
fn message_headers_and_caches_round_trip() {
    let (mut store, inbox) = setup();
    store.upsert_folder_messages_append(1, inbox, &[msg(Some(9), "x", false)]).unwrap();
    let id = store.messages[0].summary.id;
    assert_eq!(store.get_message_to(id), Some(String::new()));
    store.update_message_to(id, "a@x.com");
    store.update_message_cc(id, "b@x.com");
    assert_eq!(store.get_message_to(id), Some("a@x.com".to_string()));
    assert_eq!(store.get_message_cc(id), Some("b@x.com".to_string()));
    assert_eq!(store.get_message_summary(id).unwrap().imap_uid, Some(9));
    assert!(store.get_message_summary(id + 100).is_none());
    store.upsert_raw_body(id, b"one");
    store.upsert_raw_body(id, b"two");
    assert_eq!(store.get_raw_body(id), Some(b"two".to_vec()));
    assert_eq!(store.bodies.len(), 1);
    assert_eq!(store.get_cache_html(id, "blocked"), None);
    store.upsert_cache_html(id, "blocked", "<p>a</p>");
    store.upsert_cache_html(id, "blocked", "<p>b</p>");
    assert_eq!(store.get_cache_html(id, "blocked"), Some("<p>b</p>".to_string()));
    assert_eq!(store.get_cache_html(id, "allowed"), None);
    assert_eq!(store.list_folders(1).len(), 2);
}

#[test]
fn clear_account_data_removes_only_that_account() {
    let (mut store, inbox) = setup();
    store.upsert_folder_messages_append(1, inbox, &[msg(Some(1), "x", true)]).unwrap();
    store.upsert_account(2, "Work", "w@example.com");
    let work = store.upsert_folders(2, &[Folder { id: 0, account_id: 2, name: "INBOX".to_string(), unread: 0 }]).unwrap();
    store.upsert_folder_messages_append(2, work[0].id, &[msg(Some(1), "x", true)]).unwrap();
    store.clear_account_data(1);
    assert!(store.messages.iter().all(|m| m.account_id == 2));
    assert_eq!(store.messages.len(), 1);
    assert!(store.folders.iter().all(|f| f.account_id == 2));
    assert_eq!(store.folders.len(), 1);
}

#[test]
fn initial_sync_replaces_only_empty_folder() {
    let (mut store, inbox) = setup();
    store
        .apply_sync_result(&SyncMode::Initial { days: 30 }, 1, inbox, &[msg(Some(5), "Mon, 05 Jan 2026 10:00:00 +0000", true)], 100)
        .unwrap();
    assert_eq!(uids_of(&store, inbox), vec![5]);
    store
        .apply_sync_result(&SyncMode::Initial { days: 30 }, 1, inbox, &[msg(Some(6), "Tue, 06 Jan 2026 10:00:00 +0000", true)], 200)
        .unwrap();
    assert_eq!(uids_of(&store, inbox), vec![5, 6]);
    store
        .apply_sync_result(&SyncMode::Incremental { last_seen_uid: 6 }, 1, inbox, &[msg(Some(7), "x", false)], 300)
        .unwrap();
    let state = store.get_folder_sync_state(inbox).unwrap();
    assert_eq!(state.last_seen_uid, Some(7));
    assert_eq!(state.last_sync_ts, Some(300));
}

#[test]
fn cached_tiles_come_back_in_index_order() {
    let (mut store, _) = setup();
    let tiles: Vec<TileMeta> = [2i64, 0, 1].iter().map(|&i| TileMeta { tile_index: i, height_px: 7, bytes: vec![i as u8] }).collect();
    store.upsert_cache_tiles(3, 640, 90, "light:bgv2", "allowed", &tiles);
    let got = store.get_cache_tiles(3, 640, 90, "light:bgv2", "allowed");
    let idx: Vec<i64> = got.iter().map(|t| t.tile_index).collect();
    assert_eq!(idx, vec![0, 1, 2]);
    assert!(got.iter().all(|t| t.height_px == 90 && t.bytes == vec![t.tile_index as u8]));
}

#[test]
fn actor_updates_apply_store_operations() {
    let (mut store, _) = setup();
    let update = StoreUpdate::AppendMessages {
        account_id: 1,
        folder_name: "Newsletters".to_string(),
        messages: vec![msg(Some(4), "Mon, 05 Jan 2026 10:00:00 +0000", true)],
        sync_update: build_sync_update(&[msg(Some(4), "Mon, 05 Jan 2026 10:00:00 +0000", true)], 10),
    };
    store.apply_update(update).unwrap();
    let fid = store.folder_id_by_name(1, "Newsletters").unwrap();
    assert_eq!(uids_of(&store, fid), vec![4]);
    assert_eq!(store.get_folder_sync_state(fid).unwrap().last_seen_uid, Some(4));
    let id = store.messages[0].summary.id;
    store.apply_update(StoreUpdate::RawBody { account_id: 1, message_id: id, raw: b"r1".to_vec(), cached_text: None }).unwrap();
    store.apply_update(StoreUpdate::RawBody { account_id: 1, message_id: id, raw: b"r2".to_vec(), cached_text: None }).unwrap();
    assert_eq!(store.get_raw_body(id), Some(b"r1".to_vec()));
    store.apply_update(StoreUpdate::SetMessagesUnread { account_id: 1, ids: vec![id], unread: false, refresh_folder_id: fid }).unwrap();
    assert_eq!(store.folders.iter().find(|f| f.id == fid).unwrap().unread, 0);
    store.apply_update(StoreUpdate::DeleteMessages { account_id: 1, ids: vec![id], refresh_folder_id: fid }).unwrap();
    assert!(store.messages.is_empty());
}

#[test]
fn sync_planning_picks_mode_and_debounces() {
    let state = Some(FolderSyncState { folder_id: 1, uidvalidity: None, uidnext: None, last_seen_uid: Some(42), last_sync_ts: None, oldest_ts: Some(77) });
    assert!(matches!(folder_sync_mode(&state, 30), SyncMode::Incremental { last_seen_uid: 42 }));
    assert!(matches!(folder_sync_mode(&None, 30), SyncMode::Initial { days: 30 }));
    assert!(matches!(backfill_mode(&state, 14), Some(SyncMode::Backfill { before_ts: 77, window_days: 14 })));
    assert!(backfill_mode(&None, 14).is_none());
    let last = Some(("INBOX".to_string(), 1000u64));
    assert!(!debounce_allows(&last, "INBOX", 2500, 2000));
    assert!(debounce_allows(&last, "INBOX", 3000, 2000));
    assert!(debounce_allows(&last, "Sent", 1500, 2000));
}

#[test]
fn folders_keep_ids_and_drafts_folder_is_reused() {
    let (mut store, inbox) = setup();
    let again = store.upsert_folders(1, &[folder("Archive", 0), folder("INBOX", 3)]).unwrap();
    assert_eq!(again[1].id, inbox);
    let first = store.save_draft(1, "a@x.com", "", "", "", "S1", "b", "d", "d").unwrap();
    let folders_before = store.folders.len();
    let second = store.save_draft(1, "a@x.com", "", "", "", "S2", "b", "d", "d").unwrap();
    assert_eq!(store.folders.len(), folders_before);
    let f1 = store.get_message_summary(first).unwrap().folder_id;
    let f2 = store.get_message_summary(second).unwrap().folder_id;
    assert_eq!(f1, f2);
}

#[test]
fn actor_folders_move_and_draft_updates() {
    let (mut store, inbox) = setup();
    let archive = store.folder_id_by_name(1, "Archive").unwrap();
    store.upsert_folder_messages_append(1, inbox, &[msg(Some(1), "x", true)]).unwrap();
    let id = store.messages[0].summary.id;
    store.apply_update(StoreUpdate::MoveMessages { account_id: 1, ids: vec![id], target_folder_id: archive, refresh_folder_id: inbox }).unwrap();
    assert_eq!(store.messages[0].summary.folder_id, archive);
    assert_eq!(store.folders.iter().find(|f| f.id == archive).unwrap().unread, 1);
    store
        .apply_update(StoreUpdate::SaveDraft {
            account_id: 1,
            from_addr: "a@x.com".to_string(),
            to: "t@x.com".to_string(),
            cc: String::new(),
            bcc: String::new(),
            subject: "S".to_string(),
            body: "Body".to_string(),
            date: "d".to_string(),
            date_rfc2822: "d".to_string(),
        })
        .unwrap();
    assert!(store.folder_id_by_name(1, "Drafts").is_some());
    store.apply_update(StoreUpdate::Folders { account_id: 1, folders: vec![folder("INBOX", 0)] }).unwrap();
    assert!(store.folder_id_by_name(1, "Archive").is_none());
    assert!(store.messages.iter().all(|m| m.summary.folder_id == inbox));
}

#[test]
fn tile_hit_leaves_other_renderings_alone() {
    let (mut store, _) = setup();
    store.upsert_cache_tiles(1, 10, 10, "t", "allowed", &[TileMeta { tile_index: 0, height_px: 1, bytes: vec![1] }]);
    store.upsert_cache_tiles(2, 10, 10, "t", "allowed", &[TileMeta { tile_index: 0, height_px: 1, bytes: vec![2] }]);
    let other = store.tiles[1].updated_at;
    assert_eq!(store.get_cache_tiles(1, 10, 10, "t", "allowed").len(), 1);
    assert_eq!(store.tiles[1].updated_at, other);
}
