use vstd::prelude::*;

use crate::draft::{draft_text, preview_from};
use crate::store::{
    appended, folder_present, folders_of, flagged_all, has_body, has_folder_named, moved, name_listed, orphan_ids, recounted,
    rows_unique, rows_view, state_of, text_of, unlisted, unread_in, MemoryMailStore, MessageRowView, StoreError, StoredMessage,
    MAX_MESSAGES,
};
use crate::sync::merged_state;
use vstd::string::StringSliceAdditionalSpecFns;
use crate::sync::SyncUpdate;
use crate::types::{Folder, MessageSummary};

verus! {

/// One mutation for the single writer of the store.
#[derive(Debug, Clone)]
pub enum StoreUpdate {
    Folders { account_id: i64, folders: Vec<Folder> },
    AppendMessages { account_id: i64, folder_name: String, messages: Vec<MessageSummary>, sync_update: Option<SyncUpdate> },
    RawBody { account_id: i64, message_id: i64, raw: Vec<u8>, cached_text: Option<String> },
    MoveMessages { account_id: i64, ids: Vec<i64>, target_folder_id: i64, refresh_folder_id: i64 },
    DeleteMessages { account_id: i64, ids: Vec<i64>, refresh_folder_id: i64 },
    SetMessagesUnread { account_id: i64, ids: Vec<i64>, unread: bool, refresh_folder_id: i64 },
    SaveDraft {
        account_id: i64,
        from_addr: String,
        to: String,
        cc: String,
        bcc: String,
        subject: String,
        body: String,
        date: String,
        date_rfc2822: String,
    },
}

/// A batch with every message placed in folder `fid`.
pub open spec fn relabeled(ms: Seq<MessageSummary>, fid: i64) -> Seq<MessageSummary> {
    ms.map_values(|m: MessageSummary| MessageSummary { folder_id: fid, ..m })
}

/// There is room to append `n` messages into a folder of the account named `name`, creating
/// the folder first when it is missing.
pub open spec fn append_room(s: &MemoryMailStore, account_id: i64, name: Seq<char>, n: int) -> bool {
    if has_folder_named(s.folders@, account_id, name) {
        s.has_room(n)
    } else {
        s.next_id < i64::MAX && s.messages@.len() + n <= MAX_MESSAGES && s.next_id + 1 + n < i64::MAX
    }
}

/// The effect of appending a batch into folder `fid` and folding its update into the folder's
/// sync state.
pub open spec fn appended_into(old: &MemoryMailStore, new: &MemoryMailStore, account_id: i64, fid: i64, batch: Seq<MessageSummary>, next: i64, update: Option<SyncUpdate>) -> bool {
    &&& (rows_view(new.messages@), new.next_id) == appended(rows_view(old.messages@), fid, account_id, relabeled(batch, fid), next)
    &&& state_of(new.sync_states@, fid) == match update {
        Some(u) => Some(merged_state(state_of(old.sync_states@, fid), fid, u)),
        None => state_of(old.sync_states@, fid),
    }
}

impl MemoryMailStore {
    /// The id of the account's folder with this name, created with no unread messages when
    /// missing.
    pub fn ensure_folder(&mut self, account_id: i64, name: &String) -> (r: Result<i64, StoreError>)
        requires
            old(self).wf(),
        ensures
            final(self).wf(),
            Self::others_same_but_id(final(self), old(self)),
            final(self).messages@ == old(self).messages@,
            has_folder_named(old(self).folders@, account_id, name@) ==> r is Ok && final(self).folders@ == old(self).folders@
                && final(self).next_id == old(self).next_id,
            !has_folder_named(old(self).folders@, account_id, name@) ==> (r is Ok <==> old(self).next_id < i64::MAX),
            !has_folder_named(old(self).folders@, account_id, name@) && r is Ok ==> final(self).folders@.len()
                == old(self).folders@.len() + 1 && final(self).folders@.drop_last() == old(self).folders@
                && final(self).folders@.last().id == old(self).next_id && final(self).folders@.last().account_id == account_id
                && final(self).folders@.last().name@ == name@ && final(self).folders@.last().unread == 0
                && final(self).next_id == old(self).next_id + 1,
            r is Err ==> r == Err::<i64, StoreError>(StoreError::Full) && final(self).folders@ == old(self).folders@
                && final(self).next_id == old(self).next_id,
            r matches Ok(id) ==> folder_present(final(self).folders@, id, account_id, name@),
    {
        match self.folder_id_by_name(account_id, name.as_str()) {
            Some(id) => Ok(id),
            None => {
                if self.next_id == i64::MAX {
                    return Err(StoreError::Full);
                }
                let id = self.next_id;
                let ghost before = self.folders@;
                self.folders.push(Folder { id: id, account_id: account_id, name: name.clone(), unread: 0 });
                self.next_id = id + 1;
                assert(self.folders@[self.folders@.len() - 1].id == id);
                assert(self.folders@.drop_last() =~= before);
                Ok(id)
            },
        }
    }

    /// Everything but the folders, the messages and the id counter is the same.
    pub open spec fn others_same_but_id(a: &Self, b: &Self) -> bool {
        &&& a.accounts@ == b.accounts@
        &&& a.sync_states@ == b.sync_states@
        &&& a.bodies@ == b.bodies@
        &&& a.text_cache@ == b.text_cache@
        &&& a.html_cache@ == b.html_cache@
        &&& a.tiles@ == b.tiles@
        &&& a.clock == b.clock
    }

    /// Appends a batch into the account's folder with this name (created when missing), then
    /// folds the batch's update into that folder's sync state.
    pub fn append_to_named_folder(
        &mut self,
        account_id: i64,
        folder_name: &String,
        messages: &Vec<MessageSummary>,
        sync_update: Option<SyncUpdate>,
    ) -> (r: Result<(), StoreError>)
        requires
            old(self).wf(),
        ensures
            final(self).wf(),
            r is Ok <==> append_room(old(self), account_id, folder_name@, messages@.len() as int),
            r is Ok ==> exists|fid: i64|
                folder_present(final(self).folders@, fid, account_id, folder_name@) && (has_folder_named(
                    old(self).folders@,
                    account_id,
                    folder_name@,
                ) ==> folder_present(old(self).folders@, fid, account_id, folder_name@)) && appended_into(
                    old(self),
                    final(self),
                    account_id,
                    fid,
                    messages@,
                    if has_folder_named(old(self).folders@, account_id, folder_name@) { old(self).next_id } else { (old(self).next_id + 1) as i64 },
                    sync_update,
                ),
            r is Ok && has_folder_named(old(self).folders@, account_id, folder_name@) ==> final(self).folders@ == old(self).folders@,
            r is Err ==> final(self).messages@ == old(self).messages@ && final(self).sync_states@ == old(self).sync_states@,
            final(self).tiles@ == old(self).tiles@,
    {
        let fid = match self.ensure_folder(account_id, folder_name) {
            Ok(fid) => fid,
            Err(e) => {
                return Err(e);
            },
        };
        let ghost mid = *self;
        let mut items: Vec<MessageSummary> = Vec::new();
        let mut k: usize = 0;
        while k < messages.len()
            invariant
                k <= messages@.len(),
                items@ == relabeled(messages@.subrange(0, k as int), fid),
            decreases messages.len() - k,
        {
            let mut m = crate::store::copy_summary(&messages[k]);
            m.folder_id = fid;
            items.push(m);
            k += 1;
            assert(items@ =~= relabeled(messages@.subrange(0, k as int), fid));
        }
        assert(messages@.subrange(0, messages@.len() as int) =~= messages@);
        let res = self.apply_sync_batch(account_id, fid, &items, sync_update);
        proof {
            if res is Ok {
                assert(folder_present(self.folders@, fid, account_id, folder_name@));
            }
        }
        res
    }

    /// Applies one store update through the matching store operation.
    pub fn apply_update(&mut self, update: StoreUpdate) -> (r: Result<(), StoreError>)
        requires
            old(self).wf(),
        ensures
            final(self).wf(),
            update matches StoreUpdate::Folders { account_id, folders } ==> {
                &&& (r is Ok <==> old(self).next_id + folders@.len() < i64::MAX)
                &&& (r is Ok ==> final(self).messages@ == unlisted(old(self).messages@, orphan_ids(old(self).messages@, old(self).folders@, account_id, folders@)))
                &&& (r is Ok ==> final(self).bodies@ == unlisted(old(self).bodies@, orphan_ids(old(self).messages@, old(self).folders@, account_id, folders@)))
                &&& (r is Ok ==> final(self).text_cache@ == unlisted(old(self).text_cache@, orphan_ids(old(self).messages@, old(self).folders@, account_id, folders@)))
                &&& (r is Ok ==> final(self).html_cache@ == unlisted(old(self).html_cache@, orphan_ids(old(self).messages@, old(self).folders@, account_id, folders@)))
                &&& (r is Ok ==> final(self).tiles@ == unlisted(old(self).tiles@, orphan_ids(old(self).messages@, old(self).folders@, account_id, folders@)))
                &&& (r is Ok ==> forall|k: int| 0 <= k < final(self).folders@.len() && (#[trigger] final(self).folders@[k]).account_id == account_id
                    ==> name_listed(folders@, final(self).folders@[k].name@))
                &&& (r is Ok ==> forall|j: int| 0 <= j < folders@.len() ==> has_folder_named(final(self).folders@, account_id, (#[trigger] folders@[j]).name@))
                &&& (r is Ok ==> forall|k: int| 0 <= k < old(self).folders@.len() && (#[trigger] old(self).folders@[k]).account_id != account_id
                    ==> final(self).folders@.contains(old(self).folders@[k]))
            },
            update matches StoreUpdate::AppendMessages { account_id, folder_name, messages, sync_update } ==> {
                &&& (r is Ok <==> append_room(old(self), account_id, folder_name@, messages@.len() as int))
                &&& (r is Ok ==> exists|fid: i64|
                    folder_present(final(self).folders@, fid, account_id, folder_name@) && (has_folder_named(
                        old(self).folders@,
                        account_id,
                        folder_name@,
                    ) ==> folder_present(old(self).folders@, fid, account_id, folder_name@)) && appended_into(
                        old(self),
                        final(self),
                        account_id,
                        fid,
                        messages@,
                        if has_folder_named(old(self).folders@, account_id, folder_name@) { old(self).next_id } else { (old(self).next_id + 1) as i64 },
                        sync_update,
                    ))
                &&& (r is Err ==> final(self).messages@ == old(self).messages@ && final(self).sync_states@ == old(self).sync_states@)
            },
            update matches StoreUpdate::RawBody { message_id, raw, cached_text, .. } ==> {
                &&& r is Ok
                &&& final(self).messages@ == old(self).messages@
                &&& (has_body(old(self).bodies@, message_id) ==> final(self).bodies@ == old(self).bodies@
                    && final(self).text_cache@ == old(self).text_cache@)
                &&& (!has_body(old(self).bodies@, message_id) ==> final(self).bodies@.drop_last() == old(self).bodies@
                    && final(self).bodies@.last().message_id == message_id && final(self).bodies@.last().raw@ == raw@)
                &&& (!has_body(old(self).bodies@, message_id) && cached_text is Some ==> text_of(final(self).text_cache@, message_id)
                    == Some(cached_text->0@))
            },
            update matches StoreUpdate::MoveMessages { ids, target_folder_id, .. } ==> {
                &&& (r is Ok <==> (ids@.len() == 0 || rows_unique(moved(old(self).messages@, ids@, target_folder_id))))
                &&& (r is Ok && ids@.len() > 0 ==> final(self).messages@ == moved(old(self).messages@, ids@, target_folder_id)
                    && final(self).folders@ == recounted(old(self).folders@, final(self).messages@, folders_of(old(self).messages@, ids@).insert(target_folder_id)))
                &&& (!(r is Ok && ids@.len() > 0) ==> final(self).messages@ == old(self).messages@ && final(self).folders@ == old(self).folders@)
            },
            update matches StoreUpdate::DeleteMessages { ids, .. } ==> {
                &&& r is Ok
                &&& final(self).messages@ == unlisted(old(self).messages@, ids@)
                &&& final(self).folders@ == recounted(old(self).folders@, final(self).messages@, folders_of(old(self).messages@, ids@))
                &&& final(self).bodies@ == unlisted(old(self).bodies@, ids@)
                &&& final(self).text_cache@ == unlisted(old(self).text_cache@, ids@)
                &&& final(self).html_cache@ == unlisted(old(self).html_cache@, ids@)
                &&& final(self).tiles@ == unlisted(old(self).tiles@, ids@)
            },
            update matches StoreUpdate::SetMessagesUnread { ids, unread, .. } ==> {
                &&& r is Ok
                &&& final(self).messages@ == flagged_all(old(self).messages@, ids@, unread)
                &&& final(self).folders@.len() == old(self).folders@.len()
                &&& forall|z: int| 0 <= z < old(self).folders@.len() ==> (#[trigger] final(self).folders@[z]).id == old(self).folders@[z].id
                    && final(self).folders@[z].account_id == old(self).folders@[z].account_id
                    && final(self).folders@[z].name == old(self).folders@[z].name
                    && final(self).folders@[z].unread == if folders_of(old(self).messages@, ids@).contains(old(self).folders@[z].id) {
                        unread_in(final(self).messages@, old(self).folders@[z].id) as u32
                    } else {
                        old(self).folders@[z].unread
                    }
            },
            update matches StoreUpdate::SaveDraft { account_id, from_addr, to, cc, bcc, subject, body, date, date_rfc2822 } ==> {
                &&& (r is Ok <==> old(self).has_room(2))
                &&& (r is Ok ==> final(self).messages@.len() == old(self).messages@.len() + 1
                    && final(self).messages@.drop_last() == old(self).messages@
                    && rows_view(final(self).messages@).last() == (MessageRowView {
                        account_id: account_id,
                        id: final(self).messages@.last().summary.id,
                        folder_id: final(self).messages@.last().summary.folder_id,
                        imap_uid: None,
                        date: date@,
                        from: from_addr@,
                        subject: subject@,
                        unread: false,
                        preview: preview_from(body@, 0),
                        to: to@,
                        cc: cc@,
                    }))
                &&& (r is Ok ==> folder_present(final(self).folders@, final(self).messages@.last().summary.folder_id, account_id, "Drafts"@))
                &&& (r is Ok && has_folder_named(old(self).folders@, account_id, "Drafts"@) ==> final(self).folders@ == old(self).folders@)
                &&& (r is Ok ==> text_of(final(self).text_cache@, final(self).messages@.last().summary.id) == Some(body@))
                &&& (r is Ok ==> final(self).bodies@.drop_last() == old(self).bodies@
                    && final(self).bodies@.last().message_id == final(self).messages@.last().summary.id
                    && exists|t: &str| t@ == draft_text(from_addr@, to@, cc@, bcc@, subject@, body@, date_rfc2822@)
                        && final(self).bodies@.last().raw@ == t.spec_bytes())
                &&& final(self).accounts@ == old(self).accounts@
            },
    {
        match update {
            StoreUpdate::Folders { account_id, folders } => match self.upsert_folders(account_id, &folders) {
                Ok(out) => {
                    proof {
                        assert forall|j: int| 0 <= j < folders@.len() implies has_folder_named(self.folders@, account_id, (#[trigger] folders@[j]).name@) by {
                            assert(folder_present(self.folders@, out@[j].id, account_id, folders@[j].name@));
                        }
                    }
                    Ok(())
                },
                Err(e) => Err(e),
            },
            StoreUpdate::AppendMessages { account_id, folder_name, messages, sync_update } => {
                self.append_to_named_folder(account_id, &folder_name, &messages, sync_update)
            },
            StoreUpdate::RawBody { account_id: _, message_id, raw, cached_text } => {
                self.apply_raw_body(message_id, &raw, cached_text);
                Ok(())
            },
            StoreUpdate::MoveMessages { account_id: _, ids, target_folder_id, refresh_folder_id: _ } => {
                self.move_messages(&ids, target_folder_id)
            },
            StoreUpdate::DeleteMessages { account_id: _, ids, refresh_folder_id: _ } => {
                self.delete_messages(&ids);
                Ok(())
            },
            StoreUpdate::SetMessagesUnread { account_id: _, ids, unread, refresh_folder_id: _ } => {
                self.set_messages_unread(&ids, unread);
                Ok(())
            },
            StoreUpdate::SaveDraft { account_id, from_addr, to, cc, bcc, subject, body, date, date_rfc2822 } => {
                match self.save_draft(
                    account_id,
                    from_addr.as_str(),
                    to.as_str(),
                    cc.as_str(),
                    bcc.as_str(),
                    subject.as_str(),
                    body.as_str(),
                    date.as_str(),
                    date_rfc2822.as_str(),
                ) {
                    Ok(id) => {
                        Ok(())
                    },
                    Err(e) => Err(e),
                }
            },
        }
    }
}

} // verus!
