use vstd::prelude::*;

verus! {

/// One configured mailbox identity.
#[derive(Debug, Clone)]
pub struct Account {
    pub id: i64,
    pub name: String,
    pub address: String,
}

/// A named container of messages within an account.
#[derive(Debug, Clone)]
pub struct Folder {
    pub id: i64,
    pub account_id: i64,
    pub name: String,
    pub unread: u32,
}

/// Per-folder synchronisation bookkeeping.
#[derive(Debug, Clone)]
pub struct FolderSyncState {
    pub folder_id: i64,
    pub uidvalidity: Option<i64>,
    pub uidnext: Option<i64>,
    pub last_seen_uid: Option<i64>,
    pub last_sync_ts: Option<i64>,
    pub oldest_ts: Option<i64>,
}

/// Metadata of one message within a folder.
#[derive(Debug, Clone)]
pub struct MessageSummary {
    pub id: i64,
    pub folder_id: i64,
    pub imap_uid: Option<u32>,
    pub date: String,
    pub from: String,
    pub subject: String,
    pub unread: bool,
    pub preview: String,
}

/// A message as the reader pane shows it.
#[derive(Debug, Clone)]
pub struct MessageDetail {
    pub id: i64,
    pub subject: String,
    pub from: String,
    pub to: String,
    pub cc: String,
    pub date: String,
    pub body: String,
    pub links: Vec<LinkInfo>,
    pub attachments: Vec<AttachmentMeta>,
}

/// A link found in a message body.
#[derive(Debug, Clone, PartialEq, Eq)]
pub struct LinkInfo {
    pub url: String,
    pub text: Option<String>,
    pub from_html: bool,
}

/// A point-in-time copy of one account's stored state.
#[derive(Debug, Clone)]
pub struct StoreSnapshot {
    pub account: Account,
    pub folders: Vec<Folder>,
    pub messages: Vec<MessageSummary>,
    pub message_details: Vec<MessageDetail>,
}

/// One attachment of a message.
#[derive(Debug, Clone)]
pub struct AttachmentMeta {
    pub filename: String,
    pub mime: String,
    pub size: usize,
}

/// One rendered image slice.
#[derive(Debug, Clone)]
pub struct TileMeta {
    pub tile_index: i64,
    pub height_px: i64,
    pub bytes: Vec<u8>,
}

/// Display text of a message with the links found in it.
#[derive(Debug, Clone)]
pub struct DisplayText {
    pub text: String,
    pub links: Vec<LinkInfo>,
}

/// Sanitised HTML ready for the renderer.
#[derive(Debug, Clone)]
pub struct PreparedHtml {
    pub html: String,
    pub blocked_remote: usize,
}

/// The bytes of one attachment.
#[derive(Debug, Clone)]
pub struct AttachmentData {
    pub filename: String,
    pub mime: String,
    pub data: Vec<u8>,
}

/// How a folder is selected on the server.
#[derive(Debug, Clone)]
pub enum SyncMode {
    Initial { days: i64 },
    Incremental { last_seen_uid: u32 },
    Backfill { before_ts: i64, window_days: i64 },
}

/// What a mail protocol error was about.
#[derive(Debug, Clone)]
pub enum ImapErrorContext {
    SyncAll,
    SyncFolder { folder_name: String },
    FetchBody { message_id: i64, folder_name: String, uid: u32 },
    MoveMessages { folder_name: String, target_folder: String, count: usize },
    DeleteMessages { folder_name: String, count: usize },
}

/// Outgoing mail server settings.
#[derive(Debug, Clone)]
pub struct SmtpConfig {
    pub host: String,
    pub port: u16,
    pub username: String,
    pub password: String,
    pub from: String,
    pub skip_tls_verify: bool,
}

/// Incoming mail server settings.
#[derive(Debug, Clone)]
pub struct ImapConfig {
    pub host: String,
    pub port: u16,
    pub username: String,
    pub password: String,
    pub skip_tls_verify: bool,
    pub initial_sync_days: i64,
    pub fetch_chunk_size: usize,
}

/// A folder as the server lists it.
#[derive(Debug, Clone)]
pub struct ImapFolder {
    pub name: String,
    pub unread: u32,
}

/// A message header summary as the server returns it.
#[derive(Debug, Clone)]
pub struct ImapMessageSummary {
    pub uid: u32,
    pub date: String,
    pub from: String,
    pub subject: String,
    pub unread: bool,
    pub preview: String,
}

/// A file attached to an outgoing message.
#[derive(Debug, Clone)]
pub struct OutgoingAttachment {
    pub filename: String,
    pub mime: String,
    pub data: Vec<u8>,
}

/// Commands handed to the mail worker.
#[derive(Debug, Clone)]
pub enum MailCommand {
    SyncFolder(i64),
    FetchMessageBody { message_id: i64, folder_name: String, uid: u32 },
    SetFlag { message_id: i64, seen: bool },
    SyncAll,
    SyncFolderByName { name: String, mode: SyncMode },
    MoveMessages { folder_name: String, target_folder: String, uids: Vec<u32> },
    DeleteMessages { folder_name: String, uids: Vec<u32> },
    SendMessage {
        to: String,
        cc: String,
        bcc: String,
        subject: String,
        body: String,
        body_html: Option<String>,
        attachments: Vec<OutgoingAttachment>,
    },
}

/// Events emitted by the mail worker.
#[derive(Debug, Clone)]
pub enum MailEvent {
    SyncStarted(i64),
    SyncCompleted(i64),
    SyncFailed { folder_id: i64, reason: String },
    FlagUpdated { message_id: i64, seen: bool },
    ImapFolders(Vec<ImapFolder>),
    ImapMessages { folder_name: String, messages: Vec<ImapMessageSummary> },
    ImapBody { message_id: i64, raw: Vec<u8> },
    ImapError { context: ImapErrorContext, reason: String },
    SendStarted,
    SendCompleted,
    SendFailed { reason: String },
}

/// Whether rendered HTML may load remote assets.
#[derive(Debug, Clone, Copy, PartialEq, Eq, Structural)]
pub enum RemotePolicy {
    Blocked,
    Allowed,
}

/// What the render worker is asked to draw.
#[derive(Debug, Clone)]
pub struct RenderRequest {
    pub message_id: i64,
    pub width_px: i64,
    pub tile_height_px: i64,
    pub max_tiles: Option<usize>,
    pub theme: String,
    pub remote_policy: RemotePolicy,
    pub prepared_html: String,
}

/// The tiles that a render produced.
#[derive(Debug, Clone)]
pub struct RenderResult {
    pub tiles: Vec<TileMeta>,
}

/// Which field of the compose form has focus.
#[derive(Debug, Clone, Copy, PartialEq, Eq, Structural)]
pub enum ComposeFocus {
    To,
    Cc,
    Bcc,
    Subject,
    Body,
}

} // verus!
