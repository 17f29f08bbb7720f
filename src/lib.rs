//! Offline mail cache and the logic around it, with contracts proved by Verus.
//!
//! - `store`: the cache itself (accounts, folders, sync state, messages, bodies, text, HTML
//!   and tile caches) and its reconciliation, unread bookkeeping and tile eviction;
//! - `actor`: one step of the single writer that applies store updates;
//! - `sync`: sync updates, their merge into the sync state, and sync planning;
//! - `content`, `links`, `display`: remote-asset blocking, inline images, link extraction
//!   and display-text tidying;
//! - `render`: tile slicing and render bookkeeping;
//! - `draft`, `compose`, `cli`, `util`: drafts, the compose buffer, command-mode helpers and
//!   small utilities;
//! - `text`, `types`: character-level helpers and the shared data types.

pub mod text;
pub mod types;
pub mod store;
pub mod sync;
pub mod draft;
pub mod content;
pub mod compose;
pub mod cli;
pub mod util;
pub mod links;
pub mod display;
pub mod render;
pub mod actor;
pub mod imap;
pub mod mime;
