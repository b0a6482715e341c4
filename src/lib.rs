//! A minimal storage engine for a Secure Scuttlebutt peer, enough to answer
//! legacy replication queries: "every message of feed F with sequence greater
//! than S".
//!
//! Raw message envelopes are kept verbatim in an append-only offset log, the
//! source of truth. A relational index maps feed sequences and message keys to
//! log offsets; it is derived from the log and can be rebuilt from it at any time.
//! The store does not validate messages: callers validate them before appending.
pub mod db;
pub mod error;
pub mod offset_log;
pub mod sqlite_ssb_db;
pub mod ssb_message;

pub use db::{Author, Index, Key, Message};
pub use error::Error;
pub use offset_log::{LogEntry, OffsetLog};
pub use sqlite_ssb_db::SqliteSsbDb;
pub use ssb_message::{SsbMessage, SsbValue};
