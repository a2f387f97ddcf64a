//! Translation of source-code comments through a chat-completion service:
//! deduplication of comments by checksum, partition against a per-file cache,
//! a bounded dispatcher for the service calls, and reconciliation of the
//! answers with the cached entries.

pub mod commands;
pub mod dispatch;
pub mod gpt;
pub mod keyed;
