//! A filesystem-style mailbox for exchanging text messages, attachment
//! references and quoted replies between a producer and a consumer process.
//!
//! The protocol itself — the directory layout, the atomic claim mechanism
//! with `.lock` marker files, and the filtering rules applied when draining
//! incoming messages — is implemented and verified here over an in-memory
//! directory model ([`store::Directory`]). An embedding application mirrors
//! the same steps onto a real filesystem, taking every path, file name,
//! payload format and per-entry decision from this crate.

pub mod clock;
pub mod laws;
pub mod mailbox;
pub mod model;
pub mod names;
pub mod store;
pub mod text;

pub use clock::current_timestamp_string;
pub use mailbox::{file_path, EnqueueError, SignalInterface, SignalMessage};
pub use store::Directory;
pub use text::timestamp_string;
