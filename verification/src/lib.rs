//! A small governance engine for a chat server: users propose *laws*
//! (named, ordered sequences of administrative actions), a law is posted
//! for voting, and a vote trigger executes its actions in order against
//! the server.
//!
//! The crate verifies the two cores of that system:
//!
//! - the *action engine* ([`law`]): a closed set of typed actions composed
//!   into a law, with fail-fast ordered execution against an external
//!   capability and deterministic natural-language rendering;
//! - the *persisted store* ([`storage`], [`state`]): the process state
//!   (pending proposals keyed by server) together with a structured-text
//!   codec that is proved to round-trip, falling back to the default value
//!   on any unreadable or malformed input.
//!
//! Parsing of proposal input — the fenced block inside a propose command,
//! and the law document inside it — lives in [`lawdoc`].
//!
//! File handling, locking and the chat transport are left to the embedding
//! program: the store core here maps file contents to states and back, and
//! the engine reports every attempted action through the
//! [`law::ActionHandler`] capability it is handed.

pub mod law;
pub mod lawdoc;
pub mod state;
pub mod storage;
pub mod text;
