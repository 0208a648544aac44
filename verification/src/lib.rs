//! An event-sourced highscore store.
//!
//! The store tracks users, groups, scorables (things that accumulate scores
//! inside a group) and scores, and answers leaderboard queries. Every accepted
//! mutation is recorded as an [`events::Event`]; the durable history is an
//! append-only text log, one encoded event per line. The in-memory state
//! ([`memory_store::MemoryStore`]) is a fold of that history and is the only
//! mutable copy; [`persisted_store::PersistedStore`] couples it with a buffer
//! of events that have not yet been written out.

pub mod clock;
pub mod codec;
pub mod event_buffer;
pub mod events;
pub mod http_result;
pub mod laws;
pub mod memory_store;
pub mod model;
pub mod persisted_store;
pub mod numbers;
pub mod password;
pub mod sort;
pub mod store_interface;
pub mod text;
pub mod user;
