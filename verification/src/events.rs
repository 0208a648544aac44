//! The closed union of mutation events: one variant per accepted upsert or
//! delete of each entity kind, carrying exactly the fields needed to replay
//! that mutation.

use vstd::prelude::*;
use crate::store_interface::{GroupId, ScorableId, ScoreId, HashedPassword};

verus! {

/// An immutable fact describing one accepted mutation. The durable log is a
/// sequence of these; replaying them in order rebuilds the store.
#[derive(Debug, PartialEq)]
pub enum Event {
    /// Add or update a user in the system.
    UpsertUser { username: String, hashed_password: HashedPassword },
    /// Delete a user (and every score they recorded).
    DeleteUser { username: String },
    /// Add or update a group for scorables to live under.
    UpsertGroup { id: GroupId, name: String },
    /// Delete a group (and everything in it).
    DeleteGroup { id: GroupId },
    /// Add or update a thing to score, inside a group.
    UpsertScorable { id: ScorableId, group_id: GroupId, name: String },
    /// Delete a scorable (and all scores against it).
    DeleteScorable { id: ScorableId },
    /// Record a score against a scorable at a date (milliseconds since epoch).
    UpsertScore { id: ScoreId, scorable_id: ScorableId, username: String, value: i64, date: i64 },
    /// Remove a single score.
    DeleteScore { id: ScoreId },
}

/// The mathematical content of an [`Event`]: the same variants over sequences
/// of characters and plain integers.
pub enum EventV {
    UpsertUser { username: Seq<char>, hashed_password: Seq<char> },
    DeleteUser { username: Seq<char> },
    UpsertGroup { id: u128, name: Seq<char> },
    DeleteGroup { id: u128 },
    UpsertScorable { id: u128, group_id: u128, name: Seq<char> },
    DeleteScorable { id: u128 },
    UpsertScore { id: u128, scorable_id: u128, username: Seq<char>, value: i64, date: i64 },
    DeleteScore { id: u128 },
}

impl View for Event {
    type V = EventV;

    open spec fn view(&self) -> EventV {
        match *self {
            Event::UpsertUser { ref username, ref hashed_password } => EventV::UpsertUser {
                username: username@,
                hashed_password: hashed_password@,
            },
            Event::DeleteUser { ref username } => EventV::DeleteUser { username: username@ },
            Event::UpsertGroup { id, ref name } => EventV::UpsertGroup { id: id.0, name: name@ },
            Event::DeleteGroup { id } => EventV::DeleteGroup { id: id.0 },
            Event::UpsertScorable { id, group_id, ref name } => EventV::UpsertScorable {
                id: id.0,
                group_id: group_id.0,
                name: name@,
            },
            Event::DeleteScorable { id } => EventV::DeleteScorable { id: id.0 },
            Event::UpsertScore { id, scorable_id, ref username, value, date } => EventV::UpsertScore {
                id: id.0,
                scorable_id: scorable_id.0,
                username: username@,
                value,
                date,
            },
            Event::DeleteScore { id } => EventV::DeleteScore { id: id.0 },
        }
    }
}

/// The views of a list of events, in order.
pub open spec fn views_of(events: Seq<Event>) -> Seq<EventV> {
    events.map_values(|e: Event| e@)
}

} // verus!
