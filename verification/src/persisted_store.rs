//! The public entry point: the materialized store coupled with the buffer of
//! events that still await a flush to the log.
//!
//! Every mutating call applies to the materialized store first; only if that
//! succeeds is the matching event queued. The log therefore never receives an
//! event that was invalid against the state preceding it. The invariant
//! [`PersistedStore::inv`] records exactly this: the live data equals the
//! flushed baseline with the pending events replayed on top.
//!
//! Applying the mutation and queueing its event are two separate steps, so a
//! crash between a mutation and the next flush loses at most the events
//! queued since that flush — a bounded window, accepted by design. Merging
//! the two steps would hold the store across file writes; the owner instead
//! flushes periodically and once at shutdown.

use vstd::prelude::*;
use crate::clock::now_millis;
use crate::codec::{events_of_log, parse_log, render_pending};
use crate::event_buffer::EventBuffer;
use crate::events::{Event, EventV};
use crate::memory_store::{
    group_le, group_rows_of, scorable_in, scorable_le, scorable_rows_of, score_for, score_le,
    score_rows_of, MemoryStore,
};
use crate::model::{
    all_valid, apply_event, delete_group_t, delete_score_t, delete_scorable_t, delete_user_t,
    empty_data, group_name, has_group, has_score, has_scorable, has_user, lemma_all_valid_snoc,
    replay, scorable_of, upsert_group_t, upsert_score_t, upsert_scorable_t, upsert_user_t,
    user_hash, wf, StoreData,
};
use crate::password::verify_of;
use crate::sort::views_seq;
use crate::store_interface::{
    Group, GroupId, HashedPassword, Scorable, ScorableId, Score, ScoreId, StoreError,
};

verus! {

/// The store as the application uses it: live state plus pending events.
pub struct PersistedStore {
    store: MemoryStore,
    buffer: EventBuffer,
    base: Ghost<StoreData>,
}

impl PersistedStore {
    /// The live data.
    pub closed spec fn data(&self) -> StoreData {
        self.store@.data
    }

    /// The events accepted since the last flush, oldest first.
    pub closed spec fn pending(&self) -> Seq<EventV> {
        self.buffer@
    }

    /// The state the flushed part of the log replays to.
    pub closed spec fn base(&self) -> StoreData {
        self.base@
    }

    /// When the last accepted mutation happened.
    pub closed spec fn stamp(&self) -> i64 {
        self.store@.last_changed
    }

    /// The store's invariant: the live data is well-formed, it equals the
    /// flushed baseline with the pending events replayed on top, and every
    /// pending event is valid against the state preceding it. Replaying the
    /// log therefore always rebuilds the live data.
    pub closed spec fn inv(&self) -> bool {
        &&& wf(self.data())
        &&& self.data() == replay(self.base(), self.pending())
        &&& all_valid(self.base(), self.pending())
    }

    /// The invariant, unfolded for callers: the live data is well-formed, it
    /// is always the flushed baseline with the pending events replayed on
    /// top, and every pending event is valid against the state preceding it
    /// — the log only ever receives accepted mutations.
    pub proof fn lemma_live_is_replay(&self)
        requires
            self.inv(),
        ensures
            wf(self.data()),
            self.data() == replay(self.base(), self.pending()),
            all_valid(self.base(), self.pending()),
    {
    }

    /// Round trip: when the flushed log text replays to this store's
    /// baseline (as [`PersistedStore::load`] establishes and appending
    /// exactly [`PersistedStore::pending_text`] maintains), then appending
    /// the rendered pending batch and replaying the whole log from scratch
    /// reconstructs exactly the live data — `last_changed` is no part of the
    /// replayed data.
    pub proof fn lemma_round_trip(&self, log: Seq<char>)
        requires
            self.inv(),
            self.base() == replay(empty_data(), events_of_log(log)),
        ensures
            replay(empty_data(), events_of_log(log + render_pending(self.pending())))
                == self.data(),
    {
        crate::laws::lemma_flush_round_trip(log, self.pending());
    }

    /// Replaying one more pending event on top of the baseline.
    proof fn lemma_pending_snoc(base: StoreData, pending: Seq<EventV>, e: EventV)
        ensures
            replay(base, pending.push(e)) == apply_event(replay(base, pending), e),
    {
        assert(pending.push(e).drop_last() =~= pending);
        assert(pending.push(e).last() == e);
    }

    /// Load the store from the whole text of the event log (an absent log
    /// file reads as the empty text): every line that decodes is replayed
    /// over the empty state, in order; lines that do not decode are skipped.
    pub fn load(log_text: &str) -> (s: PersistedStore)
        ensures
            s.inv(),
            s.pending() == Seq::<EventV>::empty(),
            s.base() == replay(empty_data(), events_of_log(log_text@)),
            s.data() == s.base(),
    {
        let events = parse_log(log_text);
        let now = now_millis();
        let store = MemoryStore::from_events(&events, now);
        let s = PersistedStore {
            store,
            buffer: EventBuffer::new(),
            base: Ghost(replay(empty_data(), events_of_log(log_text@))),
        };
        s
    }

    /// When the last accepted mutation happened (milliseconds since the Unix
    /// epoch). A cheap poll for "did anything change"; never mutates.
    pub fn last_changed(&self) -> (r: i64)
        ensures
            r == self.stamp(),
    {
        self.store.last_changed()
    }

    /// The text that carries the pending events to the log. The owner
    /// appends it to the log file and calls [`PersistedStore::mark_flushed`]
    /// only if the write succeeded; on failure the buffer is untouched and
    /// the same events travel with the next flush.
    pub fn pending_text(&self) -> (s: String)
        ensures
            s@ == render_pending(self.pending()),
    {
        self.buffer.pending_text()
    }

    /// Is anything waiting to be flushed?
    pub fn has_pending(&self) -> (r: bool)
        ensures
            r == (self.pending().len() != 0),
    {
        !self.buffer.is_empty()
    }

    /// Note that the pending events are now durable: they join the baseline.
    pub fn mark_flushed(&mut self)
        requires
            old(self).inv(),
        ensures
            final(self).inv(),
            final(self).pending() == Seq::<EventV>::empty(),
            final(self).base() == old(self).data(),
            final(self).data() == old(self).data(),
            final(self).stamp() == old(self).stamp(),
    {
        self.buffer.clear();
        proof {
            self.base@ = self.store@.data;
        }
    }

    /// Add a user, or give an existing user a new password hash.
    pub fn upsert_user(&mut self, username: String, hashed_password: HashedPassword) -> (r: Result<
        (),
        StoreError,
    >)
        requires
            old(self).inv(),
        ensures
            final(self).inv(),
            r is Ok,
            final(self).data() == upsert_user_t(old(self).data(), username@, hashed_password@),
            final(self).pending() == old(self).pending().push(
                EventV::UpsertUser { username: username@, hashed_password: hashed_password@ },
            ),
            final(self).base() == old(self).base(),
    {
        let now = now_millis();
        let r = self.store.upsert_user(username.clone(), hashed_password.clone(), now);
        let e = Event::UpsertUser { username, hashed_password };
        proof {
            Self::lemma_pending_snoc(self.base(), self.pending(), e@);
            lemma_all_valid_snoc(self.base(), self.pending(), e@);
        }
        self.buffer.push(e);
        r
    }

    /// Does this user exist with this password? Never mutates, never errs.
    pub fn check_user(&self, username: &str, password: &str) -> (r: bool)
        requires
            self.inv(),
        ensures
            r == (has_user(self.data(), username@) && verify_of(
                user_hash(self.data(), username@),
                password@,
            )),
    {
        self.store.check_user(username, password)
    }

    /// Every known username, in insertion order. Never mutates.
    pub fn users(&self) -> (r: Vec<String>)
        requires
            self.inv(),
        ensures
            r@.map_values(|s: String| s@) == self.data().users.map_values(
                |u: crate::model::UserM| u.username,
            ),
    {
        self.store.users()
    }

    /// Delete a user and every score that user recorded.
    pub fn delete_user(&mut self, username: &str) -> (r: Result<(), StoreError>)
        requires
            old(self).inv(),
        ensures
            final(self).inv(),
            final(self).base() == old(self).base(),
            match r {
                Result::Ok(u) => has_user(old(self).data(), username@) && final(self).data()
                    == delete_user_t(old(self).data(), username@) && final(self).pending() == old(self).pending().push(EventV::DeleteUser { username: username@ }),
                Result::Err(e) => !has_user(old(self).data(), username@) && final(self).data()
                    == old(self).data() && final(self).pending() == old(self).pending() && final(self).stamp() == old(self).stamp() && (e matches StoreError::UserNotFound(n) && n@
                    == username@),
            },
    {
        let now = now_millis();
        let r = self.store.delete_user(username, now);
        match r {
            Result::Ok(u) => {
                let e = Event::DeleteUser { username: String::from_str(username) };
                proof {
                    Self::lemma_pending_snoc(self.base(), self.pending(), e@);
                    lemma_all_valid_snoc(self.base(), self.pending(), e@);
                }
                self.buffer.push(e);
                Ok(u)
            },
            Result::Err(e) => Err(e),
        }
    }

    /// Add a group, or rename an existing one.
    pub fn upsert_group(&mut self, id: GroupId, name: String) -> (r: Result<(), StoreError>)
        requires
            old(self).inv(),
        ensures
            final(self).inv(),
            r is Ok,
            final(self).data() == upsert_group_t(old(self).data(), id.0, name@),
            final(self).pending() == old(self).pending().push(
                EventV::UpsertGroup { id: id.0, name: name@ },
            ),
            final(self).base() == old(self).base(),
    {
        let now = now_millis();
        let r = self.store.upsert_group(id, name.clone(), now);
        let e = Event::UpsertGroup { id, name };
        proof {
            Self::lemma_pending_snoc(self.base(), self.pending(), e@);
            lemma_all_valid_snoc(self.base(), self.pending(), e@);
        }
        self.buffer.push(e);
        r
    }

    /// The group stored under an id. Never mutates.
    pub fn get_group(&self, id: &GroupId) -> (r: Result<Group, StoreError>)
        requires
            self.inv(),
        ensures
            match r {
                Result::Ok(g) => has_group(self.data(), id.0) && g@.id == id.0 && g@.name
                    == group_name(self.data(), id.0),
                Result::Err(e) => !has_group(self.data(), id.0) && (e
                    matches StoreError::GroupNotFound(x) && x == *id),
            },
    {
        self.store.get_group(id)
    }

    /// Delete a group, its scorables and, transitively, all their scores.
    pub fn delete_group(&mut self, id: &GroupId) -> (r: Result<(), StoreError>)
        requires
            old(self).inv(),
        ensures
            final(self).inv(),
            final(self).base() == old(self).base(),
            match r {
                Result::Ok(u) => has_group(old(self).data(), id.0) && final(self).data()
                    == delete_group_t(old(self).data(), id.0) && final(self).pending() == old(self).pending().push(EventV::DeleteGroup { id: id.0 }),
                Result::Err(e) => !has_group(old(self).data(), id.0) && final(self).data() == old(self).data() && final(self).pending() == old(self).pending() && final(self).stamp()
                    == old(self).stamp() && (e matches StoreError::GroupNotFound(x) && x == *id),
            },
    {
        let now = now_millis();
        let r = self.store.delete_group(id, now);
        match r {
            Result::Ok(u) => {
                let e = Event::DeleteGroup { id: *id };
                proof {
                    Self::lemma_pending_snoc(self.base(), self.pending(), e@);
                    lemma_all_valid_snoc(self.base(), self.pending(), e@);
                }
                self.buffer.push(e);
                Ok(u)
            },
            Result::Err(e) => Err(e),
        }
    }

    /// Add a scorable to an existing group, or update its name and group.
    pub fn upsert_scorable(&mut self, id: ScorableId, group_id: GroupId, name: String) -> (r:
        Result<(), StoreError>)
        requires
            old(self).inv(),
        ensures
            final(self).inv(),
            final(self).base() == old(self).base(),
            match r {
                Result::Ok(u) => has_group(old(self).data(), group_id.0) && final(self).data()
                    == upsert_scorable_t(old(self).data(), id.0, group_id.0, name@) && final(self).pending() == old(self).pending().push(
                    EventV::UpsertScorable { id: id.0, group_id: group_id.0, name: name@ },
                ),
                Result::Err(e) => !has_group(old(self).data(), group_id.0) && final(self).data()
                    == old(self).data() && final(self).pending() == old(self).pending() && final(self).stamp() == old(self).stamp() && (e matches StoreError::GroupNotFound(x) && x
                    == group_id),
            },
    {
        let now = now_millis();
        let r = self.store.upsert_scorable(id, group_id, name.clone(), now);
        match r {
            Result::Ok(u) => {
                let e = Event::UpsertScorable { id, group_id, name };
                proof {
                    Self::lemma_pending_snoc(self.base(), self.pending(), e@);
                    lemma_all_valid_snoc(self.base(), self.pending(), e@);
                }
                self.buffer.push(e);
                Ok(u)
            },
            Result::Err(e) => Err(e),
        }
    }

    /// The scorable stored under an id. Never mutates.
    pub fn get_scorable(&self, id: &ScorableId) -> (r: Result<Scorable, StoreError>)
        requires
            self.inv(),
        ensures
            match r {
                Result::Ok(sc) => has_scorable(self.data(), id.0) && sc@.id == id.0 && sc@.name
                    == scorable_of(self.data(), id.0).name,
                Result::Err(e) => !has_scorable(self.data(), id.0) && (e
                    matches StoreError::ScorableNotFound(x) && x == *id),
            },
    {
        self.store.get_scorable(id)
    }

    /// Delete a scorable and every score recorded against it.
    pub fn delete_scorable(&mut self, id: &ScorableId) -> (r: Result<(), StoreError>)
        requires
            old(self).inv(),
        ensures
            final(self).inv(),
            final(self).base() == old(self).base(),
            match r {
                Result::Ok(u) => has_scorable(old(self).data(), id.0) && final(self).data()
                    == delete_scorable_t(old(self).data(), id.0) && final(self).pending() == old(self).pending().push(EventV::DeleteScorable { id: id.0 }),
                Result::Err(e) => !has_scorable(old(self).data(), id.0) && final(self).data()
                    == old(self).data() && final(self).pending() == old(self).pending() && final(self).stamp() == old(self).stamp() && (e matches StoreError::ScorableNotFound(x) && x
                    == *id),
            },
    {
        let now = now_millis();
        let r = self.store.delete_scorable(id, now);
        match r {
            Result::Ok(u) => {
                let e = Event::DeleteScorable { id: *id };
                proof {
                    Self::lemma_pending_snoc(self.base(), self.pending(), e@);
                    lemma_all_valid_snoc(self.base(), self.pending(), e@);
                }
                self.buffer.push(e);
                Ok(u)
            },
            Result::Err(e) => Err(e),
        }
    }

    /// Record a score (date in milliseconds since the Unix epoch) for an
    /// existing user against an existing scorable.
    pub fn upsert_score(
        &mut self,
        id: ScoreId,
        scorable_id: ScorableId,
        username: String,
        value: i64,
        date: i64,
    ) -> (r: Result<(), StoreError>)
        requires
            old(self).inv(),
        ensures
            final(self).inv(),
            final(self).base() == old(self).base(),
            match r {
                Result::Ok(u) => has_user(old(self).data(), username@) && has_scorable(
                    old(self).data(),
                    scorable_id.0,
                ) && final(self).data() == upsert_score_t(
                    old(self).data(),
                    id.0,
                    scorable_id.0,
                    username@,
                    value,
                    date,
                ) && final(self).pending() == old(self).pending().push(
                    EventV::UpsertScore {
                        id: id.0,
                        scorable_id: scorable_id.0,
                        username: username@,
                        value,
                        date,
                    },
                ),
                Result::Err(e) => final(self).data() == old(self).data() && final(self).pending()
                    == old(self).pending() && final(self).stamp() == old(self).stamp() && match e {
                    StoreError::UserNotFound(n) => !has_user(old(self).data(), username@) && n@
                        == username@,
                    StoreError::ScorableNotFound(x) => has_user(old(self).data(), username@)
                        && !has_scorable(old(self).data(), scorable_id.0) && x == scorable_id,
                    _ => false,
                },
            },
    {
        let now = now_millis();
        let r = self.store.upsert_score(id, scorable_id, username.clone(), value, date, now);
        match r {
            Result::Ok(u) => {
                let e = Event::UpsertScore { id, scorable_id, username, value, date };
                proof {
                    Self::lemma_pending_snoc(self.base(), self.pending(), e@);
                    lemma_all_valid_snoc(self.base(), self.pending(), e@);
                }
                self.buffer.push(e);
                Ok(u)
            },
            Result::Err(e) => Err(e),
        }
    }

    /// Delete a single score.
    pub fn delete_score(&mut self, id: &ScoreId) -> (r: Result<(), StoreError>)
        requires
            old(self).inv(),
        ensures
            final(self).inv(),
            final(self).base() == old(self).base(),
            match r {
                Result::Ok(u) => has_score(old(self).data(), id.0) && final(self).data()
                    == delete_score_t(old(self).data(), id.0) && final(self).pending() == old(self).pending().push(EventV::DeleteScore { id: id.0 }),
                Result::Err(e) => !has_score(old(self).data(), id.0) && final(self).data() == old(self).data() && final(self).pending() == old(self).pending() && final(self).stamp()
                    == old(self).stamp() && (e matches StoreError::ScoreNotFound(x) && x == *id),
            },
    {
        let now = now_millis();
        let r = self.store.delete_score(id, now);
        match r {
            Result::Ok(u) => {
                let e = Event::DeleteScore { id: *id };
                proof {
                    Self::lemma_pending_snoc(self.base(), self.pending(), e@);
                    lemma_all_valid_snoc(self.base(), self.pending(), e@);
                }
                self.buffer.push(e);
                Ok(u)
            },
            Result::Err(e) => Err(e),
        }
    }

    /// Every group, sorted by ascending id. Never mutates.
    pub fn groups(&self) -> (r: Vec<Group>)
        requires
            self.inv(),
        ensures
            views_seq(r@).to_multiset() == group_rows_of(self.data().groups).to_multiset(),
            forall|i: int, j: int|
                0 <= i < j < r@.len() ==> group_le(
                    #[trigger] views_seq(r@)[i],
                    #[trigger] views_seq(r@)[j],
                ),
            r@.len() == self.data().groups.len(),
    {
        self.store.groups()
    }

    /// The scorables of a group, sorted by name (lexicographically by
    /// character), ties broken by ascending id. Never mutates.
    pub fn scorables_in_group(&self, group_id: &GroupId) -> (r: Result<Vec<Scorable>, StoreError>)
        requires
            self.inv(),
        ensures
            match r {
                Result::Ok(v) => {
                    let rows = scorable_rows_of(
                        self.data().scorables.filter(scorable_in(group_id.0)),
                    );
                    &&& has_group(self.data(), group_id.0)
                    &&& views_seq(v@).to_multiset() == rows.to_multiset()
                    &&& v@.len() == rows.len()
                    &&& forall|i: int, j: int|
                        0 <= i < j < v@.len() ==> scorable_le(
                            #[trigger] views_seq(v@)[i],
                            #[trigger] views_seq(v@)[j],
                        )
                },
                Result::Err(e) => !has_group(self.data(), group_id.0) && (e
                    matches StoreError::GroupNotFound(x) && x == *group_id),
            },
    {
        self.store.scorables_in_group(group_id)
    }

    /// The leaderboard of a scorable: highest value first, ties broken by
    /// earliest date then id, truncated to `limit` entries when given.
    /// Never mutates.
    pub fn scores(&self, scorable_id: &ScorableId, limit: Option<usize>) -> (r: Result<
        Vec<Score>,
        StoreError,
    >)
        requires
            self.inv(),
        ensures
            match r {
                Result::Ok(v) => {
                    let rows = score_rows_of(self.data().scores.filter(score_for(scorable_id.0)));
                    &&& has_scorable(self.data(), scorable_id.0)
                    &&& v@.len() == (match limit {
                        Option::Some(l) => if l < rows.len() {
                            l as int
                        } else {
                            rows.len() as int
                        },
                        Option::None => rows.len() as int,
                    })
                    &&& (exists|full: Seq<crate::store_interface::ScoreV>|
                        {
                            &&& full.to_multiset() == rows.to_multiset()
                            &&& (forall|i: int, j: int|
                                0 <= i < j < full.len() ==> score_le(
                                    #[trigger] full[i],
                                    #[trigger] full[j],
                                ))
                            &&& views_seq(v@) == full.take(v@.len() as int)
                        })
                    &&& (forall|i: int, j: int|
                        0 <= i < j < v@.len() ==> score_le(
                            #[trigger] views_seq(v@)[i],
                            #[trigger] views_seq(v@)[j],
                        ))
                    &&& (forall|i: int, j: int|
                        0 <= i < j < v@.len() ==> (#[trigger] views_seq(v@)[i]).value >= (
                        #[trigger] views_seq(v@)[j]).value)
                    &&& (forall|i: int| 0 <= i < v@.len() ==> rows.contains(views_seq(v@)[i]))
                },
                Result::Err(e) => !has_scorable(self.data(), scorable_id.0) && (e
                    matches StoreError::ScorableNotFound(x) && x == *scorable_id),
            },
    {
        self.store.scores(scorable_id, limit)
    }
}

} // verus!
