//! The materialized store: the authoritative current state, held as flat
//! tables and mutated one validated operation at a time.
//!
//! Every mutating operation validates its referential preconditions first and
//! leaves the whole state untouched when they fail; on success the new state
//! is exactly the corresponding transition of [`crate::model`], and the
//! `last_changed` stamp is set. Queries never mutate.

use vstd::prelude::*;
use vstd::relations::sorted_by;
use crate::model::{
    delete_group_t, delete_score_t, delete_scorable_t, delete_user_t, empty_data, group_name,
    has_group, has_score, has_scorable, has_user, lemma_delete_group_wf, lemma_delete_score_wf,
    lemma_delete_scorable_wf, lemma_delete_user_wf, lemma_filter_push, lemma_group_index,
    lemma_score_index, lemma_scorable_index, lemma_upsert_group_wf, lemma_upsert_score_wf,
    lemma_upsert_scorable_wf, lemma_upsert_user_wf, lemma_user_index, replay, score_not_by, scorable_of,
    score_not_for, score_not_under, scorable_not_in, upsert_group_t, upsert_score_t,
    upsert_scorable_t, upsert_user_t, user_hash, wf, GroupM, ScorableM, ScoreM, StoreData, UserM,
};
use crate::events::{Event, views_of};
use crate::password::verify_of;
use crate::sort::{sort_by_order, views_seq, OrderedRec};
use crate::store_interface::{
    Group, GroupId, GroupV, HashedPassword, Scorable, ScorableId, ScorableV, Score, ScoreId,
    ScoreV, StoreError,
};
use crate::text::{
    lemma_lex_le_antisym, lemma_lex_le_total, lemma_lex_le_trans, lex_le, str_eq, str_lex_le,
};

verus! {

/// A row of the user table.
pub struct UserRec {
    pub username: String,
    pub hashed_password: HashedPassword,
}

impl View for UserRec {
    type V = UserM;

    open spec fn view(&self) -> UserM {
        UserM { username: self.username@, hashed_password: self.hashed_password@ }
    }
}

/// A row of the group table.
pub struct GroupRec {
    pub id: GroupId,
    pub name: String,
}

impl View for GroupRec {
    type V = GroupM;

    open spec fn view(&self) -> GroupM {
        GroupM { id: self.id.0, name: self.name@ }
    }
}

/// A row of the scorable table.
pub struct ScorableRec {
    pub id: ScorableId,
    pub group_id: GroupId,
    pub name: String,
}

impl View for ScorableRec {
    type V = ScorableM;

    open spec fn view(&self) -> ScorableM {
        ScorableM { id: self.id.0, group_id: self.group_id.0, name: self.name@ }
    }
}

impl Clone for ScorableRec {
    fn clone(&self) -> (r: Self)
        ensures
            r@ == self@,
    {
        ScorableRec { id: self.id, group_id: self.group_id, name: self.name.clone() }
    }
}

/// A row of the score table.
pub struct ScoreRec {
    pub id: ScoreId,
    pub scorable_id: ScorableId,
    pub username: String,
    pub value: i64,
    pub date: i64,
}

impl View for ScoreRec {
    type V = ScoreM;

    open spec fn view(&self) -> ScoreM {
        ScoreM {
            id: self.id.0,
            scorable_id: self.scorable_id.0,
            username: self.username@,
            value: self.value,
            date: self.date,
        }
    }
}

impl Clone for ScoreRec {
    fn clone(&self) -> (r: Self)
        ensures
            r@ == self@,
    {
        ScoreRec {
            id: self.id,
            scorable_id: self.scorable_id,
            username: self.username.clone(),
            value: self.value,
            date: self.date,
        }
    }
}

/// What a [`MemoryStore`] denotes: its data and the last-changed stamp.
#[verifier::ext_equal]
pub struct StoreView {
    pub last_changed: i64,
    pub data: StoreData,
}

/// The current queryable state: users, groups, scorables and scores as flat
/// tables keyed by username or id, plus the time of the last accepted
/// mutation (milliseconds since the Unix epoch).
pub struct MemoryStore {
    last_changed: i64,
    users: Vec<UserRec>,
    groups: Vec<GroupRec>,
    scorables: Vec<ScorableRec>,
    scores: Vec<ScoreRec>,
}

impl View for MemoryStore {
    type V = StoreView;

    closed spec fn view(&self) -> StoreView {
        StoreView {
            last_changed: self.last_changed,
            data: StoreData {
                users: views_seq(self.users@),
                groups: views_seq(self.groups@),
                scorables: views_seq(self.scorables@),
                scores: views_seq(self.scores@),
            },
        }
    }
}

/// Ordering groups for query output: ascending id.
pub open spec fn group_le(a: GroupV, b: GroupV) -> bool {
    a.id <= b.id
}

impl OrderedRec for Group {
    open spec fn le(a: GroupV, b: GroupV) -> bool {
        group_le(a, b)
    }

    proof fn lemma_le_order(a: GroupV, b: GroupV, c: GroupV) {
    }

    fn le_exec(&self, other: &Self) -> (r: bool) {
        self.id.0 <= other.id.0
    }
}

/// Ordering scorables for query output: by name, lexicographically by
/// character, with ties broken by ascending id.
pub open spec fn scorable_le(a: ScorableV, b: ScorableV) -> bool {
    if a.name == b.name {
        a.id <= b.id
    } else {
        lex_le(a.name, b.name)
    }
}

impl OrderedRec for Scorable {
    open spec fn le(a: ScorableV, b: ScorableV) -> bool {
        scorable_le(a, b)
    }

    proof fn lemma_le_order(a: ScorableV, b: ScorableV, c: ScorableV) {
        lemma_lex_le_total(a.name, b.name);
        if scorable_le(a, b) && scorable_le(b, c) {
            if a.name != b.name && b.name != c.name {
                lemma_lex_le_trans(a.name, b.name, c.name);
                if a.name == c.name {
                    // then the two lex bounds meet head-on: the names agree
                    lemma_lex_le_antisym(a.name, b.name);
                }
            }
        }
    }

    fn le_exec(&self, other: &Self) -> (r: bool) {
        if str_eq(self.name.as_str(), other.name.as_str()) {
            self.id.0 <= other.id.0
        } else {
            str_lex_le(self.name.as_str(), other.name.as_str())
        }
    }
}

/// Leaderboard order: highest value first; ties broken by earliest date,
/// then by ascending id, so the order is deterministic.
pub open spec fn score_le(a: ScoreV, b: ScoreV) -> bool {
    ||| a.value > b.value
    ||| (a.value == b.value && a.date < b.date)
    ||| (a.value == b.value && a.date == b.date && a.id <= b.id)
}

impl OrderedRec for Score {
    open spec fn le(a: ScoreV, b: ScoreV) -> bool {
        score_le(a, b)
    }

    proof fn lemma_le_order(a: ScoreV, b: ScoreV, c: ScoreV) {
    }

    fn le_exec(&self, other: &Self) -> (r: bool) {
        if self.value != other.value {
            self.value > other.value
        } else if self.date != other.date {
            self.date < other.date
        } else {
            self.id.0 <= other.id.0
        }
    }
}

impl MemoryStore {
    /// An empty store, stamped with the given time.
    pub fn new(now: i64) -> (s: MemoryStore)
        ensures
            s@.data == empty_data(),
            s@.last_changed == now,
            wf(s@.data),
    {
        let s = MemoryStore {
            last_changed: now,
            users: Vec::new(),
            groups: Vec::new(),
            scorables: Vec::new(),
            scores: Vec::new(),
        };
        proof {
            assert(s@.data =~= empty_data());
        }
        s
    }

    /// When the last successful mutation happened.
    pub fn last_changed(&self) -> (r: i64)
        ensures
            r == self@.last_changed,
    {
        self.last_changed
    }

    fn find_user(&self, username: &str) -> (r: Option<usize>)
        ensures
            match r {
                Option::Some(i) => i < self@.data.users.len() && self@.data.users[i as int].username
                    == username@,
                Option::None => !has_user(self@.data, username@),
            },
    {
        let mut i: usize = 0;
        while i < self.users.len()
            invariant
                i <= self.users@.len(),
                forall|m: int|
                    0 <= m < i ==> (#[trigger] self@.data.users[m]).username != username@,
            decreases self.users@.len() - i,
        {
            proof {
                assert(self@.data.users[i as int] == self.users@[i as int]@);
            }
            if str_eq(self.users[i].username.as_str(), username) {
                return Some(i);
            }
            i = i + 1;
        }
        proof {
            assert(forall|m: int|
                0 <= m < self@.data.users.len() ==> (#[trigger] self@.data.users[m]).username
                    != username@);
        }
        None
    }

    fn find_group(&self, id: &GroupId) -> (r: Option<usize>)
        ensures
            match r {
                Option::Some(i) => i < self@.data.groups.len() && self@.data.groups[i as int].id
                    == id.0,
                Option::None => !has_group(self@.data, id.0),
            },
    {
        let mut i: usize = 0;
        while i < self.groups.len()
            invariant
                i <= self.groups@.len(),
                forall|m: int| 0 <= m < i ==> (#[trigger] self@.data.groups[m]).id != id.0,
            decreases self.groups@.len() - i,
        {
            proof {
                assert(self@.data.groups[i as int] == self.groups@[i as int]@);
            }
            if self.groups[i].id == *id {
                return Some(i);
            }
            i = i + 1;
        }
        None
    }

    fn find_scorable(&self, id: &ScorableId) -> (r: Option<usize>)
        ensures
            match r {
                Option::Some(i) => i < self@.data.scorables.len()
                    && self@.data.scorables[i as int].id == id.0,
                Option::None => !has_scorable(self@.data, id.0),
            },
    {
        let mut i: usize = 0;
        while i < self.scorables.len()
            invariant
                i <= self.scorables@.len(),
                forall|m: int| 0 <= m < i ==> (#[trigger] self@.data.scorables[m]).id != id.0,
            decreases self.scorables@.len() - i,
        {
            proof {
                assert(self@.data.scorables[i as int] == self.scorables@[i as int]@);
            }
            if self.scorables[i].id == *id {
                return Some(i);
            }
            i = i + 1;
        }
        None
    }

    fn find_score(&self, id: &ScoreId) -> (r: Option<usize>)
        ensures
            match r {
                Option::Some(i) => i < self@.data.scores.len() && self@.data.scores[i as int].id
                    == id.0,
                Option::None => !has_score(self@.data, id.0),
            },
    {
        let mut i: usize = 0;
        while i < self.scores.len()
            invariant
                i <= self.scores@.len(),
                forall|m: int| 0 <= m < i ==> (#[trigger] self@.data.scores[m]).id != id.0,
            decreases self.scores@.len() - i,
        {
            proof {
                assert(self@.data.scores[i as int] == self.scores@[i as int]@);
            }
            if self.scores[i].id == *id {
                return Some(i);
            }
            i = i + 1;
        }
        None
    }

    /// Every known username, in insertion order.
    pub fn users(&self) -> (r: Vec<String>)
        ensures
            r@.map_values(|s: String| s@) == self@.data.users.map_values(
                |u: UserM| u.username,
            ),
    {
        let mut r: Vec<String> = Vec::new();
        let mut i: usize = 0;
        while i < self.users.len()
            invariant
                i <= self.users@.len(),
                r@.map_values(|s: String| s@) == self@.data.users.take(i as int).map_values(
                    |u: UserM| u.username,
                ),
            decreases self.users@.len() - i,
        {
            let c = self.users[i].username.clone();
            proof {
                assert(c == self.users@[i as int].username);
            }
            let ghost prev = r@;
            r.push(c);
            proof {
                let vs = self@.data.users;
                let lhs = r@.map_values(|s: String| s@);
                assert(prev.map_values(|s: String| s@).len() == prev.len());
                assert(vs.take(i as int).map_values(|u: UserM| u.username).len() == i);
                assert(prev.len() == i);
                assert(self@.data.users[i as int] == self.users@[i as int]@);
                assert forall|m: int| 0 <= m < i + 1 implies (#[trigger] lhs[m]) == vs.take(
                    i as int + 1,
                ).map_values(|u: UserM| u.username)[m] by {
                    assert(vs.take(i as int + 1)[m] == vs[m]);
                    if m < i {
                        assert(r@[m] == prev[m]);
                        assert(prev.map_values(|s: String| s@)[m] == vs.take(
                            i as int,
                        ).map_values(|u: UserM| u.username)[m]);
                        assert(vs.take(i as int)[m] == vs[m]);
                    } else {
                        assert(r@[m] == self.users@[i as int].username);
                    }
                };
                assert(r@.map_values(|s: String| s@) =~= vs.take(i as int + 1).map_values(
                    |u: UserM| u.username,
                ));
            }
            i = i + 1;
        }
        proof {
            assert(self@.data.users.take(self.users@.len() as int) =~= self@.data.users);
        }
        r
    }

    /// Add a user, or give an existing user a new password hash.
    pub fn upsert_user(
        &mut self,
        username: String,
        hashed_password: HashedPassword,
        now: i64,
    ) -> (r: Result<(), StoreError>)
        requires
            wf(old(self)@.data),
        ensures
            r is Ok,
            wf(final(self)@.data),
            final(self)@.data == upsert_user_t(old(self)@.data, username@, hashed_password@),
            final(self)@.last_changed == now,
    {
        let ghost d0 = self@.data;
        self.last_changed = now;
        let found = self.find_user(username.as_str());
        let row = UserRec { username, hashed_password };
        match found {
            Option::Some(i) => {
                proof {
                    lemma_user_index(d0, i as int);
                }
                self.users.remove(i);
                self.users.insert(i, row);
                proof {
                    assert(self@.data.users =~= d0.users.update(i as int, row@));
                    assert(self@.data =~= upsert_user_t(d0, row@.username, row@.hashed_password));
                }
            },
            Option::None => {
                self.users.push(row);
                proof {
                    assert(self@.data.users =~= d0.users.push(row@));
                    assert(self@.data =~= upsert_user_t(d0, row@.username, row@.hashed_password));
                }
            },
        }
        proof {
            lemma_upsert_user_wf(d0, row@.username, row@.hashed_password);
        }
        Ok(())
    }

    /// The stored hash for a user, if the user exists.
    pub fn get_hashed_password(&self, username: &str) -> (r: Option<HashedPassword>)
        requires
            wf(self@.data),
        ensures
            match r {
                Option::Some(h) => has_user(self@.data, username@) && h@ == user_hash(
                    self@.data,
                    username@,
                ),
                Option::None => !has_user(self@.data, username@),
            },
    {
        match self.find_user(username) {
            Option::Some(i) => {
                proof {
                    lemma_user_index(self@.data, i as int);
                }
                Some(self.users[i].hashed_password.clone())
            },
            Option::None => None,
        }
    }

    /// Does this user exist with this password? `false` both for a missing
    /// user and for a wrong password — never an error.
    pub fn check_user(&self, username: &str, password: &str) -> (r: bool)
        requires
            wf(self@.data),
        ensures
            r == (has_user(self@.data, username@) && verify_of(
                user_hash(self@.data, username@),
                password@,
            )),
    {
        match self.get_hashed_password(username) {
            Option::Some(h) => h.verify_plain_password(password),
            Option::None => false,
        }
    }

    /// Delete a user and every score that user recorded, across all groups
    /// and scorables. The groups and scorables themselves stay.
    pub fn delete_user(&mut self, username: &str, now: i64) -> (r: Result<(), StoreError>)
        requires
            wf(old(self)@.data),
        ensures
            wf(final(self)@.data),
            match r {
                Result::Ok(u) => has_user(old(self)@.data, username@) && final(self)@.data
                    == delete_user_t(old(self)@.data, username@) && final(self)@.last_changed
                    == now,
                Result::Err(e) => !has_user(old(self)@.data, username@) && final(self)@ == old(self)@ && (e matches StoreError::UserNotFound(n) && n@ == username@),
            },
    {
        let ghost d0 = self@.data;
        let found = self.find_user(username);
        match found {
            Option::None => Err(StoreError::UserNotFound(String::from_str(username))),
            Option::Some(i) => {
                proof {
                    lemma_user_index(d0, i as int);
                }
                self.last_changed = now;
                self.users.remove(i);
                let ghost p = score_not_by(username@);
                let mut kept: Vec<ScoreRec> = Vec::new();
                let mut k: usize = 0;
                proof {
                    assert(views_seq(self.scores@).take(0) =~= Seq::<ScoreM>::empty());
                    assert(Seq::<ScoreM>::empty().filter(p) =~= Seq::<ScoreM>::empty()) by {
                        reveal(Seq::filter);
                    };
                    assert(views_seq(kept@) =~= Seq::<ScoreM>::empty());
                }
                while k < self.scores.len()
                    invariant
                        k <= self.scores@.len(),
                        p == score_not_by(username@),
                        views_seq(kept@) == views_seq(self.scores@).take(k as int).filter(p),
                    decreases self.scores@.len() - k,
                {
                    let ghost vs = views_seq(self.scores@);
                    proof {
                        assert(vs.take(k + 1).drop_last() =~= vs.take(k as int));
                        assert(vs.take(k + 1) =~= vs.take(k as int).push(vs[k as int]));
                        lemma_filter_push(vs.take(k as int), vs[k as int], p);
                        assert(vs[k as int] == self.scores@[k as int]@);
                    }
                    if !str_eq(self.scores[k].username.as_str(), username) {
                        kept.push(self.scores[k].clone());
                        proof {
                            assert(views_seq(kept@) =~= views_seq(kept@.drop_last()).push(
                                self.scores@[k as int]@,
                            ));
                        }
                    }
                    k = k + 1;
                }
                proof {
                    assert(views_seq(self.scores@).take(self.scores@.len() as int) =~= views_seq(
                        self.scores@,
                    ));
                }
                self.scores = kept;
                proof {
                    assert(self@.data =~= delete_user_t(d0, username@));
                    lemma_delete_user_wf(d0, username@);
                }
                Ok(())
            },
        }
    }

    /// Add a group, or rename an existing one.
    pub fn upsert_group(&mut self, id: GroupId, name: String, now: i64) -> (r: Result<
        (),
        StoreError,
    >)
        requires
            wf(old(self)@.data),
        ensures
            r is Ok,
            wf(final(self)@.data),
            final(self)@.data == upsert_group_t(old(self)@.data, id.0, name@),
            final(self)@.last_changed == now,
    {
        let ghost d0 = self@.data;
        self.last_changed = now;
        let found = self.find_group(&id);
        let row = GroupRec { id, name };
        match found {
            Option::Some(i) => {
                proof {
                    lemma_group_index(d0, i as int);
                }
                self.groups.remove(i);
                self.groups.insert(i, row);
                proof {
                    assert(self@.data.groups =~= d0.groups.update(i as int, row@));
                    assert(self@.data =~= upsert_group_t(d0, id.0, row@.name));
                }
            },
            Option::None => {
                self.groups.push(row);
                proof {
                    assert(self@.data.groups =~= d0.groups.push(row@));
                    assert(self@.data =~= upsert_group_t(d0, id.0, row@.name));
                }
            },
        }
        proof {
            lemma_upsert_group_wf(d0, id.0, name@);
        }
        Ok(())
    }

    /// The group stored under an id.
    pub fn get_group(&self, id: &GroupId) -> (r: Result<Group, StoreError>)
        requires
            wf(self@.data),
        ensures
            match r {
                Result::Ok(g) => has_group(self@.data, id.0) && g@.id == id.0 && g@.name
                    == group_name(self@.data, id.0),
                Result::Err(e) => !has_group(self@.data, id.0) && (e
                    matches StoreError::GroupNotFound(x) && x == *id),
            },
    {
        match self.find_group(id) {
            Option::Some(i) => {
                proof {
                    lemma_group_index(self@.data, i as int);
                }
                Ok(Group { id: *id, name: self.groups[i].name.clone() })
            },
            Option::None => Err(StoreError::GroupNotFound(*id)),
        }
    }

    /// Delete a group, its scorables and, transitively, all their scores.
    pub fn delete_group(&mut self, id: &GroupId, now: i64) -> (r: Result<(), StoreError>)
        requires
            wf(old(self)@.data),
        ensures
            wf(final(self)@.data),
            match r {
                Result::Ok(u) => has_group(old(self)@.data, id.0) && final(self)@.data
                    == delete_group_t(old(self)@.data, id.0) && final(self)@.last_changed == now,
                Result::Err(e) => !has_group(old(self)@.data, id.0) && final(self)@ == old(self)@
                    && (e matches StoreError::GroupNotFound(x) && x == *id),
            },
    {
        let ghost d0 = self@.data;
        let found = self.find_group(id);
        match found {
            Option::None => Err(StoreError::GroupNotFound(*id)),
            Option::Some(i) => {
                proof {
                    lemma_group_index(d0, i as int);
                }
                self.last_changed = now;
                // Scores first, while the scorable table still tells which
                // group each score sits under.
                let ghost ps = score_not_under(d0, id.0);
                let mut kept_scores: Vec<ScoreRec> = Vec::new();
                let mut k: usize = 0;
                proof {
                    assert(views_seq(self.scores@).take(0) =~= Seq::<ScoreM>::empty());
                    assert(Seq::<ScoreM>::empty().filter(ps) =~= Seq::<ScoreM>::empty()) by {
                        reveal(Seq::filter);
                    };
                    assert(views_seq(kept_scores@) =~= Seq::<ScoreM>::empty());
                }
                while k < self.scores.len()
                    invariant
                        k <= self.scores@.len(),
                        ps == score_not_under(d0, id.0),
                        d0 == self@.data,
                        wf(d0),
                        views_seq(kept_scores@) == views_seq(self.scores@).take(k as int).filter(
                            ps,
                        ),
                    decreases self.scores@.len() - k,
                {
                    let ghost vs = views_seq(self.scores@);
                    proof {
                        assert(vs.take(k + 1).drop_last() =~= vs.take(k as int));
                        assert(vs.take(k + 1) =~= vs.take(k as int).push(vs[k as int]));
                        lemma_filter_push(vs.take(k as int), vs[k as int], ps);
                        assert(vs[k as int] == self.scores@[k as int]@);
                    }
                    let sid = self.scores[k].scorable_id;
                    let keep: bool = match self.find_scorable(&sid) {
                        Option::Some(j) => {
                            proof {
                                lemma_scorable_index(d0, j as int);
                            }
                            self.scorables[j].group_id != *id
                        },
                        Option::None => true,
                    };
                    proof {
                        assert(keep == ps(vs[k as int]));
                    }
                    if keep {
                        kept_scores.push(self.scores[k].clone());
                        proof {
                            assert(views_seq(kept_scores@) =~= views_seq(
                                kept_scores@.drop_last(),
                            ).push(self.scores@[k as int]@));
                        }
                    }
                    k = k + 1;
                }
                proof {
                    assert(views_seq(self.scores@).take(self.scores@.len() as int) =~= views_seq(
                        self.scores@,
                    ));
                }
                // Then the scorables of the group itself.
                let ghost psc = scorable_not_in(id.0);
                let mut kept_scorables: Vec<ScorableRec> = Vec::new();
                let mut m: usize = 0;
                proof {
                    assert(views_seq(self.scorables@).take(0) =~= Seq::<ScorableM>::empty());
                    assert(Seq::<ScorableM>::empty().filter(psc) =~= Seq::<ScorableM>::empty())
                        by {
                        reveal(Seq::filter);
                    };
                    assert(views_seq(kept_scorables@) =~= Seq::<ScorableM>::empty());
                }
                while m < self.scorables.len()
                    invariant
                        m <= self.scorables@.len(),
                        psc == scorable_not_in(id.0),
                        views_seq(kept_scorables@) == views_seq(self.scorables@).take(
                            m as int,
                        ).filter(psc),
                    decreases self.scorables@.len() - m,
                {
                    let ghost vsc = views_seq(self.scorables@);
                    proof {
                        assert(vsc.take(m + 1).drop_last() =~= vsc.take(m as int));
                        assert(vsc.take(m + 1) =~= vsc.take(m as int).push(vsc[m as int]));
                        lemma_filter_push(vsc.take(m as int), vsc[m as int], psc);
                        assert(vsc[m as int] == self.scorables@[m as int]@);
                    }
                    if self.scorables[m].group_id != *id {
                        kept_scorables.push(self.scorables[m].clone());
                        proof {
                            assert(views_seq(kept_scorables@) =~= views_seq(
                                kept_scorables@.drop_last(),
                            ).push(self.scorables@[m as int]@));
                        }
                    }
                    m = m + 1;
                }
                proof {
                    assert(views_seq(self.scorables@).take(self.scorables@.len() as int)
                        =~= views_seq(self.scorables@));
                }
                self.scores = kept_scores;
                self.scorables = kept_scorables;
                self.groups.remove(i);
                proof {
                    assert(self@.data =~= delete_group_t(d0, id.0));
                    lemma_delete_group_wf(d0, id.0);
                }
                Ok(())
            },
        }
    }

    /// Add a scorable to an existing group, or update its name and group.
    pub fn upsert_scorable(
        &mut self,
        id: ScorableId,
        group_id: GroupId,
        name: String,
        now: i64,
    ) -> (r: Result<(), StoreError>)
        requires
            wf(old(self)@.data),
        ensures
            wf(final(self)@.data),
            match r {
                Result::Ok(u) => has_group(old(self)@.data, group_id.0) && final(self)@.data
                    == upsert_scorable_t(old(self)@.data, id.0, group_id.0, name@) && final(self)@.last_changed == now,
                Result::Err(e) => !has_group(old(self)@.data, group_id.0) && final(self)@ == old(self)@ && (e matches StoreError::GroupNotFound(x) && x == group_id),
            },
    {
        let ghost d0 = self@.data;
        if self.find_group(&group_id).is_none() {
            return Err(StoreError::GroupNotFound(group_id));
        }
        self.last_changed = now;
        let found = self.find_scorable(&id);
        let row = ScorableRec { id, group_id, name };
        match found {
            Option::Some(i) => {
                proof {
                    lemma_scorable_index(d0, i as int);
                }
                self.scorables.remove(i);
                self.scorables.insert(i, row);
                proof {
                    assert(self@.data.scorables =~= d0.scorables.update(i as int, row@));
                    assert(self@.data =~= upsert_scorable_t(d0, id.0, group_id.0, row@.name));
                }
            },
            Option::None => {
                self.scorables.push(row);
                proof {
                    assert(self@.data.scorables =~= d0.scorables.push(row@));
                    assert(self@.data =~= upsert_scorable_t(d0, id.0, group_id.0, row@.name));
                }
            },
        }
        proof {
            lemma_upsert_scorable_wf(d0, id.0, group_id.0, name@);
        }
        Ok(())
    }

    /// The scorable stored under an id.
    pub fn get_scorable(&self, id: &ScorableId) -> (r: Result<Scorable, StoreError>)
        requires
            wf(self@.data),
        ensures
            match r {
                Result::Ok(sc) => has_scorable(self@.data, id.0) && sc@.id == id.0 && sc@.name
                    == scorable_of(self@.data, id.0).name,
                Result::Err(e) => !has_scorable(self@.data, id.0) && (e
                    matches StoreError::ScorableNotFound(x) && x == *id),
            },
    {
        match self.find_scorable(id) {
            Option::Some(i) => {
                proof {
                    lemma_scorable_index(self@.data, i as int);
                }
                Ok(Scorable { name: self.scorables[i].name.clone(), id: *id })
            },
            Option::None => Err(StoreError::ScorableNotFound(*id)),
        }
    }

    /// Delete a scorable and every score recorded against it.
    pub fn delete_scorable(&mut self, id: &ScorableId, now: i64) -> (r: Result<(), StoreError>)
        requires
            wf(old(self)@.data),
        ensures
            wf(final(self)@.data),
            match r {
                Result::Ok(u) => has_scorable(old(self)@.data, id.0) && final(self)@.data
                    == delete_scorable_t(old(self)@.data, id.0) && final(self)@.last_changed
                    == now,
                Result::Err(e) => !has_scorable(old(self)@.data, id.0) && final(self)@ == old(self)@ && (e matches StoreError::ScorableNotFound(x) && x == *id),
            },
    {
        let ghost d0 = self@.data;
        let found = self.find_scorable(id);
        match found {
            Option::None => Err(StoreError::ScorableNotFound(*id)),
            Option::Some(i) => {
                proof {
                    lemma_scorable_index(d0, i as int);
                }
                self.last_changed = now;
                self.scorables.remove(i);
                let ghost p = score_not_for(id.0);
                let mut kept: Vec<ScoreRec> = Vec::new();
                let mut k: usize = 0;
                proof {
                    assert(views_seq(self.scores@).take(0) =~= Seq::<ScoreM>::empty());
                    assert(Seq::<ScoreM>::empty().filter(p) =~= Seq::<ScoreM>::empty()) by {
                        reveal(Seq::filter);
                    };
                    assert(views_seq(kept@) =~= Seq::<ScoreM>::empty());
                }
                while k < self.scores.len()
                    invariant
                        k <= self.scores@.len(),
                        p == score_not_for(id.0),
                        views_seq(kept@) == views_seq(self.scores@).take(k as int).filter(p),
                    decreases self.scores@.len() - k,
                {
                    let ghost vs = views_seq(self.scores@);
                    proof {
                        assert(vs.take(k + 1).drop_last() =~= vs.take(k as int));
                        assert(vs.take(k + 1) =~= vs.take(k as int).push(vs[k as int]));
                        lemma_filter_push(vs.take(k as int), vs[k as int], p);
                        assert(vs[k as int] == self.scores@[k as int]@);
                    }
                    if self.scores[k].scorable_id != *id {
                        kept.push(self.scores[k].clone());
                        proof {
                            assert(views_seq(kept@) =~= views_seq(kept@.drop_last()).push(
                                self.scores@[k as int]@,
                            ));
                        }
                    }
                    k = k + 1;
                }
                proof {
                    assert(views_seq(self.scores@).take(self.scores@.len() as int) =~= views_seq(
                        self.scores@,
                    ));
                }
                self.scores = kept;
                proof {
                    assert(self@.data =~= delete_scorable_t(d0, id.0));
                    lemma_delete_scorable_wf(d0, id.0);
                }
                Ok(())
            },
        }
    }

    /// Record a score for an existing user against an existing scorable, or
    /// overwrite the score stored under the same id. The date is milliseconds
    /// since the Unix epoch.
    pub fn upsert_score(
        &mut self,
        id: ScoreId,
        scorable_id: ScorableId,
        username: String,
        value: i64,
        date: i64,
        now: i64,
    ) -> (r: Result<(), StoreError>)
        requires
            wf(old(self)@.data),
        ensures
            wf(final(self)@.data),
            match r {
                Result::Ok(u) => has_user(old(self)@.data, username@) && has_scorable(
                    old(self)@.data,
                    scorable_id.0,
                ) && final(self)@.data == upsert_score_t(
                    old(self)@.data,
                    id.0,
                    scorable_id.0,
                    username@,
                    value,
                    date,
                ) && final(self)@.last_changed == now,
                Result::Err(e) => final(self)@ == old(self)@ && match e {
                    StoreError::UserNotFound(n) => !has_user(old(self)@.data, username@) && n@
                        == username@,
                    StoreError::ScorableNotFound(x) => has_user(old(self)@.data, username@)
                        && !has_scorable(old(self)@.data, scorable_id.0) && x == scorable_id,
                    _ => false,
                },
            },
    {
        let ghost d0 = self@.data;
        if self.find_user(username.as_str()).is_none() {
            return Err(StoreError::UserNotFound(username));
        }
        if self.find_scorable(&scorable_id).is_none() {
            return Err(StoreError::ScorableNotFound(scorable_id));
        }
        self.last_changed = now;
        let found = self.find_score(&id);
        let row = ScoreRec { id, scorable_id, username, value, date };
        match found {
            Option::Some(i) => {
                proof {
                    lemma_score_index(d0, i as int);
                }
                self.scores.remove(i);
                self.scores.insert(i, row);
                proof {
                    assert(self@.data.scores =~= d0.scores.update(i as int, row@));
                    assert(self@.data =~= upsert_score_t(
                        d0,
                        id.0,
                        scorable_id.0,
                        row@.username,
                        value,
                        date,
                    ));
                }
            },
            Option::None => {
                self.scores.push(row);
                proof {
                    assert(self@.data.scores =~= d0.scores.push(row@));
                    assert(self@.data =~= upsert_score_t(
                        d0,
                        id.0,
                        scorable_id.0,
                        row@.username,
                        value,
                        date,
                    ));
                }
            },
        }
        proof {
            lemma_upsert_score_wf(d0, id.0, scorable_id.0, row@.username, value, date);
        }
        Ok(())
    }

    /// Delete a single score.
    pub fn delete_score(&mut self, id: &ScoreId, now: i64) -> (r: Result<(), StoreError>)
        requires
            wf(old(self)@.data),
        ensures
            wf(final(self)@.data),
            match r {
                Result::Ok(u) => has_score(old(self)@.data, id.0) && final(self)@.data
                    == delete_score_t(old(self)@.data, id.0) && final(self)@.last_changed == now,
                Result::Err(e) => !has_score(old(self)@.data, id.0) && final(self)@ == old(self)@
                    && (e matches StoreError::ScoreNotFound(x) && x == *id),
            },
    {
        let ghost d0 = self@.data;
        let found = self.find_score(id);
        match found {
            Option::None => Err(StoreError::ScoreNotFound(*id)),
            Option::Some(i) => {
                proof {
                    lemma_score_index(d0, i as int);
                }
                self.last_changed = now;
                self.scores.remove(i);
                proof {
                    assert(self@.data =~= delete_score_t(d0, id.0));
                    lemma_delete_score_wf(d0, id.0);
                }
                Ok(())
            },
        }
    }

    /// Every group, sorted by ascending id (a deterministic order).
    pub fn groups(&self) -> (r: Vec<Group>)
        ensures
            views_seq(r@).to_multiset() == group_rows_of(self@.data.groups).to_multiset(),
            forall|i: int, j: int|
                0 <= i < j < r@.len() ==> group_le(
                    #[trigger] views_seq(r@)[i],
                    #[trigger] views_seq(r@)[j],
                ),
            r@.len() == self@.data.groups.len(),
    {
        let mut built: Vec<Group> = Vec::new();
        let mut i: usize = 0;
        while i < self.groups.len()
            invariant
                i <= self.groups@.len(),
                built@.len() == i,
                forall|m: int|
                    0 <= m < i ==> (#[trigger] built@[m])@ == group_rows_of(self@.data.groups)[m],
            decreases self.groups@.len() - i,
        {
            built.push(Group { id: self.groups[i].id, name: self.groups[i].name.clone() });
            proof {
                assert(self@.data.groups[i as int] == self.groups@[i as int]@);
            }
            i = i + 1;
        }
        proof {
            assert(views_seq(built@) =~= group_rows_of(self@.data.groups));
        }
        sort_by_order(built)
    }

    /// The scorables of a group, sorted by name (lexicographically by
    /// character), ties broken by ascending id.
    pub fn scorables_in_group(&self, group_id: &GroupId) -> (r: Result<Vec<Scorable>, StoreError>)
        requires
            wf(self@.data),
        ensures
            match r {
                Result::Ok(v) => {
                    let rows = scorable_rows_of(
                        self@.data.scorables.filter(scorable_in(group_id.0)),
                    );
                    &&& has_group(self@.data, group_id.0)
                    &&& views_seq(v@).to_multiset() == rows.to_multiset()
                    &&& v@.len() == rows.len()
                    &&& forall|i: int, j: int|
                        0 <= i < j < v@.len() ==> scorable_le(
                            #[trigger] views_seq(v@)[i],
                            #[trigger] views_seq(v@)[j],
                        )
                },
                Result::Err(e) => !has_group(self@.data, group_id.0) && (e
                    matches StoreError::GroupNotFound(x) && x == *group_id),
            },
    {
        if self.find_group(group_id).is_none() {
            return Err(StoreError::GroupNotFound(*group_id));
        }
        let ghost p = scorable_in(group_id.0);
        let mut built: Vec<Scorable> = Vec::new();
        let mut k: usize = 0;
        proof {
            assert(views_seq(self.scorables@).take(0) =~= Seq::<ScorableM>::empty());
            assert(Seq::<ScorableM>::empty().filter(p) =~= Seq::<ScorableM>::empty()) by {
                reveal(Seq::filter);
            };
            assert(views_seq(built@) =~= scorable_rows_of(Seq::<ScorableM>::empty().filter(p)));
        }
        while k < self.scorables.len()
            invariant
                k <= self.scorables@.len(),
                p == scorable_in(group_id.0),
                views_seq(built@) == scorable_rows_of(
                    views_seq(self.scorables@).take(k as int).filter(p),
                ),
            decreases self.scorables@.len() - k,
        {
            let ghost vsc = views_seq(self.scorables@);
            proof {
                assert(vsc.take(k + 1).drop_last() =~= vsc.take(k as int));
                assert(vsc.take(k + 1) =~= vsc.take(k as int).push(vsc[k as int]));
                lemma_filter_push(vsc.take(k as int), vsc[k as int], p);
                assert(vsc[k as int] == self.scorables@[k as int]@);
            }
            if self.scorables[k].group_id == *group_id {
                built.push(
                    Scorable { name: self.scorables[k].name.clone(), id: self.scorables[k].id },
                );
                proof {
                    assert(views_seq(built@) =~= scorable_rows_of(
                        vsc.take(k as int).filter(p),
                    ).push(built@.last()@));
                    assert(scorable_rows_of(vsc.take(k + 1).filter(p)) =~= scorable_rows_of(
                        vsc.take(k as int).filter(p),
                    ).push(built@.last()@));
                }
            }
            k = k + 1;
        }
        proof {
            assert(views_seq(self.scorables@).take(self.scorables@.len() as int) =~= views_seq(
                self.scorables@,
            ));
        }
        Ok(sort_by_order(built))
    }

    /// The leaderboard of a scorable: its scores with the highest value
    /// first (ties broken by earliest date, then id), truncated to `limit`
    /// entries when a limit is given.
    pub fn scores(&self, scorable_id: &ScorableId, limit: Option<usize>) -> (r: Result<
        Vec<Score>,
        StoreError,
    >)
        requires
            wf(self@.data),
        ensures
            match r {
                Result::Ok(v) => {
                    let rows = score_rows_of(self@.data.scores.filter(score_for(scorable_id.0)));
                    &&& has_scorable(self@.data, scorable_id.0)
                    &&& v@.len() == (match limit {
                        Option::Some(l) => if l < rows.len() {
                            l as int
                        } else {
                            rows.len() as int
                        },
                        Option::None => rows.len() as int,
                    })
                    &&& (exists|full: Seq<ScoreV>|
                        {
                            &&& full.to_multiset() == rows.to_multiset()
                            &&& (forall|i: int, j: int|
                                0 <= i < j < full.len() ==> score_le(
                                    #[trigger] full[i],
                                    #[trigger] full[j],
                                ))
                            &&& views_seq(v@) == full.take(v@.len() as int)
                        })
                    &&& (forall|i: int, j: int|
                        0 <= i < j < v@.len() ==> score_le(
                            #[trigger] views_seq(v@)[i],
                            #[trigger] views_seq(v@)[j],
                        ))
                    &&& (forall|i: int, j: int|
                        0 <= i < j < v@.len() ==> (#[trigger] views_seq(v@)[i]).value >= (
                        #[trigger] views_seq(v@)[j]).value)
                    &&& (forall|i: int| 0 <= i < v@.len() ==> rows.contains(views_seq(v@)[i]))
                },
                Result::Err(e) => !has_scorable(self@.data, scorable_id.0) && (e
                    matches StoreError::ScorableNotFound(x) && x == *scorable_id),
            },
    {
        broadcast use vstd::seq_lib::group_to_multiset_ensures;

        if self.find_scorable(scorable_id).is_none() {
            return Err(StoreError::ScorableNotFound(*scorable_id));
        }
        let ghost p = score_for(scorable_id.0);
        let mut built: Vec<Score> = Vec::new();
        let mut k: usize = 0;
        proof {
            assert(views_seq(self.scores@).take(0) =~= Seq::<ScoreM>::empty());
            assert(Seq::<ScoreM>::empty().filter(p) =~= Seq::<ScoreM>::empty()) by {
                reveal(Seq::filter);
            };
            assert(views_seq(built@) =~= score_rows_of(Seq::<ScoreM>::empty().filter(p)));
        }
        while k < self.scores.len()
            invariant
                k <= self.scores@.len(),
                p == score_for(scorable_id.0),
                views_seq(built@) == score_rows_of(
                    views_seq(self.scores@).take(k as int).filter(p),
                ),
            decreases self.scores@.len() - k,
        {
            let ghost vs = views_seq(self.scores@);
            proof {
                assert(vs.take(k + 1).drop_last() =~= vs.take(k as int));
                assert(vs.take(k + 1) =~= vs.take(k as int).push(vs[k as int]));
                lemma_filter_push(vs.take(k as int), vs[k as int], p);
                assert(vs[k as int] == self.scores@[k as int]@);
            }
            if self.scores[k].scorable_id == *scorable_id {
                let rec = &self.scores[k];
                built.push(
                    Score {
                        id: rec.id,
                        username: rec.username.clone(),
                        value: rec.value,
                        date: rec.date,
                    },
                );
                proof {
                    assert(views_seq(built@) =~= score_rows_of(vs.take(k as int).filter(p)).push(
                        built@.last()@,
                    ));
                    assert(score_rows_of(vs.take(k + 1).filter(p)) =~= score_rows_of(
                        vs.take(k as int).filter(p),
                    ).push(built@.last()@));
                }
            }
            k = k + 1;
        }
        proof {
            assert(views_seq(self.scores@).take(self.scores@.len() as int) =~= views_seq(
                self.scores@,
            ));
        }
        let mut v = sort_by_order(built);
        let ghost full = views_seq(v@);
        match limit {
            Option::Some(l) => {
                if l < v.len() {
                    v.truncate(l);
                }
            },
            Option::None => {},
        }
        proof {
            let rows = score_rows_of(self@.data.scores.filter(score_for(scorable_id.0)));
            assert(views_seq(v@) =~= full.take(v@.len() as int));
            assert forall|i: int| 0 <= i < v@.len() implies rows.contains(
                views_seq(v@)[i],
            ) by {
                assert(views_seq(v@)[i] == full[i]);
                assert(full.contains(full[i]));
                assert(full.to_multiset().count(full[i]) > 0);
                assert(rows.to_multiset().count(full[i]) > 0);
            };
            assert forall|i: int, j: int| 0 <= i < j < v@.len() implies score_le(
                #[trigger] views_seq(v@)[i],
                #[trigger] views_seq(v@)[j],
            ) && (views_seq(v@)[i]).value >= (views_seq(v@)[j]).value by {
                assert(views_seq(v@)[i] == full[i] && views_seq(v@)[j] == full[j]);
                assert(score_le(full[i], full[j]));
            };
        }
        Ok(v)
    }

    /// Build the store by folding a history of events over the empty state,
    /// applying each event with the same logic as the live operations but
    /// skipping any event that is no longer valid against the state built so
    /// far (tolerant replay).
    pub fn from_events(events: &Vec<Event>, now: i64) -> (s: MemoryStore)
        ensures
            wf(s@.data),
            s@.data == replay(empty_data(), views_of(events@)),
            s@.last_changed == now,
    {
        let mut s = MemoryStore::new(now);
        let mut i: usize = 0;
        let ghost vs = views_of(events@);
        proof {
            assert(vs.take(0) =~= Seq::<crate::events::EventV>::empty());
        }
        while i < events.len()
            invariant
                i <= events@.len(),
                vs == views_of(events@),
                wf(s@.data),
                s@.data == replay(empty_data(), vs.take(i as int)),
                s@.last_changed == now,
            decreases events@.len() - i,
        {
            let ghost pre = s@.data;
            match &events[i] {
                Event::UpsertUser { username, hashed_password } => {
                    let r = s.upsert_user(username.clone(), hashed_password.clone(), now);
                },
                Event::DeleteUser { username } => {
                    let r = s.delete_user(username.as_str(), now);
                },
                Event::UpsertGroup { id, name } => {
                    let r = s.upsert_group(*id, name.clone(), now);
                },
                Event::DeleteGroup { id } => {
                    let r = s.delete_group(id, now);
                },
                Event::UpsertScorable { id, group_id, name } => {
                    let r = s.upsert_scorable(*id, *group_id, name.clone(), now);
                },
                Event::DeleteScorable { id } => {
                    let r = s.delete_scorable(id, now);
                },
                Event::UpsertScore { id, scorable_id, username, value, date } => {
                    let r = s.upsert_score(*id, *scorable_id, username.clone(), *value, *date, now);
                },
                Event::DeleteScore { id } => {
                    let r = s.delete_score(id, now);
                },
            }
            proof {
                assert(vs[i as int] == events@[i as int]@);
                assert(s@.data == crate::model::apply_event(pre, vs[i as int]));
                assert(vs.take(i as int + 1).drop_last() =~= vs.take(i as int));
                assert(vs.take(i as int + 1).last() == vs[i as int]);
            }
            i = i + 1;
        }
        proof {
            assert(vs.take(events@.len() as int) =~= vs);
        }
        s
    }
}

/// The groups as query rows.
pub open spec fn group_rows_of(gs: Seq<GroupM>) -> Seq<GroupV> {
    gs.map_values(|g: GroupM| GroupV { id: g.id, name: g.name })
}

/// The scorables as query rows (the owning group is not part of the row).
pub open spec fn scorable_rows_of(scs: Seq<ScorableM>) -> Seq<ScorableV> {
    scs.map_values(|sc: ScorableM| ScorableV { id: sc.id, name: sc.name })
}

/// The scores as query rows (the scorable is fixed by the query).
pub open spec fn score_rows_of(ss: Seq<ScoreM>) -> Seq<ScoreV> {
    ss.map_values(
        |s: ScoreM| ScoreV { id: s.id, username: s.username, value: s.value, date: s.date },
    )
}

/// The scorables that sit in group `id`.
pub open spec fn scorable_in(id: u128) -> spec_fn(ScorableM) -> bool {
    |sc: ScorableM| sc.group_id == id
}

/// The scores recorded against scorable `id`.
pub open spec fn score_for(id: u128) -> spec_fn(ScoreM) -> bool {
    |s: ScoreM| s.scorable_id == id
}

} // verus!
