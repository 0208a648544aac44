//! The mathematical model of the store: its state as plain sequences, one
//! total transition per event kind, and the fold that replays a history.
//!
//! Each mutation is a function from state to state, guarded by a validity
//! predicate (the referential checks of the live operations). Replay applies
//! a transition only where it is valid and otherwise leaves the state alone,
//! which is exactly how the live store tolerates stale events in the log.

use vstd::prelude::*;
use crate::events::EventV;

verus! {

/// A stored user: the unique username and the opaque password hash.
#[verifier::ext_equal]
pub struct UserM {
    pub username: Seq<char>,
    pub hashed_password: Seq<char>,
}

/// A stored group.
#[verifier::ext_equal]
pub struct GroupM {
    pub id: u128,
    pub name: Seq<char>,
}

/// A stored scorable; `group_id` names the group that owns it.
#[verifier::ext_equal]
pub struct ScorableM {
    pub id: u128,
    pub group_id: u128,
    pub name: Seq<char>,
}

/// A stored score; `scorable_id` names the scorable it belongs to and
/// `username` the user who recorded it.
#[verifier::ext_equal]
pub struct ScoreM {
    pub id: u128,
    pub scorable_id: u128,
    pub username: Seq<char>,
    pub value: i64,
    pub date: i64,
}

/// The whole state: four flat tables, keyed by username or id. Order is the
/// order of first insertion; keys are unique (see [`wf`]).
#[verifier::ext_equal]
pub struct StoreData {
    pub users: Seq<UserM>,
    pub groups: Seq<GroupM>,
    pub scorables: Seq<ScorableM>,
    pub scores: Seq<ScoreM>,
}

/// The state a store starts from: no users, no groups, nothing.
pub open spec fn empty_data() -> StoreData {
    StoreData { users: Seq::empty(), groups: Seq::empty(), scorables: Seq::empty(), scores: Seq::empty() }
}

pub open spec fn has_user(d: StoreData, username: Seq<char>) -> bool {
    exists|i: int| 0 <= i < d.users.len() && (#[trigger] d.users[i]).username == username
}

pub open spec fn user_index(d: StoreData, username: Seq<char>) -> int {
    choose|i: int| 0 <= i < d.users.len() && (#[trigger] d.users[i]).username == username
}

/// The hash stored for a user (meaningful under [`has_user`]).
pub open spec fn user_hash(d: StoreData, username: Seq<char>) -> Seq<char> {
    d.users[user_index(d, username)].hashed_password
}

pub open spec fn has_group(d: StoreData, id: u128) -> bool {
    exists|i: int| 0 <= i < d.groups.len() && (#[trigger] d.groups[i]).id == id
}

pub open spec fn group_index(d: StoreData, id: u128) -> int {
    choose|i: int| 0 <= i < d.groups.len() && (#[trigger] d.groups[i]).id == id
}

/// The name stored for a group (meaningful under [`has_group`]).
pub open spec fn group_name(d: StoreData, id: u128) -> Seq<char> {
    d.groups[group_index(d, id)].name
}

pub open spec fn has_scorable(d: StoreData, id: u128) -> bool {
    exists|i: int| 0 <= i < d.scorables.len() && (#[trigger] d.scorables[i]).id == id
}

pub open spec fn scorable_index(d: StoreData, id: u128) -> int {
    choose|i: int| 0 <= i < d.scorables.len() && (#[trigger] d.scorables[i]).id == id
}

/// The scorable stored under an id (meaningful under [`has_scorable`]).
pub open spec fn scorable_of(d: StoreData, id: u128) -> ScorableM {
    d.scorables[scorable_index(d, id)]
}

pub open spec fn has_score(d: StoreData, id: u128) -> bool {
    exists|i: int| 0 <= i < d.scores.len() && (#[trigger] d.scores[i]).id == id
}

pub open spec fn score_index(d: StoreData, id: u128) -> int {
    choose|i: int| 0 <= i < d.scores.len() && (#[trigger] d.scores[i]).id == id
}

/// The score stored under an id (meaningful under [`has_score`]).
pub open spec fn score_of(d: StoreData, id: u128) -> ScoreM {
    d.scores[score_index(d, id)]
}

/// Well-formedness: keys are unique, and every reference points at an
/// existing row — a scorable's group exists, and a score's scorable and
/// recording user exist. Cascade deletes exist precisely to keep the last
/// two clauses true.
pub open spec fn wf(d: StoreData) -> bool {
    &&& (forall|i: int, j: int|
        0 <= i < j < d.users.len() ==> (#[trigger] d.users[i]).username != (
        #[trigger] d.users[j]).username)
    &&& (forall|i: int, j: int|
        0 <= i < j < d.groups.len() ==> (#[trigger] d.groups[i]).id != (#[trigger] d.groups[j]).id)
    &&& (forall|i: int, j: int|
        0 <= i < j < d.scorables.len() ==> (#[trigger] d.scorables[i]).id != (
        #[trigger] d.scorables[j]).id)
    &&& (forall|i: int, j: int|
        0 <= i < j < d.scores.len() ==> (#[trigger] d.scores[i]).id != (#[trigger] d.scores[j]).id)
    &&& (forall|i: int|
        0 <= i < d.scorables.len() ==> has_group(d, (#[trigger] d.scorables[i]).group_id))
    &&& (forall|i: int|
        0 <= i < d.scores.len() ==> has_scorable(d, (#[trigger] d.scores[i]).scorable_id)
            && has_user(d, d.scores[i].username))
}

/// Keep the scores not recorded by `username`.
pub open spec fn score_not_by(username: Seq<char>) -> spec_fn(ScoreM) -> bool {
    |s: ScoreM| s.username != username
}

/// Keep the scorables outside group `id`.
pub open spec fn scorable_not_in(id: u128) -> spec_fn(ScorableM) -> bool {
    |sc: ScorableM| sc.group_id != id
}

/// Keep the scores whose scorable (in state `d`) is outside group `id`.
pub open spec fn score_not_under(d: StoreData, id: u128) -> spec_fn(ScoreM) -> bool {
    |s: ScoreM| !(has_scorable(d, s.scorable_id) && scorable_of(d, s.scorable_id).group_id == id)
}

/// Keep the scores not recorded against scorable `id`.
pub open spec fn score_not_for(id: u128) -> spec_fn(ScoreM) -> bool {
    |s: ScoreM| s.scorable_id != id
}

/// Add a user, or replace an existing user's hash. Always valid.
pub open spec fn upsert_user_t(d: StoreData, username: Seq<char>, hash: Seq<char>) -> StoreData {
    let row = UserM { username, hashed_password: hash };
    if has_user(d, username) {
        StoreData { users: d.users.update(user_index(d, username), row), ..d }
    } else {
        StoreData { users: d.users.push(row), ..d }
    }
}

/// Remove a user and cascade: every score that user recorded goes too.
/// Valid when the user exists.
pub open spec fn delete_user_t(d: StoreData, username: Seq<char>) -> StoreData {
    StoreData {
        users: d.users.remove(user_index(d, username)),
        scores: d.scores.filter(score_not_by(username)),
        ..d
    }
}

/// Add a group, or rename an existing one. Always valid.
pub open spec fn upsert_group_t(d: StoreData, id: u128, name: Seq<char>) -> StoreData {
    let row = GroupM { id, name };
    if has_group(d, id) {
        StoreData { groups: d.groups.update(group_index(d, id), row), ..d }
    } else {
        StoreData { groups: d.groups.push(row), ..d }
    }
}

/// Remove a group and cascade: its scorables go, and every score under any
/// of those scorables goes too. Valid when the group exists.
pub open spec fn delete_group_t(d: StoreData, id: u128) -> StoreData {
    StoreData {
        groups: d.groups.remove(group_index(d, id)),
        scorables: d.scorables.filter(scorable_not_in(id)),
        scores: d.scores.filter(score_not_under(d, id)),
        ..d
    }
}

/// Add a scorable, or update its name and owning group.
/// Valid when the named group exists.
pub open spec fn upsert_scorable_t(
    d: StoreData,
    id: u128,
    group_id: u128,
    name: Seq<char>,
) -> StoreData {
    let row = ScorableM { id, group_id, name };
    if has_scorable(d, id) {
        StoreData { scorables: d.scorables.update(scorable_index(d, id), row), ..d }
    } else {
        StoreData { scorables: d.scorables.push(row), ..d }
    }
}

/// Remove a scorable and cascade: every score against it goes too.
/// Valid when the scorable exists.
pub open spec fn delete_scorable_t(d: StoreData, id: u128) -> StoreData {
    StoreData {
        scorables: d.scorables.remove(scorable_index(d, id)),
        scores: d.scores.filter(score_not_for(id)),
        ..d
    }
}

/// Record a score, or overwrite the score stored under the same id.
/// Valid when the recording user and the scorable both exist.
pub open spec fn upsert_score_t(
    d: StoreData,
    id: u128,
    scorable_id: u128,
    username: Seq<char>,
    value: i64,
    date: i64,
) -> StoreData {
    let row = ScoreM { id, scorable_id, username, value, date };
    if has_score(d, id) {
        StoreData { scores: d.scores.update(score_index(d, id), row), ..d }
    } else {
        StoreData { scores: d.scores.push(row), ..d }
    }
}

/// Remove a single score. Valid when it exists.
pub open spec fn delete_score_t(d: StoreData, id: u128) -> StoreData {
    StoreData { scores: d.scores.remove(score_index(d, id)), ..d }
}

/// Whether an event's mutation is valid against a state: exactly the
/// referential checks the live operations make.
pub open spec fn event_valid(d: StoreData, e: EventV) -> bool {
    match e {
        EventV::UpsertUser { .. } => true,
        EventV::DeleteUser { username } => has_user(d, username),
        EventV::UpsertGroup { .. } => true,
        EventV::DeleteGroup { id } => has_group(d, id),
        EventV::UpsertScorable { group_id, .. } => has_group(d, group_id),
        EventV::DeleteScorable { id } => has_scorable(d, id),
        EventV::UpsertScore { scorable_id, username, .. } => has_user(d, username)
            && has_scorable(d, scorable_id),
        EventV::DeleteScore { id } => has_score(d, id),
    }
}

/// Apply one event to a state: the event's transition where it is valid,
/// the state unchanged where it is not (tolerant replay).
pub open spec fn apply_event(d: StoreData, e: EventV) -> StoreData {
    if !event_valid(d, e) {
        d
    } else {
        match e {
            EventV::UpsertUser { username, hashed_password } => upsert_user_t(
                d,
                username,
                hashed_password,
            ),
            EventV::DeleteUser { username } => delete_user_t(d, username),
            EventV::UpsertGroup { id, name } => upsert_group_t(d, id, name),
            EventV::DeleteGroup { id } => delete_group_t(d, id),
            EventV::UpsertScorable { id, group_id, name } => upsert_scorable_t(
                d,
                id,
                group_id,
                name,
            ),
            EventV::DeleteScorable { id } => delete_scorable_t(d, id),
            EventV::UpsertScore { id, scorable_id, username, value, date } => upsert_score_t(
                d,
                id,
                scorable_id,
                username,
                value,
                date,
            ),
            EventV::DeleteScore { id } => delete_score_t(d, id),
        }
    }
}

/// Fold a history over a starting state, one event at a time.
pub open spec fn replay(d: StoreData, evs: Seq<EventV>) -> StoreData
    decreases evs.len(),
{
    if evs.len() == 0 {
        d
    } else {
        apply_event(replay(d, evs.drop_last()), evs.last())
    }
}

/// In a well-formed state, the row found at any index is the row its key
/// names: scanning and choosing agree.
pub proof fn lemma_user_index(d: StoreData, i: int)
    requires
        wf(d),
        0 <= i < d.users.len(),
    ensures
        has_user(d, d.users[i].username),
        user_index(d, d.users[i].username) == i,
{
    let u = d.users[i].username;
    assert(has_user(d, u));
    let j = user_index(d, u);
    if i < j {
        assert(d.users[i].username != d.users[j].username);
    } else if j < i {
        assert(d.users[j].username != d.users[i].username);
    }
}

pub proof fn lemma_group_index(d: StoreData, i: int)
    requires
        wf(d),
        0 <= i < d.groups.len(),
    ensures
        has_group(d, d.groups[i].id),
        group_index(d, d.groups[i].id) == i,
{
    let g = d.groups[i].id;
    assert(has_group(d, g));
    let j = group_index(d, g);
    if i < j {
        assert(d.groups[i].id != d.groups[j].id);
    } else if j < i {
        assert(d.groups[j].id != d.groups[i].id);
    }
}

pub proof fn lemma_scorable_index(d: StoreData, i: int)
    requires
        wf(d),
        0 <= i < d.scorables.len(),
    ensures
        has_scorable(d, d.scorables[i].id),
        scorable_index(d, d.scorables[i].id) == i,
{
    let s = d.scorables[i].id;
    assert(has_scorable(d, s));
    let j = scorable_index(d, s);
    if i < j {
        assert(d.scorables[i].id != d.scorables[j].id);
    } else if j < i {
        assert(d.scorables[j].id != d.scorables[i].id);
    }
}

pub proof fn lemma_score_index(d: StoreData, i: int)
    requires
        wf(d),
        0 <= i < d.scores.len(),
    ensures
        has_score(d, d.scores[i].id),
        score_index(d, d.scores[i].id) == i,
{
    let s = d.scores[i].id;
    assert(has_score(d, s));
    let j = score_index(d, s);
    if i < j {
        assert(d.scores[i].id != d.scores[j].id);
    } else if j < i {
        assert(d.scores[j].id != d.scores[i].id);
    }
}

/// One step of a filter, at the right end.
pub proof fn lemma_filter_push<A>(s: Seq<A>, x: A, p: spec_fn(A) -> bool)
    ensures
        (s.push(x)).filter(p) == if p(x) {
            s.filter(p).push(x)
        } else {
            s.filter(p)
        },
{
    reveal(Seq::filter);
    assert((s.push(x)).drop_last() =~= s);
    assert((s.push(x)).last() == x);
}

/// An element of a filtered sequence satisfies the predicate and stems from
/// the original sequence.
pub proof fn lemma_filter_elem<A>(s: Seq<A>, p: spec_fn(A) -> bool, i: int)
    requires
        0 <= i < s.filter(p).len(),
    ensures
        p(s.filter(p)[i]),
        exists|w: int| 0 <= w < s.len() && s[w] == s.filter(p)[i],
{
    s.lemma_filter_pred(p, i);
    assert(s.filter(p).contains(s.filter(p)[i]));
    s.lemma_filter_contains_rev(p, s.filter(p)[i]);
}

/// Filtering keeps pairwise-distinct keys pairwise distinct.
pub proof fn lemma_filter_unique<A, K>(s: Seq<A>, p: spec_fn(A) -> bool, key: spec_fn(A) -> K)
    requires
        forall|i: int, j: int| 0 <= i < j < s.len() ==> key(s[i]) != key(s[j]),
    ensures
        forall|i: int, j: int|
            0 <= i < j < s.filter(p).len() ==> key(s.filter(p)[i]) != key(s.filter(p)[j]),
    decreases s.len(),
{
    reveal(Seq::filter);
    if s.len() > 0 {
        let pre = s.drop_last();
        assert forall|i: int, j: int| 0 <= i < j < pre.len() implies key(pre[i]) != key(
            pre[j],
        ) by {
            assert(pre[i] == s[i] && pre[j] == s[j]);
        };
        lemma_filter_unique(pre, p, key);
        let f = s.filter(p);
        let fp = pre.filter(p);
        if p(s.last()) {
            assert(f == fp.push(s.last()));
            assert forall|i: int, j: int| 0 <= i < j < f.len() implies key(f[i]) != key(
                f[j],
            ) by {
                if j < f.len() - 1 {
                    assert(f[i] == fp[i] && f[j] == fp[j]);
                } else {
                    assert(f[j] == s.last());
                    assert(f[i] == fp[i]);
                    lemma_filter_elem(pre, p, i);
                    let w = choose|w: int| 0 <= w < pre.len() && pre[w] == fp[i];
                    assert(key(s[w]) != key(s[s.len() - 1]));
                }
            };
        }
    }
}

/// Witness transfer: an existing user is still found when the user table is
/// unchanged as a value.
pub proof fn lemma_has_user_same(d: StoreData, d2: StoreData, u: Seq<char>)
    requires
        d2.users == d.users,
        has_user(d, u),
    ensures
        has_user(d2, u),
{
    let w = user_index(d, u);
    assert(d2.users[w].username == u);
}

pub proof fn lemma_has_group_same(d: StoreData, d2: StoreData, g: u128)
    requires
        d2.groups == d.groups,
        has_group(d, g),
    ensures
        has_group(d2, g),
{
    let w = group_index(d, g);
    assert(d2.groups[w].id == g);
}

pub proof fn lemma_has_scorable_same(d: StoreData, d2: StoreData, sid: u128)
    requires
        d2.scorables == d.scorables,
        has_scorable(d, sid),
    ensures
        has_scorable(d2, sid),
{
    let w = scorable_index(d, sid);
    assert(d2.scorables[w].id == sid);
}

/// Upserting a user keeps the state well-formed.
pub proof fn lemma_upsert_user_wf(d: StoreData, u: Seq<char>, h: Seq<char>)
    requires
        wf(d),
    ensures
        wf(upsert_user_t(d, u, h)),
{
    let d2 = upsert_user_t(d, u, h);
    if has_user(d, u) {
        let idx = user_index(d, u);
        assert(d.users[idx].username == u);
    }
    // Usernames are pointwise unchanged (update writes the same name back)
    // or extended by a name that was absent.
    assert(forall|m: int|
        0 <= m < d.users.len() ==> (#[trigger] d2.users[m]).username == d.users[m].username);
    assert forall|i: int| 0 <= i < d2.scorables.len() implies has_group(
        d2,
        (#[trigger] d2.scorables[i]).group_id,
    ) by {
        assert(d2.scorables[i] == d.scorables[i]);
        lemma_has_group_same(d, d2, d.scorables[i].group_id);
    };
    assert forall|i: int| 0 <= i < d2.scores.len() implies has_scorable(
        d2,
        (#[trigger] d2.scores[i]).scorable_id,
    ) && has_user(d2, d2.scores[i].username) by {
        assert(d2.scores[i] == d.scores[i]);
        lemma_has_scorable_same(d, d2, d.scores[i].scorable_id);
        let w = user_index(d, d.scores[i].username);
        assert(d2.users[w].username == d.scores[i].username);
    };
}

/// Deleting a user (with its score cascade) keeps the state well-formed.
pub proof fn lemma_delete_user_wf(d: StoreData, u: Seq<char>)
    requires
        wf(d),
        has_user(d, u),
    ensures
        wf(delete_user_t(d, u)),
{
    let d2 = delete_user_t(d, u);
    let idx = user_index(d, u);
    d.users.remove_ensures(idx);
    let p = score_not_by(u);
    lemma_filter_unique(d.scores, p, |s: ScoreM| s.id);
    assert forall|i: int, j: int| 0 <= i < j < d2.users.len() implies (
    #[trigger] d2.users[i]).username != (#[trigger] d2.users[j]).username by {
        let i0: int = if i < idx { i } else { i + 1 };
        let j0: int = if j < idx { j } else { j + 1 };
        assert(d2.users[i] == d.users[i0] && d2.users[j] == d.users[j0]);
    };
    assert forall|i: int| 0 <= i < d2.scorables.len() implies has_group(
        d2,
        (#[trigger] d2.scorables[i]).group_id,
    ) by {
        assert(d2.scorables[i] == d.scorables[i]);
        lemma_has_group_same(d, d2, d.scorables[i].group_id);
    };
    assert forall|i: int| 0 <= i < d2.scores.len() implies has_scorable(
        d2,
        (#[trigger] d2.scores[i]).scorable_id,
    ) && has_user(d2, d2.scores[i].username) by {
        lemma_filter_elem(d.scores, p, i);
        let w = choose|w: int| 0 <= w < d.scores.len() && d.scores[w] == d2.scores[i];
        assert(has_scorable(d, d.scores[w].scorable_id));
        lemma_has_scorable_same(d, d2, d.scores[w].scorable_id);
        assert(has_user(d, d.scores[w].username));
        let uw = user_index(d, d.scores[w].username);
        assert(d.users[uw].username != u);
        assert(uw != idx);
        let uw2: int = if uw < idx { uw } else { uw - 1 };
        assert(d2.users[uw2] == d.users[uw]);
    };
}

/// Upserting a group keeps the state well-formed.
pub proof fn lemma_upsert_group_wf(d: StoreData, id: u128, name: Seq<char>)
    requires
        wf(d),
    ensures
        wf(upsert_group_t(d, id, name)),
{
    let d2 = upsert_group_t(d, id, name);
    if has_group(d, id) {
        let idx = group_index(d, id);
        assert(d.groups[idx].id == id);
    }
    assert(forall|m: int| 0 <= m < d.groups.len() ==> (#[trigger] d2.groups[m]).id
        == d.groups[m].id);
    assert forall|i: int| 0 <= i < d2.scorables.len() implies has_group(
        d2,
        (#[trigger] d2.scorables[i]).group_id,
    ) by {
        assert(d2.scorables[i] == d.scorables[i]);
        assert(has_group(d, d.scorables[i].group_id));
        let w = group_index(d, d.scorables[i].group_id);
        assert(d2.groups[w].id == d.scorables[i].group_id);
    };
    assert forall|i: int| 0 <= i < d2.scores.len() implies has_scorable(
        d2,
        (#[trigger] d2.scores[i]).scorable_id,
    ) && has_user(d2, d2.scores[i].username) by {
        assert(d2.scores[i] == d.scores[i]);
        lemma_has_scorable_same(d, d2, d.scores[i].scorable_id);
        lemma_has_user_same(d, d2, d.scores[i].username);
    };
}

/// Deleting a group (with its scorable and score cascades) keeps the state
/// well-formed.
pub proof fn lemma_delete_group_wf(d: StoreData, id: u128)
    requires
        wf(d),
        has_group(d, id),
    ensures
        wf(delete_group_t(d, id)),
{
    let d2 = delete_group_t(d, id);
    let idx = group_index(d, id);
    d.groups.remove_ensures(idx);
    let psc = scorable_not_in(id);
    let ps = score_not_under(d, id);
    lemma_filter_unique(d.scorables, psc, |sc: ScorableM| sc.id);
    lemma_filter_unique(d.scores, ps, |s: ScoreM| s.id);
    assert forall|i: int, j: int| 0 <= i < j < d2.groups.len() implies (
    #[trigger] d2.groups[i]).id != (#[trigger] d2.groups[j]).id by {
        let i0: int = if i < idx { i } else { i + 1 };
        let j0: int = if j < idx { j } else { j + 1 };
        assert(d2.groups[i] == d.groups[i0] && d2.groups[j] == d.groups[j0]);
    };
    assert forall|i: int| 0 <= i < d2.scorables.len() implies has_group(
        d2,
        (#[trigger] d2.scorables[i]).group_id,
    ) by {
        lemma_filter_elem(d.scorables, psc, i);
        let w = choose|w: int| 0 <= w < d.scorables.len() && d.scorables[w] == d2.scorables[i];
        assert(has_group(d, d.scorables[w].group_id));
        let gw = group_index(d, d.scorables[w].group_id);
        assert(d.groups[gw].id != id);
        assert(gw != idx);
        let gw2: int = if gw < idx { gw } else { gw - 1 };
        assert(d2.groups[gw2] == d.groups[gw]);
    };
    assert forall|i: int| 0 <= i < d2.scores.len() implies has_scorable(
        d2,
        (#[trigger] d2.scores[i]).scorable_id,
    ) && has_user(d2, d2.scores[i].username) by {
        lemma_filter_elem(d.scores, ps, i);
        let w = choose|w: int| 0 <= w < d.scores.len() && d.scores[w] == d2.scores[i];
        assert(has_user(d, d.scores[w].username));
        lemma_has_user_same(d, d2, d.scores[w].username);
        assert(has_scorable(d, d.scores[w].scorable_id));
        let sw = scorable_index(d, d.scores[w].scorable_id);
        assert(d.scorables[sw].group_id != id);
        assert(psc(d.scorables[sw]));
        d.scorables.lemma_filter_contains(psc, sw);
        assert(d2.scorables.contains(d.scorables[sw]));
        let sw2 = choose|k: int| 0 <= k < d2.scorables.len() && d2.scorables[k]
            == d.scorables[sw];
        assert(d2.scorables[sw2].id == d.scores[w].scorable_id);
    };
}

/// Upserting a scorable into an existing group keeps the state well-formed.
pub proof fn lemma_upsert_scorable_wf(d: StoreData, id: u128, group_id: u128, name: Seq<char>)
    requires
        wf(d),
        has_group(d, group_id),
    ensures
        wf(upsert_scorable_t(d, id, group_id, name)),
{
    let d2 = upsert_scorable_t(d, id, group_id, name);
    if has_scorable(d, id) {
        let idx = scorable_index(d, id);
        assert(d.scorables[idx].id == id);
    }
    assert(forall|m: int| 0 <= m < d.scorables.len() ==> (#[trigger] d2.scorables[m]).id
        == d.scorables[m].id);
    assert forall|i: int| 0 <= i < d2.scorables.len() implies has_group(
        d2,
        (#[trigger] d2.scorables[i]).group_id,
    ) by {
        if i < d.scorables.len() && d2.scorables[i] == d.scorables[i] {
            lemma_has_group_same(d, d2, d.scorables[i].group_id);
        } else {
            assert(d2.scorables[i].group_id == group_id);
            lemma_has_group_same(d, d2, group_id);
        }
    };
    assert forall|i: int| 0 <= i < d2.scores.len() implies has_scorable(
        d2,
        (#[trigger] d2.scores[i]).scorable_id,
    ) && has_user(d2, d2.scores[i].username) by {
        assert(d2.scores[i] == d.scores[i]);
        lemma_has_user_same(d, d2, d.scores[i].username);
        assert(has_scorable(d, d.scores[i].scorable_id));
        let w = scorable_index(d, d.scores[i].scorable_id);
        assert(d2.scorables[w].id == d.scores[i].scorable_id);
    };
}

/// Deleting a scorable (with its score cascade) keeps the state well-formed.
pub proof fn lemma_delete_scorable_wf(d: StoreData, id: u128)
    requires
        wf(d),
        has_scorable(d, id),
    ensures
        wf(delete_scorable_t(d, id)),
{
    let d2 = delete_scorable_t(d, id);
    let idx = scorable_index(d, id);
    d.scorables.remove_ensures(idx);
    let p = score_not_for(id);
    lemma_filter_unique(d.scores, p, |s: ScoreM| s.id);
    assert forall|i: int, j: int| 0 <= i < j < d2.scorables.len() implies (
    #[trigger] d2.scorables[i]).id != (#[trigger] d2.scorables[j]).id by {
        let i0: int = if i < idx { i } else { i + 1 };
        let j0: int = if j < idx { j } else { j + 1 };
        assert(d2.scorables[i] == d.scorables[i0] && d2.scorables[j] == d.scorables[j0]);
    };
    assert forall|i: int| 0 <= i < d2.scorables.len() implies has_group(
        d2,
        (#[trigger] d2.scorables[i]).group_id,
    ) by {
        let i0: int = if i < idx { i } else { i + 1 };
        assert(d2.scorables[i] == d.scorables[i0]);
        assert(has_group(d, d.scorables[i0].group_id));
        lemma_has_group_same(d, d2, d.scorables[i0].group_id);
    };
    assert forall|i: int| 0 <= i < d2.scores.len() implies has_scorable(
        d2,
        (#[trigger] d2.scores[i]).scorable_id,
    ) && has_user(d2, d2.scores[i].username) by {
        lemma_filter_elem(d.scores, p, i);
        let w = choose|w: int| 0 <= w < d.scores.len() && d.scores[w] == d2.scores[i];
        assert(has_user(d, d.scores[w].username));
        lemma_has_user_same(d, d2, d.scores[w].username);
        assert(has_scorable(d, d.scores[w].scorable_id));
        let sw = scorable_index(d, d.scores[w].scorable_id);
        assert(d.scorables[sw].id != id);
        assert(sw != idx);
        let sw2: int = if sw < idx { sw } else { sw - 1 };
        assert(d2.scorables[sw2] == d.scorables[sw]);
    };
}

/// Recording a score for an existing user and scorable keeps the state
/// well-formed.
pub proof fn lemma_upsert_score_wf(
    d: StoreData,
    id: u128,
    scorable_id: u128,
    username: Seq<char>,
    value: i64,
    date: i64,
)
    requires
        wf(d),
        has_user(d, username),
        has_scorable(d, scorable_id),
    ensures
        wf(upsert_score_t(d, id, scorable_id, username, value, date)),
{
    let d2 = upsert_score_t(d, id, scorable_id, username, value, date);
    if has_score(d, id) {
        let idx = score_index(d, id);
        assert(d.scores[idx].id == id);
    }
    assert(forall|m: int| 0 <= m < d.scores.len() ==> (#[trigger] d2.scores[m]).id
        == d.scores[m].id);
    assert forall|i: int| 0 <= i < d2.scorables.len() implies has_group(
        d2,
        (#[trigger] d2.scorables[i]).group_id,
    ) by {
        assert(d2.scorables[i] == d.scorables[i]);
        lemma_has_group_same(d, d2, d.scorables[i].group_id);
    };
    assert forall|i: int| 0 <= i < d2.scores.len() implies has_scorable(
        d2,
        (#[trigger] d2.scores[i]).scorable_id,
    ) && has_user(d2, d2.scores[i].username) by {
        if i < d.scores.len() && d2.scores[i] == d.scores[i] {
            lemma_has_scorable_same(d, d2, d.scores[i].scorable_id);
            lemma_has_user_same(d, d2, d.scores[i].username);
        } else {
            assert(d2.scores[i].scorable_id == scorable_id && d2.scores[i].username == username);
            lemma_has_scorable_same(d, d2, scorable_id);
            lemma_has_user_same(d, d2, username);
        }
    };
}

/// Deleting a score keeps the state well-formed.
pub proof fn lemma_delete_score_wf(d: StoreData, id: u128)
    requires
        wf(d),
        has_score(d, id),
    ensures
        wf(delete_score_t(d, id)),
{
    let d2 = delete_score_t(d, id);
    let idx = score_index(d, id);
    d.scores.remove_ensures(idx);
    assert forall|i: int, j: int| 0 <= i < j < d2.scores.len() implies (
    #[trigger] d2.scores[i]).id != (#[trigger] d2.scores[j]).id by {
        let i0: int = if i < idx { i } else { i + 1 };
        let j0: int = if j < idx { j } else { j + 1 };
        assert(d2.scores[i] == d.scores[i0] && d2.scores[j] == d.scores[j0]);
    };
    assert forall|i: int| 0 <= i < d2.scorables.len() implies has_group(
        d2,
        (#[trigger] d2.scorables[i]).group_id,
    ) by {
        assert(d2.scorables[i] == d.scorables[i]);
        lemma_has_group_same(d, d2, d.scorables[i].group_id);
    };
    assert forall|i: int| 0 <= i < d2.scores.len() implies has_scorable(
        d2,
        (#[trigger] d2.scores[i]).scorable_id,
    ) && has_user(d2, d2.scores[i].username) by {
        let i0: int = if i < idx { i } else { i + 1 };
        assert(d2.scores[i] == d.scores[i0]);
        assert(has_scorable(d, d.scores[i0].scorable_id));
        assert(has_user(d, d.scores[i0].username));
        lemma_has_scorable_same(d, d2, d.scores[i0].scorable_id);
        lemma_has_user_same(d, d2, d.scores[i0].username);
    };
}

/// After an upsert the user is present, under exactly the given hash.
pub proof fn lemma_upsert_user_has(d: StoreData, u: Seq<char>, h: Seq<char>)
    requires
        wf(d),
    ensures
        has_user(upsert_user_t(d, u, h), u),
        user_hash(upsert_user_t(d, u, h), u) == h,
{
    let d2 = upsert_user_t(d, u, h);
    lemma_upsert_user_wf(d, u, h);
    if has_user(d, u) {
        let idx = user_index(d, u);
        assert(d2.users[idx].username == u && d2.users[idx].hashed_password == h);
        lemma_user_index(d2, idx);
    } else {
        let w = d2.users.len() - 1;
        assert(d2.users[w].username == u && d2.users[w].hashed_password == h);
        lemma_user_index(d2, w);
    }
}

/// After an upsert the group is present, under exactly the given name.
pub proof fn lemma_upsert_group_has(d: StoreData, id: u128, name: Seq<char>)
    requires
        wf(d),
    ensures
        has_group(upsert_group_t(d, id, name), id),
        group_name(upsert_group_t(d, id, name), id) == name,
{
    let d2 = upsert_group_t(d, id, name);
    lemma_upsert_group_wf(d, id, name);
    if has_group(d, id) {
        let idx = group_index(d, id);
        assert(d2.groups[idx].id == id && d2.groups[idx].name == name);
        lemma_group_index(d2, idx);
    } else {
        let w = d2.groups.len() - 1;
        assert(d2.groups[w].id == id && d2.groups[w].name == name);
        lemma_group_index(d2, w);
    }
}

/// After an upsert the scorable is present, with exactly the given fields.
pub proof fn lemma_upsert_scorable_has(d: StoreData, id: u128, group_id: u128, name: Seq<char>)
    requires
        wf(d),
        has_group(d, group_id),
    ensures
        has_scorable(upsert_scorable_t(d, id, group_id, name), id),
        scorable_of(upsert_scorable_t(d, id, group_id, name), id) == (ScorableM {
            id,
            group_id,
            name,
        }),
{
    let d2 = upsert_scorable_t(d, id, group_id, name);
    lemma_upsert_scorable_wf(d, id, group_id, name);
    if has_scorable(d, id) {
        let idx = scorable_index(d, id);
        assert(d2.scorables[idx] == (ScorableM { id, group_id, name }));
        lemma_scorable_index(d2, idx);
    } else {
        let w = d2.scorables.len() - 1;
        assert(d2.scorables[w] == (ScorableM { id, group_id, name }));
        lemma_scorable_index(d2, w);
    }
}

/// After an upsert the score is present, with exactly the given fields.
pub proof fn lemma_upsert_score_has(
    d: StoreData,
    id: u128,
    scorable_id: u128,
    username: Seq<char>,
    value: i64,
    date: i64,
)
    requires
        wf(d),
        has_user(d, username),
        has_scorable(d, scorable_id),
    ensures
        has_score(upsert_score_t(d, id, scorable_id, username, value, date), id),
        score_of(upsert_score_t(d, id, scorable_id, username, value, date), id) == (ScoreM {
            id,
            scorable_id,
            username,
            value,
            date,
        }),
{
    let d2 = upsert_score_t(d, id, scorable_id, username, value, date);
    lemma_upsert_score_wf(d, id, scorable_id, username, value, date);
    if has_score(d, id) {
        let idx = score_index(d, id);
        assert(d2.scores[idx] == (ScoreM { id, scorable_id, username, value, date }));
        lemma_score_index(d2, idx);
    } else {
        let w = d2.scores.len() - 1;
        assert(d2.scores[w] == (ScoreM { id, scorable_id, username, value, date }));
        lemma_score_index(d2, w);
    }
}

/// Every event in the sequence is valid against the state that precedes it:
/// the shape of a history that only ever recorded accepted mutations.
pub open spec fn all_valid(d: StoreData, evs: Seq<EventV>) -> bool
    decreases evs.len(),
{
    if evs.len() == 0 {
        true
    } else {
        all_valid(d, evs.drop_last()) && event_valid(replay(d, evs.drop_last()), evs.last())
    }
}

/// Extending a valid history with an event that is valid against its end
/// keeps the history valid.
pub proof fn lemma_all_valid_snoc(d: StoreData, evs: Seq<EventV>, e: EventV)
    requires
        all_valid(d, evs),
        event_valid(replay(d, evs), e),
    ensures
        all_valid(d, evs.push(e)),
{
    assert(evs.push(e).drop_last() =~= evs);
    assert(evs.push(e).last() == e);
}

/// Replaying a concatenation is replaying the parts in turn.
pub proof fn lemma_replay_append(d: StoreData, a: Seq<EventV>, b: Seq<EventV>)
    ensures
        replay(d, a + b) == replay(replay(d, a), b),
    decreases b.len(),
{
    if b.len() == 0 {
        assert(a + b =~= a);
    } else {
        assert((a + b).drop_last() =~= a + b.drop_last());
        assert((a + b).last() == b.last());
        lemma_replay_append(d, a, b.drop_last());
    }
}

} // verus!
