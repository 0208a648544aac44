use highscore::persisted_store::PersistedStore;
use highscore::store_interface::{GroupId, HashedPassword, ScorableId, ScoreId, StoreError};

fn fresh() -> PersistedStore {
    PersistedStore::load("")
}

fn with_alice() -> PersistedStore {
    let mut s = fresh();
    s.upsert_group(GroupId(1), "Arcade".to_string()).unwrap();
    s.upsert_scorable(ScorableId(2), GroupId(1), "Pac-Man".to_string())
        .unwrap();
    s.upsert_user("alice".to_string(), HashedPassword::from_encoded("h".to_string()))
        .unwrap();
    s
}

#[test]
fn scenario_leaderboard_order() {
    let mut s = with_alice();
    s.upsert_score(ScoreId(10), ScorableId(2), "alice".to_string(), 100, 1000)
        .unwrap();
    s.upsert_score(ScoreId(11), ScorableId(2), "alice".to_string(), 200, 2000)
        .unwrap();
    let scores = s.scores(&ScorableId(2), None).unwrap();
    assert_eq!(scores.len(), 2);
    assert_eq!(scores[0].id, ScoreId(11));
    assert_eq!(scores[0].value, 200);
    assert_eq!(scores[1].id, ScoreId(10));
    assert_eq!(scores[1].value, 100);
    assert_eq!(scores[0].username, "alice");
}

#[test]
fn scenario_delete_user_keeps_scorable() {
    let mut s = with_alice();
    s.upsert_score(ScoreId(10), ScorableId(2), "alice".to_string(), 100, 1000)
        .unwrap();
    s.upsert_score(ScoreId(11), ScorableId(2), "alice".to_string(), 200, 2000)
        .unwrap();
    s.delete_user("alice").unwrap();
    let scores = s.scores(&ScorableId(2), None).unwrap();
    assert!(scores.is_empty());
    let scorables = s.scorables_in_group(&GroupId(1)).unwrap();
    assert!(scorables.iter().any(|sc| sc.id == ScorableId(2)));
}

#[test]
fn cascade_group_delete() {
    let mut s = with_alice();
    s.upsert_scorable(ScorableId(3), GroupId(1), "Dig Dug".to_string())
        .unwrap();
    s.upsert_group(GroupId(7), "Other".to_string()).unwrap();
    s.upsert_scorable(ScorableId(8), GroupId(7), "Pinball".to_string())
        .unwrap();
    s.upsert_score(ScoreId(20), ScorableId(2), "alice".to_string(), 5, 1)
        .unwrap();
    s.upsert_score(ScoreId(21), ScorableId(3), "alice".to_string(), 6, 2)
        .unwrap();
    s.upsert_score(ScoreId(22), ScorableId(8), "alice".to_string(), 7, 3)
        .unwrap();
    s.delete_group(&GroupId(1)).unwrap();
    assert_eq!(
        s.scorables_in_group(&GroupId(1)),
        Err(StoreError::GroupNotFound(GroupId(1)))
    );
    assert_eq!(
        s.scores(&ScorableId(2), None),
        Err(StoreError::ScorableNotFound(ScorableId(2)))
    );
    assert_eq!(
        s.scores(&ScorableId(3), None),
        Err(StoreError::ScorableNotFound(ScorableId(3)))
    );
    // the score in the untouched group survives
    let other = s.scores(&ScorableId(8), None).unwrap();
    assert_eq!(other.len(), 1);
    assert_eq!(other[0].id, ScoreId(22));
    // deleting an already-deleted score id now fails
    assert_eq!(
        s.delete_score(&ScoreId(20)),
        Err(StoreError::ScoreNotFound(ScoreId(20)))
    );
}

#[test]
fn cascade_scorable_delete() {
    let mut s = with_alice();
    s.upsert_scorable(ScorableId(3), GroupId(1), "Dig Dug".to_string())
        .unwrap();
    s.upsert_score(ScoreId(20), ScorableId(2), "alice".to_string(), 5, 1)
        .unwrap();
    s.upsert_score(ScoreId(21), ScorableId(3), "alice".to_string(), 6, 2)
        .unwrap();
    s.delete_scorable(&ScorableId(2)).unwrap();
    assert_eq!(
        s.scores(&ScorableId(2), None),
        Err(StoreError::ScorableNotFound(ScorableId(2)))
    );
    let left = s.scores(&ScorableId(3), None).unwrap();
    assert_eq!(left.len(), 1);
    assert_eq!(left[0].id, ScoreId(21));
    let scorables = s.scorables_in_group(&GroupId(1)).unwrap();
    assert_eq!(scorables.len(), 1);
    assert_eq!(scorables[0].id, ScorableId(3));
}

#[test]
fn delete_single_score() {
    let mut s = with_alice();
    s.upsert_score(ScoreId(20), ScorableId(2), "alice".to_string(), 5, 1)
        .unwrap();
    s.upsert_score(ScoreId(21), ScorableId(2), "alice".to_string(), 6, 2)
        .unwrap();
    s.delete_score(&ScoreId(20)).unwrap();
    let left = s.scores(&ScorableId(2), None).unwrap();
    assert_eq!(left.len(), 1);
    assert_eq!(left[0].id, ScoreId(21));
}

#[test]
fn score_errors() {
    let mut s = with_alice();
    assert_eq!(
        s.upsert_score(ScoreId(1), ScorableId(2), "bob".to_string(), 1, 1),
        Err(StoreError::UserNotFound("bob".to_string()))
    );
    assert_eq!(
        s.upsert_score(ScoreId(1), ScorableId(99), "alice".to_string(), 1, 1),
        Err(StoreError::ScorableNotFound(ScorableId(99)))
    );
    assert_eq!(
        s.delete_score(&ScoreId(99)),
        Err(StoreError::ScoreNotFound(ScoreId(99)))
    );
}

#[test]
fn missing_entity_errors() {
    let mut s = fresh();
    assert_eq!(
        s.delete_user("nobody"),
        Err(StoreError::UserNotFound("nobody".to_string()))
    );
    assert_eq!(
        s.delete_group(&GroupId(9)),
        Err(StoreError::GroupNotFound(GroupId(9)))
    );
    assert_eq!(
        s.get_group(&GroupId(9)),
        Err(StoreError::GroupNotFound(GroupId(9)))
    );
    assert_eq!(
        s.delete_scorable(&ScorableId(9)),
        Err(StoreError::ScorableNotFound(ScorableId(9)))
    );
    assert_eq!(
        s.get_scorable(&ScorableId(9)),
        Err(StoreError::ScorableNotFound(ScorableId(9)))
    );
    assert_eq!(
        s.upsert_scorable(ScorableId(9), GroupId(9), "x".to_string()),
        Err(StoreError::GroupNotFound(GroupId(9)))
    );
}

#[test]
fn leaderboard_limit() {
    let mut s = with_alice();
    for (i, v) in [(30u128, 10i64), (31, 30), (32, 20)] {
        s.upsert_score(ScoreId(i), ScorableId(2), "alice".to_string(), v, i as i64)
            .unwrap();
    }
    let top2 = s.scores(&ScorableId(2), Some(2)).unwrap();
    assert_eq!(top2.len(), 2);
    assert_eq!(top2[0].value, 30);
    assert_eq!(top2[1].value, 20);
    let none = s.scores(&ScorableId(2), Some(0)).unwrap();
    assert!(none.is_empty());
    let all = s.scores(&ScorableId(2), Some(10)).unwrap();
    assert_eq!(all.len(), 3);
    assert_eq!(all[2].value, 10);
}

#[test]
fn leaderboard_tie_break() {
    let mut s = with_alice();
    // equal values: earlier date first; equal value and date: lower id first
    s.upsert_score(ScoreId(42), ScorableId(2), "alice".to_string(), 7, 500)
        .unwrap();
    s.upsert_score(ScoreId(40), ScorableId(2), "alice".to_string(), 7, 300)
        .unwrap();
    s.upsert_score(ScoreId(41), ScorableId(2), "alice".to_string(), 7, 500)
        .unwrap();
    let v = s.scores(&ScorableId(2), None).unwrap();
    assert_eq!(
        v.iter().map(|x| x.id).collect::<Vec<_>>(),
        vec![ScoreId(40), ScoreId(41), ScoreId(42)]
    );
}

#[test]
fn upsert_overwrites() {
    let mut s = with_alice();
    s.upsert_group(GroupId(1), "Renamed".to_string()).unwrap();
    assert_eq!(s.get_group(&GroupId(1)).unwrap().name, "Renamed");
    let gs = s.groups();
    assert_eq!(gs.len(), 1);
    s.upsert_scorable(ScorableId(2), GroupId(1), "Ms. Pac-Man".to_string())
        .unwrap();
    assert_eq!(s.get_scorable(&ScorableId(2)).unwrap().name, "Ms. Pac-Man");
    // overwriting a score under the same id keeps one row
    s.upsert_score(ScoreId(10), ScorableId(2), "alice".to_string(), 1, 1)
        .unwrap();
    s.upsert_score(ScoreId(10), ScorableId(2), "alice".to_string(), 9, 2)
        .unwrap();
    let v = s.scores(&ScorableId(2), None).unwrap();
    assert_eq!(v.len(), 1);
    assert_eq!(v[0].value, 9);
}

#[test]
fn groups_sorted_by_id() {
    let mut s = fresh();
    s.upsert_group(GroupId(30), "c".to_string()).unwrap();
    s.upsert_group(GroupId(10), "a".to_string()).unwrap();
    s.upsert_group(GroupId(20), "b".to_string()).unwrap();
    let gs = s.groups();
    assert_eq!(
        gs.iter().map(|g| g.id).collect::<Vec<_>>(),
        vec![GroupId(10), GroupId(20), GroupId(30)]
    );
}

#[test]
fn scorables_sorted_by_name_then_id() {
    let mut s = fresh();
    s.upsert_group(GroupId(5), "g".to_string()).unwrap();
    // name order disagrees with id order here
    s.upsert_scorable(ScorableId(4), GroupId(5), "zaxxon".to_string())
        .unwrap();
    s.upsert_scorable(ScorableId(9), GroupId(5), "asteroids".to_string())
        .unwrap();
    // equal names fall back to ascending id
    s.upsert_scorable(ScorableId(7), GroupId(5), "asteroids".to_string())
        .unwrap();
    let scs = s.scorables_in_group(&GroupId(5)).unwrap();
    assert_eq!(
        scs.iter().map(|sc| sc.id).collect::<Vec<_>>(),
        vec![ScorableId(7), ScorableId(9), ScorableId(4)]
    );
    assert_eq!(scs[0].name, "asteroids");
    assert_eq!(scs[2].name, "zaxxon");
}

#[test]
fn users_listing() {
    let mut s = fresh();
    s.upsert_user("bob".to_string(), HashedPassword::from_encoded("h1".to_string()))
        .unwrap();
    s.upsert_user("alice".to_string(), HashedPassword::from_encoded("h2".to_string()))
        .unwrap();
    assert_eq!(s.users(), vec!["bob".to_string(), "alice".to_string()]);
    s.delete_user("bob").unwrap();
    assert_eq!(s.users(), vec!["alice".to_string()]);
}

#[test]
fn error_messages() {
    let e = StoreError::UserNotFound("ada".to_string());
    assert_eq!(e.message(), "user 'ada' not found");
    let g = StoreError::GroupNotFound(GroupId(42));
    assert_eq!(g.message(), "group '42' not found");
    let sc = StoreError::ScorableNotFound(ScorableId(7));
    assert_eq!(sc.message(), "scorable '7' not found");
    let s = StoreError::ScoreNotFound(ScoreId(0));
    assert_eq!(s.message(), "score '0' not found");
}

#[test]
fn http_error_shapes() {
    let e = highscore::http_result::HttpError::new(401, "User not authorized");
    assert_eq!(e.code, 401);
    assert_eq!(e.message, "User not authorized");
    let s = highscore::http_result::HttpError::server_error("boom");
    assert_eq!(s.code, 500);
    assert_eq!(s.message, "boom");
    let f = highscore::http_result::HttpError::from_store_error(&StoreError::UserNotFound(
        "ada".to_string(),
    ));
    assert_eq!(f.code, 400);
    assert_eq!(f.message, "user 'ada' not found");
}

#[test]
fn fresh_ids_fit_the_store() {
    // random ids from the id generators work like any other id
    let g = GroupId::new();
    let sc = ScorableId::new();
    let mut s = fresh();
    s.upsert_group(g, "g".to_string()).unwrap();
    s.upsert_scorable(sc, g, "s".to_string()).unwrap();
    assert_eq!(s.get_scorable(&sc).unwrap().id, sc);
    assert_ne!(GroupId::new(), GroupId::new());
}
