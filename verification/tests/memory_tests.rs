use highscore::codec::parse_log;
use highscore::events::Event;
use highscore::memory_store::MemoryStore;
use highscore::store_interface::{GroupId, HashedPassword, ScorableId, ScoreId, StoreError};

#[test]
fn last_changed_moves_only_on_success() {
    let mut s = MemoryStore::new(100);
    assert_eq!(s.last_changed(), 100);
    s.upsert_group(GroupId(1), "g".to_string(), 200).unwrap();
    assert_eq!(s.last_changed(), 200);
    // a failed mutation leaves the stamp (and everything else) alone
    assert_eq!(
        s.delete_group(&GroupId(9), 300),
        Err(StoreError::GroupNotFound(GroupId(9)))
    );
    assert_eq!(s.last_changed(), 200);
    // reads never move it
    let _ = s.groups();
    let _ = s.get_group(&GroupId(1));
    assert_eq!(s.last_changed(), 200);
    s.delete_group(&GroupId(1), 400).unwrap();
    assert_eq!(s.last_changed(), 400);
}

#[test]
fn from_events_folds_history() {
    let events = vec![
        Event::UpsertGroup { id: GroupId(1), name: "Arcade".to_string() },
        Event::UpsertScorable {
            id: ScorableId(2),
            group_id: GroupId(1),
            name: "Pac-Man".to_string(),
        },
        Event::UpsertUser {
            username: "alice".to_string(),
            hashed_password: HashedPassword::from_encoded("h".to_string()),
        },
        Event::UpsertScore {
            id: ScoreId(3),
            scorable_id: ScorableId(2),
            username: "alice".to_string(),
            value: 12,
            date: 1,
        },
        // stale: the user was never added, so this one is skipped
        Event::UpsertScore {
            id: ScoreId(4),
            scorable_id: ScorableId(2),
            username: "bob".to_string(),
            value: 99,
            date: 2,
        },
        // stale: deleting an id that never existed is skipped too
        Event::DeleteScore { id: ScoreId(9) },
    ];
    let s = MemoryStore::from_events(&events, 7);
    assert_eq!(s.last_changed(), 7);
    let scores = s.scores(&ScorableId(2), None).unwrap();
    assert_eq!(scores.len(), 1);
    assert_eq!(scores[0].id, ScoreId(3));
    assert_eq!(scores[0].value, 12);
}

#[test]
fn from_events_matches_parse_log_of_empty() {
    let s = MemoryStore::from_events(&parse_log(""), 1);
    assert!(s.groups().is_empty());
    assert!(s.users().is_empty());
}

#[test]
fn memory_check_user_and_hash_lookup() {
    let mut s = MemoryStore::new(0);
    s.upsert_user(
        "ada".to_string(),
        HashedPassword::from_plain_password("pw"),
        1,
    )
    .unwrap();
    assert!(s.get_hashed_password("ada").is_some());
    assert!(s.get_hashed_password("ghost").is_none());
    assert!(s.check_user("ada", "pw"));
    assert!(!s.check_user("ada", "nope"));
    assert!(!s.check_user("ghost", "pw"));
}
