use highscore::codec::{decode_event, encode_event, parse_log, render_pending_text};
use highscore::events::Event;
use highscore::persisted_store::PersistedStore;
use highscore::store_interface::{GroupId, HashedPassword, ScorableId, ScoreId};

fn drive(s: &mut PersistedStore) {
    s.upsert_group(GroupId(1), "Arcade".to_string()).unwrap();
    s.upsert_scorable(ScorableId(2), GroupId(1), "Pac-Man".to_string())
        .unwrap();
    s.upsert_user("alice".to_string(), HashedPassword::from_encoded("h".to_string()))
        .unwrap();
    s.upsert_score(ScoreId(10), ScorableId(2), "alice".to_string(), 100, 1000)
        .unwrap();
    s.upsert_score(ScoreId(11), ScorableId(2), "alice".to_string(), -5, 2000)
        .unwrap();
    s.delete_score(&ScoreId(11)).unwrap();
}

#[test]
fn round_trip_replay_rebuilds_live_state() {
    let mut live = PersistedStore::load("");
    drive(&mut live);
    let log = live.pending_text();
    let replayed = PersistedStore::load(&log);
    assert_eq!(
        replayed.scores(&ScorableId(2), None).unwrap(),
        live.scores(&ScorableId(2), None).unwrap()
    );
    assert_eq!(replayed.groups(), live.groups());
    assert_eq!(
        replayed.scorables_in_group(&GroupId(1)).unwrap(),
        live.scorables_in_group(&GroupId(1)).unwrap()
    );
    assert_eq!(replayed.users(), live.users());
}

#[test]
fn round_trip_across_flushes() {
    let mut live = PersistedStore::load("");
    drive(&mut live);
    let mut log = live.pending_text();
    live.mark_flushed();
    assert!(!live.has_pending());
    live.upsert_score(ScoreId(12), ScorableId(2), "alice".to_string(), 7, 3000)
        .unwrap();
    live.delete_user("alice").unwrap();
    assert!(live.has_pending());
    log.push_str(&live.pending_text());
    let replayed = PersistedStore::load(&log);
    assert_eq!(
        replayed.scores(&ScorableId(2), None).unwrap(),
        live.scores(&ScorableId(2), None).unwrap()
    );
    assert_eq!(replayed.users(), live.users());
    assert_eq!(
        replayed.scorables_in_group(&GroupId(1)).unwrap(),
        live.scorables_in_group(&GroupId(1)).unwrap()
    );
}

#[test]
fn corrupt_line_is_skipped() {
    let mut live = PersistedStore::load("");
    drive(&mut live);
    let log = live.pending_text();
    let clean = parse_log(&log);
    // inject one corrupted line at every position in turn
    let lines: Vec<&str> = log.split('\n').collect();
    for pos in 0..=lines.len() {
        let mut patched: Vec<&str> = Vec::new();
        patched.extend(&lines[..pos]);
        patched.push("{\"ty\":\"corrupted\"");
        patched.extend(&lines[pos..]);
        let damaged = patched.join("\n");
        assert_eq!(parse_log(&damaged), clean);
        let replayed = PersistedStore::load(&damaged);
        assert_eq!(
            replayed.scores(&ScorableId(2), None).unwrap(),
            live.scores(&ScorableId(2), None).unwrap()
        );
    }
}

#[test]
fn replay_skips_stale_events() {
    // a log may hold an event that was valid once but no longer applies:
    // a score for a scorable whose group was deleted later in history is
    // skipped, the rest is applied
    let mut live = PersistedStore::load("");
    drive(&mut live);
    let mut log = live.pending_text();
    // replay the score insert a second time, after the scorable is gone
    live.delete_group(&GroupId(1)).unwrap();
    log.push_str(&live.pending_text());
    let tail = render_pending_text(&vec![Event::UpsertScore {
        id: ScoreId(10),
        scorable_id: ScorableId(2),
        username: "alice".to_string(),
        value: 100,
        date: 1000,
    }]);
    log.push_str(&tail);
    let replayed = PersistedStore::load(&log);
    assert!(replayed.groups().is_empty());
    assert_eq!(replayed.users(), vec!["alice".to_string()]);
}

#[test]
fn encode_decode_every_variant() {
    let events = vec![
        Event::UpsertUser {
            username: "ada".to_string(),
            hashed_password: HashedPassword::from_encoded("$argon2id$x".to_string()),
        },
        Event::DeleteUser { username: "ada".to_string() },
        Event::UpsertGroup { id: GroupId(u128::MAX), name: "G".to_string() },
        Event::DeleteGroup { id: GroupId(0) },
        Event::UpsertScorable {
            id: ScorableId(3),
            group_id: GroupId(u128::MAX),
            name: "".to_string(),
        },
        Event::DeleteScorable { id: ScorableId(3) },
        Event::UpsertScore {
            id: ScoreId(4),
            scorable_id: ScorableId(3),
            username: "ada".to_string(),
            value: i64::MIN,
            date: i64::MAX,
        },
        Event::DeleteScore { id: ScoreId(4) },
    ];
    for e in &events {
        let line = encode_event(e);
        assert_eq!(decode_event(&line).as_ref(), Some(e));
        assert!(!line.contains(&'\n'));
    }
}

#[test]
fn awkward_names_round_trip() {
    let mut live = PersistedStore::load("");
    live.upsert_group(GroupId(1), "tab\tnewline\nback\\slash".to_string())
        .unwrap();
    live.upsert_user("els\te\n\\".to_string(), HashedPassword::from_encoded("h\t\n".to_string()))
        .unwrap();
    let log = live.pending_text();
    let replayed = PersistedStore::load(&log);
    assert_eq!(
        replayed.get_group(&GroupId(1)).unwrap().name,
        "tab\tnewline\nback\\slash"
    );
    assert_eq!(replayed.users(), vec!["els\te\n\\".to_string()]);
}

#[test]
fn garbage_only_log_is_empty_history() {
    assert_eq!(parse_log(""), vec![]);
    assert_eq!(parse_log("\n\n"), vec![]);
    assert_eq!(parse_log("not an event\nuu\nug\t12\nzz\t1\t2"), vec![]);
    let s = PersistedStore::load("half a rec");
    assert!(s.groups().is_empty());
    assert!(s.users().is_empty());
}

#[test]
fn trailing_partial_line_is_contained() {
    // a crash mid-write leaves a dangling partial line; the next append
    // starts with a newline, so the partial line stays alone and is skipped
    let mut live = PersistedStore::load("");
    drive(&mut live);
    let mut log = "\nuu\tali".to_string();  // truncated write, one field short
    log.push_str(&live.pending_text());
    let replayed = PersistedStore::load(&log);
    assert_eq!(replayed.users(), live.users());
    assert_eq!(
        replayed.scores(&ScorableId(2), None).unwrap(),
        live.scores(&ScorableId(2), None).unwrap()
    );
}
