use testdeck::error::StoreError;
use testdeck::model::{Attempt, Session};
use testdeck::store::Store;

fn session(started_at: &str, total_questions: i32) -> Session {
    Session {
        id: None,
        started_at: started_at.to_string(),
        ended_at: None,
        total_questions,
        correct_answers: None,
        session_type: "practice".to_string(),
    }
}

#[test]
fn created_session_is_open_and_keeps_the_callers_start_time() {
    let mut store = Store::new();
    let mut input = session("2024-05-01T10:00:00Z", 5);
    input.ended_at = Some("ignored".to_string());
    input.correct_answers = Some(4);
    input.session_type = "test".to_string();
    assert_eq!(store.create_session(input), Ok(1));
    let stored = store.get_session(1).ok().unwrap();
    assert_eq!(stored.id, Some(1));
    assert_eq!(stored.started_at, "2024-05-01T10:00:00Z");
    assert_eq!(stored.ended_at, None);
    assert_eq!(stored.correct_answers, None);
    assert_eq!(stored.total_questions, 5);
    assert_eq!(stored.session_type, "test");
}

#[test]
fn ended_session_shows_end_time_and_count() {
    let mut store = Store::new();
    store.create_session(session("2024-05-01 10:00:00", 3)).unwrap();
    store.create_session(session("2024-05-01 11:00:00", 3)).unwrap();
    store.end_session(1, 2, "2024-05-01 10:30:00");
    let ended = store.get_session(1).ok().unwrap();
    assert_eq!(ended.ended_at, Some("2024-05-01 10:30:00".to_string()));
    assert_eq!(ended.correct_answers, Some(2));
    let open = store.get_session(2).ok().unwrap();
    assert_eq!(open.ended_at, None);
    assert_eq!(open.correct_answers, None);
}

#[test]
fn ending_a_session_twice_keeps_the_second_value() {
    let mut store = Store::new();
    store.create_session(session("2024-05-01 10:00:00", 3)).unwrap();
    store.end_session(1, 1, "first");
    store.end_session(1, 3, "second");
    let ended = store.get_session(1).ok().unwrap();
    assert_eq!(ended.correct_answers, Some(3));
    assert_eq!(ended.ended_at, Some("second".to_string()));
}

#[test]
fn ending_a_missing_session_changes_nothing() {
    let mut store = Store::new();
    store.create_session(session("2024-05-01 10:00:00", 3)).unwrap();
    store.end_session(9, 1, "now");
    let kept = store.get_session(1).ok().unwrap();
    assert_eq!(kept.ended_at, None);
    assert_eq!(store.sessions().len(), 1);
    assert!(!store.session_exists(9));
    assert!(store.session_exists(1));
}

#[test]
fn reading_a_missing_session_is_not_found() {
    let store = Store::new();
    assert_eq!(store.get_session(4).err(), Some(StoreError::NotFound));
}

#[test]
fn session_is_refused_once_the_ids_are_used_up() {
    let mut store =
        Store::from_parts(testdeck::schema::Schema::empty(), vec![], vec![], vec![], 0, i64::MAX, 0)
            .ok()
            .unwrap();
    assert_eq!(
        store.create_session(session("2024-05-01 10:00:00", 1)),
        Err(StoreError::StatementFailure)
    );
}

#[test]
fn recorded_attempt_defaults_its_duration_to_zero() {
    let mut store = Store::new();
    let id = store
        .record_attempt(Attempt {
            id: None,
            session_id: 1,
            card_id: 1,
            user_answer: "4".to_string(),
            is_correct: true,
            time_taken: None,
            attempted_at: "2024-05-01 10:00:05".to_string(),
        })
        .unwrap();
    assert_eq!(id, 1);
    let stored = &store.attempts()[0];
    assert_eq!(stored.id, Some(1));
    assert_eq!(stored.time_taken, Some(0));
    assert_eq!(stored.user_answer, "4");
    assert!(stored.is_correct);
    assert_eq!(stored.attempted_at, "2024-05-01 10:00:05");
}

#[test]
fn recorded_attempt_keeps_a_given_duration_and_a_dangling_reference() {
    let mut store = Store::new();
    let id = store
        .record_attempt(Attempt {
            id: Some(77),
            session_id: 41,
            card_id: 42,
            user_answer: String::new(),
            is_correct: false,
            time_taken: Some(12),
            attempted_at: "t".to_string(),
        })
        .unwrap();
    assert_eq!(id, 1);
    let stored = &store.attempts()[0];
    assert_eq!(stored.id, Some(1));
    assert_eq!(stored.session_id, 41);
    assert_eq!(stored.card_id, 42);
    assert_eq!(stored.time_taken, Some(12));
}

#[test]
fn attempt_is_refused_once_the_ids_are_used_up() {
    let mut store =
        Store::from_parts(testdeck::schema::Schema::empty(), vec![], vec![], vec![], 0, 0, i64::MAX)
            .ok()
            .unwrap();
    let outcome = store.record_attempt(Attempt {
        id: None,
        session_id: 1,
        card_id: 1,
        user_answer: String::new(),
        is_correct: false,
        time_taken: None,
        attempted_at: "t".to_string(),
    });
    assert_eq!(outcome, Err(StoreError::StatementFailure));
}
