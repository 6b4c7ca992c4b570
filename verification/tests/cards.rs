use testdeck::error::StoreError;
use testdeck::model::{Attempt, Card};
use testdeck::store::Store;

fn card(question: &str, subject: &str) -> Card {
    Card {
        id: None,
        question: question.to_string(),
        option_a: None,
        option_b: None,
        option_c: None,
        option_d: None,
        option_e: None,
        correct_answer: None,
        blank_answer: None,
        question_type: "multiple_choice".to_string(),
        subject: subject.to_string(),
        difficulty: 1,
        image_path: None,
        created_at: None,
        updated_at: None,
    }
}

fn attempt(session_id: i64, card_id: i64, is_correct: bool) -> Attempt {
    Attempt {
        id: None,
        session_id,
        card_id,
        user_answer: "x".to_string(),
        is_correct,
        time_taken: None,
        attempted_at: "2024-05-01 10:00:00".to_string(),
    }
}

#[test]
fn created_card_is_listed_with_its_fields_and_id() {
    let mut store = Store::new();
    let mut input = card("2+2?", "Math");
    input.option_a = Some("3".to_string());
    input.correct_answer = Some("4".to_string());
    input.difficulty = 2;
    let id = store.create_card(input, "2024-05-01 09:00:00").unwrap();
    assert_eq!(id, 1);
    let cards = store.get_all_cards();
    assert_eq!(cards.len(), 1);
    let stored = &cards[0];
    assert_eq!(stored.id, Some(1));
    assert_eq!(stored.question, "2+2?");
    assert_eq!(stored.subject, "Math");
    assert_eq!(stored.question_type, "multiple_choice");
    assert_eq!(stored.difficulty, 2);
    assert_eq!(stored.option_a, Some("3".to_string()));
    assert_eq!(stored.correct_answer, Some("4".to_string()));
    assert_eq!(stored.created_at, Some("2024-05-01 09:00:00".to_string()));
    assert_eq!(stored.updated_at, Some("2024-05-01 09:00:00".to_string()));
}

#[test]
fn absent_optional_fields_are_stored_as_empty_texts() {
    let mut store = Store::new();
    store.create_card(card("q", "s"), "t").unwrap();
    let cards = store.get_all_cards();
    let stored = &cards[0];
    assert_eq!(stored.option_a, Some(String::new()));
    assert_eq!(stored.option_b, Some(String::new()));
    assert_eq!(stored.option_c, Some(String::new()));
    assert_eq!(stored.option_d, Some(String::new()));
    assert_eq!(stored.option_e, Some(String::new()));
    assert_eq!(stored.correct_answer, Some(String::new()));
    assert_eq!(stored.blank_answer, Some(String::new()));
    assert_eq!(stored.image_path, Some(String::new()));
}

#[test]
fn ids_ascend_and_are_not_reused_after_a_delete() {
    let mut store = Store::new();
    assert_eq!(store.create_card(card("a", "s"), "t"), Ok(1));
    assert_eq!(store.create_card(card("b", "s"), "t"), Ok(2));
    store.delete_card(2);
    assert_eq!(store.create_card(card("c", "s"), "t"), Ok(3));
    assert_eq!(store.last_card_id(), 3);
}

#[test]
fn cards_are_listed_most_recent_first() {
    let mut store = Store::new();
    store.create_card(card("first", "s"), "t1").unwrap();
    store.create_card(card("second", "s"), "t2").unwrap();
    store.create_card(card("third", "s"), "t3").unwrap();
    let cards = store.get_all_cards();
    let questions: Vec<&str> = cards.iter().map(|c| c.question.as_str()).collect();
    assert_eq!(questions, vec!["third", "second", "first"]);
}

#[test]
fn cards_are_listed_by_creation_time_not_by_the_order_of_the_calls() {
    let mut store = Store::new();
    store.create_card(card("stamped later", "s"), "2024-01-02 10:00:00").unwrap();
    store.create_card(card("stamped earlier", "s"), "2024-01-01 10:00:00").unwrap();
    store.create_card(card("stamped between", "s"), "2024-01-01 18:30:00").unwrap();
    store.create_card(card("stamped last", "s"), "2024-01-03 00:00:00").unwrap();
    let cards = store.get_all_cards();
    let questions: Vec<&str> = cards.iter().map(|c| c.question.as_str()).collect();
    assert_eq!(
        questions,
        vec!["stamped last", "stamped later", "stamped between", "stamped earlier"]
    );
    let ids: Vec<Option<i64>> = cards.iter().map(|c| c.id).collect();
    assert_eq!(ids, vec![Some(4), Some(1), Some(3), Some(2)]);
    for pair in cards.windows(2) {
        assert!(pair[0].created_at >= pair[1].created_at);
    }
}

#[test]
fn cards_created_at_the_same_time_are_listed_later_id_first() {
    let mut store = Store::new();
    store.create_card(card("a", "s"), "2024-01-01 10:00:00").unwrap();
    store.create_card(card("b", "s"), "2024-01-02 10:00:00").unwrap();
    store.create_card(card("c", "s"), "2024-01-01 10:00:00").unwrap();
    store.create_card(card("d", "s"), "2024-01-01 10:00:00").unwrap();
    let cards = store.get_all_cards();
    let questions: Vec<&str> = cards.iter().map(|c| c.question.as_str()).collect();
    assert_eq!(questions, vec!["b", "d", "c", "a"]);
}

#[test]
fn cards_of_a_subject_are_listed_by_creation_time() {
    let mut store = Store::new();
    store.create_card(card("m later", "Math"), "2024-01-02 10:00:00").unwrap();
    store.create_card(card("h", "History"), "2024-01-05 10:00:00").unwrap();
    store.create_card(card("m earlier", "Math"), "2024-01-01 10:00:00").unwrap();
    store.create_card(card("m latest", "Math"), "2024-01-04 10:00:00").unwrap();
    let chosen = store.get_cards_by_subject("Math");
    let questions: Vec<&str> = chosen.iter().map(|c| c.question.as_str()).collect();
    assert_eq!(questions, vec!["m latest", "m later", "m earlier"]);
    let all = store.get_all_cards();
    let expected: Vec<&str> =
        all.iter().filter(|c| c.subject == "Math").map(|c| c.question.as_str()).collect();
    assert_eq!(questions, expected);
}

#[test]
fn rows_read_with_stamps_out_of_order_are_listed_by_creation_time() {
    let mut first = card("id 1, created later", "s").to_stored(1, "2024-06-01 00:00:00");
    first.updated_at = Some("2024-06-02 00:00:00".to_string());
    let second = card("id 2, created earlier", "s").to_stored(2, "2024-05-01 00:00:00");
    let mut store = Store::from_parts(
        testdeck::schema::Schema::empty(),
        vec![],
        vec![],
        vec![],
        0,
        0,
        0,
    )
    .ok()
    .unwrap();
    assert!(store.get_all_cards().is_empty());
    let mut schema = testdeck::schema::Schema::empty();
    schema.ensure();
    let mut store =
        Store::from_parts(schema, vec![first, second], vec![], vec![], 2, 0, 0).ok().unwrap();
    let cards = store.get_all_cards();
    let ids: Vec<Option<i64>> = cards.iter().map(|c| c.id).collect();
    assert_eq!(ids, vec![Some(1), Some(2)]);
}

#[test]
fn an_update_does_not_move_a_card_in_the_listing() {
    let mut store = Store::new();
    store.create_card(card("a", "s"), "2024-01-01 10:00:00").unwrap();
    store.create_card(card("b", "s"), "2024-01-02 10:00:00").unwrap();
    store.update_card(1, card("a again", "s"), "2024-01-03 10:00:00").unwrap();
    let cards = store.get_all_cards();
    let questions: Vec<&str> = cards.iter().map(|c| c.question.as_str()).collect();
    assert_eq!(questions, vec!["b", "a again"]);
}

#[test]
fn listing_an_empty_store_gives_no_cards() {
    let mut store = Store::new();
    assert!(store.get_all_cards().is_empty());
    assert!(store.get_cards_by_subject("Math").is_empty());
}

#[test]
fn card_without_question_is_refused() {
    let mut store = Store::new();
    assert_eq!(store.create_card(card("", "Math"), "t"), Err(StoreError::StatementFailure));
    assert!(store.get_all_cards().is_empty());
    assert_eq!(store.last_card_id(), 0);
}

#[test]
fn card_without_subject_is_refused() {
    let mut store = Store::new();
    assert_eq!(store.create_card(card("q", ""), "t"), Err(StoreError::StatementFailure));
}

#[test]
fn card_with_unknown_question_type_is_refused() {
    let mut store = Store::new();
    let mut input = card("q", "s");
    input.question_type = "essay".to_string();
    assert_eq!(store.create_card(input, "t"), Err(StoreError::StatementFailure));
    let mut input = card("q", "s");
    input.question_type = "Multiple_Choice".to_string();
    assert_eq!(store.create_card(input, "t"), Err(StoreError::StatementFailure));
}

#[test]
fn both_question_types_are_accepted() {
    let mut store = Store::new();
    let mut blank = card("The capital of France is ___", "Geo");
    blank.question_type = "fill_in_blank".to_string();
    blank.blank_answer = Some("Paris".to_string());
    assert_eq!(store.create_card(blank, "t"), Ok(1));
    assert_eq!(store.create_card(card("q", "Geo"), "t"), Ok(2));
}

#[test]
fn card_with_difficulty_below_one_is_refused() {
    let mut store = Store::new();
    let mut input = card("q", "s");
    input.difficulty = 0;
    assert_eq!(store.create_card(input, "t"), Err(StoreError::StatementFailure));
}

#[test]
fn card_is_refused_once_the_ids_are_used_up() {
    let mut store =
        Store::from_parts(testdeck::schema::Schema::empty(), vec![], vec![], vec![], i64::MAX, 0, 0)
            .ok()
            .unwrap();
    assert_eq!(store.create_card(card("q", "s"), "t"), Err(StoreError::StatementFailure));
}

#[test]
fn cards_by_subject_selects_exactly_matching_subjects_in_order() {
    let mut store = Store::new();
    store.create_card(card("m1", "Math"), "t").unwrap();
    store.create_card(card("h1", "History"), "t").unwrap();
    store.create_card(card("m2", "Math"), "t").unwrap();
    store.create_card(card("lower", "math"), "t").unwrap();
    store.create_card(card("m3", "Math"), "t").unwrap();
    let chosen = store.get_cards_by_subject("Math");
    let questions: Vec<&str> = chosen.iter().map(|c| c.question.as_str()).collect();
    assert_eq!(questions, vec!["m3", "m2", "m1"]);
    let all = store.get_all_cards();
    let expected: Vec<&str> =
        all.iter().filter(|c| c.subject == "Math").map(|c| c.question.as_str()).collect();
    assert_eq!(questions, expected);
    assert!(store.get_cards_by_subject("Physics").is_empty());
}

#[test]
fn update_overwrites_the_fields_and_keeps_id_and_creation_stamp() {
    let mut store = Store::new();
    let mut first = card("old", "Math");
    first.option_a = Some("a".to_string());
    store.create_card(first, "t1").unwrap();
    store.create_card(card("other", "Math"), "t1").unwrap();
    let mut replacement = card("new", "Physics");
    replacement.difficulty = 3;
    assert_eq!(store.update_card(1, replacement, "t2"), Ok(()));
    let updated = store.get_card(1).ok().unwrap();
    assert_eq!(updated.id, Some(1));
    assert_eq!(updated.question, "new");
    assert_eq!(updated.subject, "Physics");
    assert_eq!(updated.difficulty, 3);
    assert_eq!(updated.option_a, Some(String::new()));
    assert_eq!(updated.created_at, Some("t1".to_string()));
    assert_eq!(updated.updated_at, Some("t2".to_string()));
    let other = store.get_card(2).ok().unwrap();
    assert_eq!(other.question, "other");
    assert_eq!(other.updated_at, Some("t1".to_string()));
}

#[test]
fn update_of_a_missing_card_succeeds_and_changes_nothing() {
    let mut store = Store::new();
    store.create_card(card("q", "s"), "t1").unwrap();
    assert_eq!(store.update_card(99, card("new", "s"), "t2"), Ok(()));
    let cards = store.get_all_cards();
    assert_eq!(cards.len(), 1);
    assert_eq!(cards[0].question, "q");
    assert_eq!(store.update_card(99, card("", ""), "t2"), Ok(()));
}

#[test]
fn update_with_a_card_that_may_not_be_written_fails_and_keeps_the_row() {
    let mut store = Store::new();
    store.create_card(card("q", "s"), "t1").unwrap();
    assert_eq!(store.update_card(1, card("", "s"), "t2"), Err(StoreError::StatementFailure));
    let kept = store.get_card(1).ok().unwrap();
    assert_eq!(kept.question, "q");
    assert_eq!(kept.updated_at, Some("t1".to_string()));
}

#[test]
fn deleted_card_is_gone_with_its_attempts() {
    let mut store = Store::new();
    store.create_card(card("a", "s"), "t").unwrap();
    store.create_card(card("b", "s"), "t").unwrap();
    store.record_attempt(attempt(1, 1, true)).unwrap();
    store.record_attempt(attempt(1, 2, false)).unwrap();
    store.record_attempt(attempt(1, 1, false)).unwrap();
    store.delete_card(1);
    let cards = store.get_all_cards();
    assert!(cards.iter().all(|c| c.id != Some(1)));
    assert_eq!(cards.len(), 1);
    assert!(store.attempts().iter().all(|a| a.card_id != 1));
    assert_eq!(store.attempts().len(), 1);
    assert_eq!(store.attempts()[0].card_id, 2);
    assert!(!store.card_exists(1));
    assert!(store.card_exists(2));
}

#[test]
fn delete_of_a_missing_card_changes_no_card() {
    let mut store = Store::new();
    store.create_card(card("a", "s"), "t").unwrap();
    store.delete_card(7);
    assert_eq!(store.get_all_cards().len(), 1);
}

#[test]
fn delete_of_a_missing_card_still_removes_attempts_that_name_it() {
    let mut store = Store::new();
    store.record_attempt(attempt(1, 7, true)).unwrap();
    store.delete_card(7);
    assert!(store.attempts().is_empty());
}

#[test]
fn reading_a_missing_card_is_not_found() {
    let store = Store::new();
    assert_eq!(store.get_card(1).err(), Some(StoreError::NotFound));
}

#[test]
fn error_messages_are_distinct() {
    let setup = StoreError::SetupFailure.message();
    let statement = StoreError::StatementFailure.message();
    let missing = StoreError::NotFound.message();
    assert_eq!(setup, "storage could not be prepared");
    assert_eq!(statement, "statement failed");
    assert_eq!(missing, "record not found");
}
