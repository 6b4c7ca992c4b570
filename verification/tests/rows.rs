use testdeck::error::StoreError;
use testdeck::model::{Attempt, Card, Session};
use testdeck::rows::{
    attempt_from_row, attempt_to_row, attempts_from_rows, card_from_row, card_to_row,
    cards_from_rows, session_from_row, session_to_row, sessions_from_rows, Field,
};
use testdeck::store::Store;

fn text(value: &str) -> Field {
    Field::Text(value.to_string())
}

fn card_fields() -> Vec<Field> {
    vec![
        Field::Integer(3),
        text("2+2?"),
        text("3"),
        Field::Null,
        Field::Integer(9),
        Field::Other,
        text(""),
        text("4"),
        Field::Null,
        text("multiple_choice"),
        text("Math"),
        Field::Integer(2),
        Field::Null,
        text("2024-05-01 09:00:00"),
        Field::Null,
    ]
}

fn same(a: &[Field], b: &[Field]) -> bool {
    a.len() == b.len()
        && a.iter().zip(b.iter()).all(|pair| match pair {
            (Field::Null, Field::Null) => true,
            (Field::Other, Field::Other) => true,
            (Field::Integer(x), Field::Integer(y)) => x == y,
            (Field::Text(x), Field::Text(y)) => x == y,
            _ => false,
        })
}

#[test]
fn card_is_read_from_its_row() {
    let card = card_from_row(&card_fields()).ok().unwrap();
    assert_eq!(card.id, Some(3));
    assert_eq!(card.question, "2+2?");
    assert_eq!(card.option_a, Some("3".to_string()));
    assert_eq!(card.option_b, None);
    assert_eq!(card.option_c, None);
    assert_eq!(card.option_d, None);
    assert_eq!(card.option_e, Some(String::new()));
    assert_eq!(card.correct_answer, Some("4".to_string()));
    assert_eq!(card.blank_answer, None);
    assert_eq!(card.question_type, "multiple_choice");
    assert_eq!(card.subject, "Math");
    assert_eq!(card.difficulty, 2);
    assert_eq!(card.image_path, None);
    assert_eq!(card.created_at, Some("2024-05-01 09:00:00".to_string()));
    assert_eq!(card.updated_at, None);
}

#[test]
fn card_row_without_a_required_column_is_refused() {
    for column in [0usize, 1, 9, 10, 11] {
        let mut fields = card_fields();
        fields[column] = Field::Null;
        assert_eq!(card_from_row(&fields).err(), Some(StoreError::StatementFailure));
    }
    let mut fields = card_fields();
    fields[1] = Field::Integer(1);
    assert_eq!(card_from_row(&fields).err(), Some(StoreError::StatementFailure));
    let mut fields = card_fields();
    fields[0] = text("3");
    assert_eq!(card_from_row(&fields).err(), Some(StoreError::StatementFailure));
}

#[test]
fn card_row_with_too_few_columns_is_refused() {
    let mut fields = card_fields();
    fields.pop();
    assert_eq!(card_from_row(&fields).err(), Some(StoreError::StatementFailure));
    assert_eq!(card_from_row(&vec![]).err(), Some(StoreError::StatementFailure));
}

#[test]
fn card_row_with_more_columns_is_read() {
    let mut fields = card_fields();
    fields.push(Field::Other);
    assert!(card_from_row(&fields).is_ok());
}

#[test]
fn card_row_with_a_difficulty_beyond_32_bits_is_refused() {
    let mut fields = card_fields();
    fields[11] = Field::Integer(i64::from(i32::MAX) + 1);
    assert_eq!(card_from_row(&fields).err(), Some(StoreError::StatementFailure));
    let mut fields = card_fields();
    fields[11] = Field::Integer(i64::from(i32::MIN) - 1);
    assert_eq!(card_from_row(&fields).err(), Some(StoreError::StatementFailure));
    let mut fields = card_fields();
    fields[11] = Field::Integer(i64::from(i32::MAX));
    assert_eq!(card_from_row(&fields).ok().unwrap().difficulty, i32::MAX);
}

#[test]
fn card_is_written_column_by_column() {
    let card = Card {
        id: Some(7),
        question: "q".to_string(),
        option_a: Some("a".to_string()),
        option_b: None,
        option_c: None,
        option_d: None,
        option_e: None,
        correct_answer: Some("a".to_string()),
        blank_answer: None,
        question_type: "fill_in_blank".to_string(),
        subject: "s".to_string(),
        difficulty: 4,
        image_path: Some("img/1.png".to_string()),
        created_at: Some("t1".to_string()),
        updated_at: Some("t2".to_string()),
    };
    let row = card_to_row(&card);
    let expected = vec![
        Field::Integer(7),
        text("q"),
        text("a"),
        Field::Null,
        Field::Null,
        Field::Null,
        Field::Null,
        text("a"),
        Field::Null,
        text("fill_in_blank"),
        text("s"),
        Field::Integer(4),
        text("img/1.png"),
        text("t1"),
        text("t2"),
    ];
    assert!(same(&row, &expected));
}

#[test]
fn stored_card_survives_the_round_trip_through_its_row() {
    let mut store = Store::new();
    let mut input = card_from_row(&card_fields()).ok().unwrap();
    input.id = None;
    store.create_card(input, "now").unwrap();
    let stored = store.get_card(1).ok().unwrap();
    let back = card_from_row(&card_to_row(&stored)).ok().unwrap();
    assert_eq!(back.id, stored.id);
    assert_eq!(back.question, stored.question);
    assert_eq!(back.option_a, stored.option_a);
    assert_eq!(back.option_b, stored.option_b);
    assert_eq!(back.correct_answer, stored.correct_answer);
    assert_eq!(back.question_type, stored.question_type);
    assert_eq!(back.subject, stored.subject);
    assert_eq!(back.difficulty, stored.difficulty);
    assert_eq!(back.image_path, stored.image_path);
    assert_eq!(back.created_at, stored.created_at);
    assert_eq!(back.updated_at, stored.updated_at);
}

#[test]
fn session_is_read_from_and_written_to_its_row() {
    let fields = vec![
        Field::Integer(2),
        text("2024-05-01 10:00:00"),
        Field::Null,
        Field::Integer(10),
        Field::Null,
        text("test"),
    ];
    let session = session_from_row(&fields).ok().unwrap();
    assert_eq!(session.id, Some(2));
    assert_eq!(session.started_at, "2024-05-01 10:00:00");
    assert_eq!(session.ended_at, None);
    assert_eq!(session.total_questions, 10);
    assert_eq!(session.correct_answers, None);
    assert_eq!(session.session_type, "test");
    assert!(same(&session_to_row(&session), &fields));
    let ended = Session {
        ended_at: Some("2024-05-01 10:30:00".to_string()),
        correct_answers: Some(8),
        ..session
    };
    let row = session_to_row(&ended);
    assert!(same(&row[2..3], &[text("2024-05-01 10:30:00")]));
    assert!(same(&row[4..5], &[Field::Integer(8)]));
    let back = session_from_row(&row).ok().unwrap();
    assert_eq!(back.ended_at, Some("2024-05-01 10:30:00".to_string()));
    assert_eq!(back.correct_answers, Some(8));
}

#[test]
fn session_row_without_a_required_column_is_refused() {
    for column in [0usize, 1, 3, 5] {
        let mut fields = vec![
            Field::Integer(2),
            text("2024-05-01 10:00:00"),
            Field::Null,
            Field::Integer(10),
            Field::Null,
            text("test"),
        ];
        fields[column] = Field::Null;
        assert_eq!(session_from_row(&fields).err(), Some(StoreError::StatementFailure));
    }
    assert_eq!(
        session_from_row(&vec![Field::Integer(2)]).err(),
        Some(StoreError::StatementFailure)
    );
}

#[test]
fn attempt_is_read_from_and_written_to_its_row() {
    let fields = vec![
        Field::Integer(5),
        Field::Integer(2),
        Field::Integer(3),
        text("4"),
        Field::Integer(1),
        Field::Integer(12),
        text("2024-05-01 10:00:05"),
    ];
    let attempt = attempt_from_row(&fields).ok().unwrap();
    assert_eq!(attempt.id, Some(5));
    assert_eq!(attempt.session_id, 2);
    assert_eq!(attempt.card_id, 3);
    assert_eq!(attempt.user_answer, "4");
    assert!(attempt.is_correct);
    assert_eq!(attempt.time_taken, Some(12));
    assert_eq!(attempt.attempted_at, "2024-05-01 10:00:05");
    assert!(same(&attempt_to_row(&attempt), &fields));
    let wrong = Attempt { is_correct: false, time_taken: None, ..attempt };
    let row = attempt_to_row(&wrong);
    assert!(same(&row[4..6], &[Field::Integer(0), Field::Null]));
    assert!(!attempt_from_row(&row).ok().unwrap().is_correct);
}

#[test]
fn attempt_is_right_where_its_column_is_not_zero() {
    let mut fields = vec![
        Field::Integer(5),
        Field::Integer(2),
        Field::Integer(3),
        text("4"),
        Field::Integer(-7),
        Field::Null,
        text("t"),
    ];
    assert!(attempt_from_row(&fields).ok().unwrap().is_correct);
    fields[4] = Field::Integer(0);
    assert!(!attempt_from_row(&fields).ok().unwrap().is_correct);
    fields[4] = text("true");
    assert_eq!(attempt_from_row(&fields).err(), Some(StoreError::StatementFailure));
}

#[test]
fn rows_are_read_in_order_and_one_bad_row_fails_the_read() {
    let mut second = card_fields();
    second[0] = Field::Integer(4);
    second[1] = text("3+3?");
    let cards = cards_from_rows(&vec![card_fields(), second]).ok().unwrap();
    assert_eq!(cards.len(), 2);
    assert_eq!(cards[0].id, Some(3));
    assert_eq!(cards[1].question, "3+3?");
    let mut bad = card_fields();
    bad[10] = Field::Null;
    assert_eq!(
        cards_from_rows(&vec![card_fields(), bad]).err(),
        Some(StoreError::StatementFailure)
    );
    assert!(cards_from_rows(&vec![]).ok().unwrap().is_empty());
    assert!(sessions_from_rows(&vec![]).ok().unwrap().is_empty());
    assert!(attempts_from_rows(&vec![]).ok().unwrap().is_empty());
    assert_eq!(
        sessions_from_rows(&vec![vec![Field::Null]]).err(),
        Some(StoreError::StatementFailure)
    );
    assert_eq!(
        attempts_from_rows(&vec![vec![Field::Null]]).err(),
        Some(StoreError::StatementFailure)
    );
}
