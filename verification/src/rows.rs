//! Rows as the storage engine hands them over and takes them: one field
//! for each column, in the order of the table's columns.
//!
//! A required column must hold a value of its type, else the row is
//! refused. An optional text column that holds anything but a text reads
//! as absent.

use vstd::prelude::*;
use crate::error::StoreError;
use crate::model::{
    Attempt, AttemptView, Card, CardView, Session, SessionView, attempt_views, card_views,
    session_views, text_of,
};

verus! {

/// The value of one column of a row.
#[derive(Debug)]
pub enum Field {
    /// No value.
    Null,
    /// A whole number.
    Integer(i64),
    /// A text.
    Text(String),
    /// A value of a kind that no column of the deck uses.
    Other,
}

/// A field as a mathematical value.
pub enum FieldView {
    Null,
    Integer(i64),
    Text(Seq<char>),
    Other,
}

impl View for Field {
    type V = FieldView;

    open spec fn view(&self) -> FieldView {
        match self {
            Field::Null => FieldView::Null,
            Field::Integer(n) => FieldView::Integer(*n),
            Field::Text(s) => FieldView::Text(s@),
            Field::Other => FieldView::Other,
        }
    }
}

/// The fields of a row as mathematical values.
pub open spec fn field_views(row: Seq<Field>) -> Seq<FieldView> {
    row.map_values(|field: Field| field@)
}

/// The rows of a result as mathematical values.
pub open spec fn row_views(rows: Seq<Vec<Field>>) -> Seq<Seq<FieldView>> {
    rows.map_values(|row: Vec<Field>| field_views(row@))
}

/// The number of columns of the card table.
pub const CARD_COLUMNS: usize = 15;

/// The number of columns of the session table.
pub const SESSION_COLUMNS: usize = 6;

/// The number of columns of the attempt table.
pub const ATTEMPT_COLUMNS: usize = 7;

impl FieldView {
    /// The text of a text field.
    pub open spec fn as_text(self) -> Option<Seq<char>> {
        match self {
            FieldView::Text(s) => Some(s),
            _ => None,
        }
    }

    /// The number of an integer field.
    pub open spec fn as_integer(self) -> Option<i64> {
        match self {
            FieldView::Integer(n) => Some(n),
            _ => None,
        }
    }

    /// The number of an integer field, if it is one of 32 bits.
    pub open spec fn as_small_integer(self) -> Option<i32> {
        match self {
            FieldView::Integer(n) => if i32::MIN <= n <= i32::MAX {
                Some(n as i32)
            } else {
                None
            },
            _ => None,
        }
    }

    /// The field that holds an optional text.
    pub open spec fn of_text(text: Option<Seq<char>>) -> FieldView {
        match text {
            Some(s) => FieldView::Text(s),
            None => FieldView::Null,
        }
    }

    /// The field that holds an optional id.
    pub open spec fn of_id(id: Option<i64>) -> FieldView {
        match id {
            Some(n) => FieldView::Integer(n),
            None => FieldView::Null,
        }
    }

    /// The field that holds an optional small number.
    pub open spec fn of_small_integer(number: Option<i32>) -> FieldView {
        match number {
            Some(n) => FieldView::Integer(n as i64),
            None => FieldView::Null,
        }
    }
}

/// The row that holds a card: id, question, the five options, the correct
/// answer, the blank answer, question type, subject, difficulty, image
/// path, and the two stamps.
pub open spec fn card_row(card: CardView) -> Seq<FieldView> {
    seq![
        FieldView::of_id(card.id),
        FieldView::Text(card.question),
        FieldView::of_text(card.option_a),
        FieldView::of_text(card.option_b),
        FieldView::of_text(card.option_c),
        FieldView::of_text(card.option_d),
        FieldView::of_text(card.option_e),
        FieldView::of_text(card.correct_answer),
        FieldView::of_text(card.blank_answer),
        FieldView::Text(card.question_type),
        FieldView::Text(card.subject),
        FieldView::Integer(card.difficulty as i64),
        FieldView::of_text(card.image_path),
        FieldView::of_text(card.created_at),
        FieldView::of_text(card.updated_at),
    ]
}

/// The card that a row holds. The id, the question, the question type, the
/// subject and the difficulty are required; the other columns are
/// optional. Columns beyond the fifteenth are not looked at.
pub open spec fn card_of_row(row: Seq<FieldView>) -> Result<CardView, StoreError> {
    if row.len() >= 15 && row[0].as_integer() is Some && row[1].as_text() is Some
        && row[9].as_text() is Some && row[10].as_text() is Some
        && row[11].as_small_integer() is Some {
        Ok(
            CardView {
                id: row[0].as_integer(),
                question: row[1].as_text().unwrap(),
                option_a: row[2].as_text(),
                option_b: row[3].as_text(),
                option_c: row[4].as_text(),
                option_d: row[5].as_text(),
                option_e: row[6].as_text(),
                correct_answer: row[7].as_text(),
                blank_answer: row[8].as_text(),
                question_type: row[9].as_text().unwrap(),
                subject: row[10].as_text().unwrap(),
                difficulty: row[11].as_small_integer().unwrap(),
                image_path: row[12].as_text(),
                created_at: row[13].as_text(),
                updated_at: row[14].as_text(),
            },
        )
    } else {
        Err(StoreError::StatementFailure)
    }
}

/// The row that holds a session: id, start time, end time, number of
/// questions, number of right answers, session type.
pub open spec fn session_row(session: SessionView) -> Seq<FieldView> {
    seq![
        FieldView::of_id(session.id),
        FieldView::Text(session.started_at),
        FieldView::of_text(session.ended_at),
        FieldView::Integer(session.total_questions as i64),
        FieldView::of_small_integer(session.correct_answers),
        FieldView::Text(session.session_type),
    ]
}

/// The session that a row holds. The end time and the number of right
/// answers are optional, every other column is required.
pub open spec fn session_of_row(row: Seq<FieldView>) -> Result<SessionView, StoreError> {
    if row.len() >= 6 && row[0].as_integer() is Some && row[1].as_text() is Some
        && row[3].as_small_integer() is Some && row[5].as_text() is Some {
        Ok(
            SessionView {
                id: row[0].as_integer(),
                started_at: row[1].as_text().unwrap(),
                ended_at: row[2].as_text(),
                total_questions: row[3].as_small_integer().unwrap(),
                correct_answers: row[4].as_small_integer(),
                session_type: row[5].as_text().unwrap(),
            },
        )
    } else {
        Err(StoreError::StatementFailure)
    }
}

/// The row that holds an attempt: id, session, card, answer, whether it
/// was right (1 or 0), duration, time.
pub open spec fn attempt_row(attempt: AttemptView) -> Seq<FieldView> {
    seq![
        FieldView::of_id(attempt.id),
        FieldView::Integer(attempt.session_id),
        FieldView::Integer(attempt.card_id),
        FieldView::Text(attempt.user_answer),
        FieldView::Integer(
            if attempt.is_correct {
                1i64
            } else {
                0i64
            },
        ),
        FieldView::of_small_integer(attempt.time_taken),
        FieldView::Text(attempt.attempted_at),
    ]
}

/// The attempt that a row holds. The duration is optional, every other
/// column is required. An answer is right where its column holds a number
/// other than zero.
pub open spec fn attempt_of_row(row: Seq<FieldView>) -> Result<AttemptView, StoreError> {
    if row.len() >= 7 && row[0].as_integer() is Some && row[1].as_integer() is Some
        && row[2].as_integer() is Some && row[3].as_text() is Some && row[4].as_integer() is Some
        && row[6].as_text() is Some {
        Ok(
            AttemptView {
                id: row[0].as_integer(),
                session_id: row[1].as_integer().unwrap(),
                card_id: row[2].as_integer().unwrap(),
                user_answer: row[3].as_text().unwrap(),
                is_correct: row[4].as_integer().unwrap() != 0,
                time_taken: row[5].as_small_integer(),
                attempted_at: row[6].as_text().unwrap(),
            },
        )
    } else {
        Err(StoreError::StatementFailure)
    }
}

/// The text of a field, copied.
fn text_in(field: &Field) -> (text: Option<String>)
    ensures
        text_of(text) == field@.as_text(),
{
    match field {
        Field::Text(s) => Some(s.clone()),
        _ => None,
    }
}

/// The number of a field.
fn integer_in(field: &Field) -> (number: Option<i64>)
    ensures
        number == field@.as_integer(),
{
    match field {
        Field::Integer(n) => Some(*n),
        _ => None,
    }
}

/// The number of a field, if it is one of 32 bits.
fn small_integer_in(field: &Field) -> (number: Option<i32>)
    ensures
        number == field@.as_small_integer(),
{
    match field {
        Field::Integer(n) => {
            if -2147483648 <= *n && *n <= 2147483647 {
                Some(*n as i32)
            } else {
                None
            }
        },
        _ => None,
    }
}

/// The field that holds an optional text.
fn field_of_text(text: &Option<String>) -> (field: Field)
    ensures
        field@ == FieldView::of_text(text_of(*text)),
{
    match text {
        Some(s) => Field::Text(s.clone()),
        None => Field::Null,
    }
}

/// The field that holds an optional id.
fn field_of_id(id: Option<i64>) -> (field: Field)
    ensures
        field@ == FieldView::of_id(id),
{
    match id {
        Some(n) => Field::Integer(n),
        None => Field::Null,
    }
}

/// The field that holds an optional small number.
fn field_of_small_integer(number: Option<i32>) -> (field: Field)
    ensures
        field@ == FieldView::of_small_integer(number),
{
    match number {
        Some(n) => Field::Integer(n as i64),
        None => Field::Null,
    }
}

/// Writes a card as a row.
pub fn card_to_row(card: &Card) -> (row: Vec<Field>)
    ensures
        field_views(row@) == card_row(card@),
{
    let mut row: Vec<Field> = Vec::new();
    row.push(field_of_id(card.id));
    row.push(Field::Text(card.question.clone()));
    row.push(field_of_text(&card.option_a));
    row.push(field_of_text(&card.option_b));
    row.push(field_of_text(&card.option_c));
    row.push(field_of_text(&card.option_d));
    row.push(field_of_text(&card.option_e));
    row.push(field_of_text(&card.correct_answer));
    row.push(field_of_text(&card.blank_answer));
    row.push(Field::Text(card.question_type.clone()));
    row.push(Field::Text(card.subject.clone()));
    row.push(Field::Integer(card.difficulty as i64));
    row.push(field_of_text(&card.image_path));
    row.push(field_of_text(&card.created_at));
    row.push(field_of_text(&card.updated_at));
    assert(field_views(row@) =~= card_row(card@));
    row
}

/// Reads the card that a row holds.
pub fn card_from_row(row: &Vec<Field>) -> (outcome: Result<Card, StoreError>)
    ensures
        match outcome {
            Ok(card) => card_of_row(field_views(row@)) == Ok::<CardView, StoreError>(card@),
            Err(error) => card_of_row(field_views(row@)) == Err::<CardView, StoreError>(error),
        },
{
    if row.len() < CARD_COLUMNS {
        return Err(StoreError::StatementFailure);
    }
    let ghost fields = field_views(row@);
    assert forall|k: int| 0 <= k < row@.len() implies #[trigger] fields[k] == row@[k]@ by {}
    let id = integer_in(&row[0]);
    let question = text_in(&row[1]);
    let question_type = text_in(&row[9]);
    let subject = text_in(&row[10]);
    let difficulty = small_integer_in(&row[11]);
    match (id, question, question_type, subject, difficulty) {
        (Some(id), Some(question), Some(question_type), Some(subject), Some(difficulty)) => Ok(
            Card {
                id: Some(id),
                question,
                option_a: text_in(&row[2]),
                option_b: text_in(&row[3]),
                option_c: text_in(&row[4]),
                option_d: text_in(&row[5]),
                option_e: text_in(&row[6]),
                correct_answer: text_in(&row[7]),
                blank_answer: text_in(&row[8]),
                question_type,
                subject,
                difficulty,
                image_path: text_in(&row[12]),
                created_at: text_in(&row[13]),
                updated_at: text_in(&row[14]),
            },
        ),
        _ => Err(StoreError::StatementFailure),
    }
}

/// Writes a session as a row.
pub fn session_to_row(session: &Session) -> (row: Vec<Field>)
    ensures
        field_views(row@) == session_row(session@),
{
    let mut row: Vec<Field> = Vec::new();
    row.push(field_of_id(session.id));
    row.push(Field::Text(session.started_at.clone()));
    row.push(field_of_text(&session.ended_at));
    row.push(Field::Integer(session.total_questions as i64));
    row.push(field_of_small_integer(session.correct_answers));
    row.push(Field::Text(session.session_type.clone()));
    assert(field_views(row@) =~= session_row(session@));
    row
}

/// Reads the session that a row holds.
pub fn session_from_row(row: &Vec<Field>) -> (outcome: Result<Session, StoreError>)
    ensures
        match outcome {
            Ok(session) => session_of_row(field_views(row@)) == Ok::<SessionView, StoreError>(
                session@,
            ),
            Err(error) => session_of_row(field_views(row@)) == Err::<SessionView, StoreError>(error),
        },
{
    if row.len() < SESSION_COLUMNS {
        return Err(StoreError::StatementFailure);
    }
    let ghost fields = field_views(row@);
    assert forall|k: int| 0 <= k < row@.len() implies #[trigger] fields[k] == row@[k]@ by {}
    let id = integer_in(&row[0]);
    let started_at = text_in(&row[1]);
    let total_questions = small_integer_in(&row[3]);
    let session_type = text_in(&row[5]);
    match (id, started_at, total_questions, session_type) {
        (Some(id), Some(started_at), Some(total_questions), Some(session_type)) => Ok(
            Session {
                id: Some(id),
                started_at,
                ended_at: text_in(&row[2]),
                total_questions,
                correct_answers: small_integer_in(&row[4]),
                session_type,
            },
        ),
        _ => Err(StoreError::StatementFailure),
    }
}

/// Writes an attempt as a row.
pub fn attempt_to_row(attempt: &Attempt) -> (row: Vec<Field>)
    ensures
        field_views(row@) == attempt_row(attempt@),
{
    let mut row: Vec<Field> = Vec::new();
    row.push(field_of_id(attempt.id));
    row.push(Field::Integer(attempt.session_id));
    row.push(Field::Integer(attempt.card_id));
    row.push(Field::Text(attempt.user_answer.clone()));
    let right: i64 = if attempt.is_correct {
        1
    } else {
        0
    };
    row.push(Field::Integer(right));
    row.push(field_of_small_integer(attempt.time_taken));
    row.push(Field::Text(attempt.attempted_at.clone()));
    assert(field_views(row@) =~= attempt_row(attempt@));
    row
}

/// Reads the attempt that a row holds.
pub fn attempt_from_row(row: &Vec<Field>) -> (outcome: Result<Attempt, StoreError>)
    ensures
        match outcome {
            Ok(attempt) => attempt_of_row(field_views(row@)) == Ok::<AttemptView, StoreError>(
                attempt@,
            ),
            Err(error) => attempt_of_row(field_views(row@)) == Err::<AttemptView, StoreError>(error),
        },
{
    if row.len() < ATTEMPT_COLUMNS {
        return Err(StoreError::StatementFailure);
    }
    let ghost fields = field_views(row@);
    assert forall|k: int| 0 <= k < row@.len() implies #[trigger] fields[k] == row@[k]@ by {}
    let id = integer_in(&row[0]);
    let session_id = integer_in(&row[1]);
    let card_id = integer_in(&row[2]);
    let user_answer = text_in(&row[3]);
    let right = integer_in(&row[4]);
    let attempted_at = text_in(&row[6]);
    match (id, session_id, card_id, user_answer, right, attempted_at) {
        (
            Some(id),
            Some(session_id),
            Some(card_id),
            Some(user_answer),
            Some(right),
            Some(attempted_at),
        ) => Ok(
            Attempt {
                id: Some(id),
                session_id,
                card_id,
                user_answer,
                is_correct: right != 0,
                time_taken: small_integer_in(&row[5]),
                attempted_at,
            },
        ),
        _ => Err(StoreError::StatementFailure),
    }
}

/// A record that can be read from a row.
pub trait Record: View + Sized {
    /// The record that a row holds.
    spec fn of_row(row: Seq<FieldView>) -> Result<Self::V, StoreError>;

    /// Reads the record that a row holds.
    fn from_row(row: &Vec<Field>) -> (outcome: Result<Self, StoreError>)
        ensures
            match outcome {
                Ok(record) => Self::of_row(field_views(row@)) == Ok::<Self::V, StoreError>(record@),
                Err(error) => Self::of_row(field_views(row@)) == Err::<Self::V, StoreError>(error),
            },
    ;
}

impl Record for Card {
    open spec fn of_row(row: Seq<FieldView>) -> Result<CardView, StoreError> {
        card_of_row(row)
    }

    fn from_row(row: &Vec<Field>) -> (outcome: Result<Card, StoreError>) {
        card_from_row(row)
    }
}

impl Record for Session {
    open spec fn of_row(row: Seq<FieldView>) -> Result<SessionView, StoreError> {
        session_of_row(row)
    }

    fn from_row(row: &Vec<Field>) -> (outcome: Result<Session, StoreError>) {
        session_from_row(row)
    }
}

impl Record for Attempt {
    open spec fn of_row(row: Seq<FieldView>) -> Result<AttemptView, StoreError> {
        attempt_of_row(row)
    }

    fn from_row(row: &Vec<Field>) -> (outcome: Result<Attempt, StoreError>) {
        attempt_from_row(row)
    }
}

/// Whether every row holds a record.
pub open spec fn rows_readable<R: Record>(rows: Seq<Seq<FieldView>>) -> bool {
    forall|k: int| 0 <= k < rows.len() ==> R::of_row(#[trigger] rows[k]) is Ok
}

/// Reads the records that the rows of a result hold, in their order. The
/// first row that holds no record fails the whole read.
pub fn records_from_rows<R: Record>(rows: &Vec<Vec<Field>>) -> (outcome: Result<Vec<R>, StoreError>)
    ensures
        match outcome {
            Ok(records) => records@.len() == rows@.len() && forall|k: int|
                0 <= k < rows@.len() ==> R::of_row(#[trigger] row_views(rows@)[k]) == Ok::<
                    R::V,
                    StoreError,
                >(records@[k]@),
            Err(error) => error == StoreError::StatementFailure && !rows_readable::<R>(
                row_views(rows@),
            ),
        },
{
    let n = rows.len();
    let ghost given = row_views(rows@);
    let mut records: Vec<R> = Vec::new();
    let mut i: usize = 0;
    while i < n
        invariant
            i <= n,
            n == rows@.len(),
            given == row_views(rows@),
            records@.len() == i,
            forall|k: int|
                0 <= k < i ==> R::of_row(#[trigger] given[k]) == Ok::<R::V, StoreError>(
                    records@[k]@,
                ),
        decreases n - i,
    {
        assert(given[i as int] == field_views(rows@[i as int]@));
        match R::from_row(&rows[i]) {
            Ok(record) => {
                records.push(record);
            },
            Err(_) => {
                assert(R::of_row(given[i as int]) is Err);
                return Err(StoreError::StatementFailure);
            },
        }
        i = i + 1;
    }
    Ok(records)
}

/// Whether every one of the first `count` rows holds a card.
pub open spec fn cards_readable(rows: Seq<Seq<FieldView>>, count: int) -> bool {
    forall|k: int| 0 <= k < count ==> card_of_row(#[trigger] rows[k]) is Ok
}

/// Reads the cards that the rows of a result hold, in their order. The
/// first row that holds no card fails the whole read.
pub fn cards_from_rows(rows: &Vec<Vec<Field>>) -> (outcome: Result<Vec<Card>, StoreError>)
    ensures
        match outcome {
            Ok(cards) => cards@.len() == rows@.len() && forall|k: int|
                0 <= k < rows@.len() ==> card_of_row(#[trigger] row_views(rows@)[k]) == Ok::<
                    CardView,
                    StoreError,
                >(card_views(cards@)[k]),
            Err(error) => error == StoreError::StatementFailure && !cards_readable(
                row_views(rows@),
                rows@.len() as int,
            ),
        },
{
    records_from_rows::<Card>(rows)
}

/// Whether every one of the first `count` rows holds a session.
pub open spec fn sessions_readable(rows: Seq<Seq<FieldView>>, count: int) -> bool {
    forall|k: int| 0 <= k < count ==> session_of_row(#[trigger] rows[k]) is Ok
}

/// Reads the sessions that the rows of a result hold, in their order. The
/// first row that holds no session fails the whole read.
pub fn sessions_from_rows(rows: &Vec<Vec<Field>>) -> (outcome: Result<Vec<Session>, StoreError>)
    ensures
        match outcome {
            Ok(sessions) => sessions@.len() == rows@.len() && forall|k: int|
                0 <= k < rows@.len() ==> session_of_row(#[trigger] row_views(rows@)[k]) == Ok::<
                    SessionView,
                    StoreError,
                >(session_views(sessions@)[k]),
            Err(error) => error == StoreError::StatementFailure && !sessions_readable(
                row_views(rows@),
                rows@.len() as int,
            ),
        },
{
    records_from_rows::<Session>(rows)
}

/// Whether every one of the first `count` rows holds an attempt.
pub open spec fn attempts_readable(rows: Seq<Seq<FieldView>>, count: int) -> bool {
    forall|k: int| 0 <= k < count ==> attempt_of_row(#[trigger] rows[k]) is Ok
}

/// Reads the attempts that the rows of a result hold, in their order. The
/// first row that holds no attempt fails the whole read.
pub fn attempts_from_rows(rows: &Vec<Vec<Field>>) -> (outcome: Result<Vec<Attempt>, StoreError>)
    ensures
        match outcome {
            Ok(attempts) => attempts@.len() == rows@.len() && forall|k: int|
                0 <= k < rows@.len() ==> attempt_of_row(#[trigger] row_views(rows@)[k]) == Ok::<
                    AttemptView,
                    StoreError,
                >(attempt_views(attempts@)[k]),
            Err(error) => error == StoreError::StatementFailure && !attempts_readable(
                row_views(rows@),
                rows@.len() as int,
            ),
        },
{
    records_from_rows::<Attempt>(rows)
}

/// A stored card that was written as a row is read back as it was.
pub proof fn law_card_row_round_trip(card: CardView)
    requires
        card.id is Some,
    ensures
        card_of_row(card_row(card)) == Ok::<CardView, StoreError>(card),
{
}

/// A stored session that was written as a row is read back as it was.
pub proof fn law_session_row_round_trip(session: SessionView)
    requires
        session.id is Some,
    ensures
        session_of_row(session_row(session)) == Ok::<SessionView, StoreError>(session),
{
}

/// A stored attempt that was written as a row is read back as it was.
pub proof fn law_attempt_row_round_trip(attempt: AttemptView)
    requires
        attempt.id is Some,
    ensures
        attempt_of_row(attempt_row(attempt)) == Ok::<AttemptView, StoreError>(attempt),
{
}

} // verus!
