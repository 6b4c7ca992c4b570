//! The three record types of the deck and what the store keeps of each.

use vstd::prelude::*;
use vstd::string::StringExecFns;

verus! {

/// A question card. A card handed in by a caller may leave `id` and the two
/// stamps empty; a stored card has all three set.
#[derive(Debug)]
pub struct Card {
    pub id: Option<i64>,
    pub question: String,
    pub option_a: Option<String>,
    pub option_b: Option<String>,
    pub option_c: Option<String>,
    pub option_d: Option<String>,
    pub option_e: Option<String>,
    pub correct_answer: Option<String>,
    pub blank_answer: Option<String>,
    pub question_type: String,
    pub subject: String,
    pub difficulty: i32,
    pub image_path: Option<String>,
    pub created_at: Option<String>,
    pub updated_at: Option<String>,
}

/// One practice or test run.
#[derive(Debug)]
pub struct Session {
    pub id: Option<i64>,
    pub started_at: String,
    pub ended_at: Option<String>,
    pub total_questions: i32,
    pub correct_answers: Option<i32>,
    pub session_type: String,
}

/// One recorded answer to a card within a session.
#[derive(Debug)]
pub struct Attempt {
    pub id: Option<i64>,
    pub session_id: i64,
    pub card_id: i64,
    pub user_answer: String,
    pub is_correct: bool,
    pub time_taken: Option<i32>,
    pub attempted_at: String,
}

/// A card as a mathematical value.
pub struct CardView {
    pub id: Option<i64>,
    pub question: Seq<char>,
    pub option_a: Option<Seq<char>>,
    pub option_b: Option<Seq<char>>,
    pub option_c: Option<Seq<char>>,
    pub option_d: Option<Seq<char>>,
    pub option_e: Option<Seq<char>>,
    pub correct_answer: Option<Seq<char>>,
    pub blank_answer: Option<Seq<char>>,
    pub question_type: Seq<char>,
    pub subject: Seq<char>,
    pub difficulty: i32,
    pub image_path: Option<Seq<char>>,
    pub created_at: Option<Seq<char>>,
    pub updated_at: Option<Seq<char>>,
}

/// A session as a mathematical value.
pub struct SessionView {
    pub id: Option<i64>,
    pub started_at: Seq<char>,
    pub ended_at: Option<Seq<char>>,
    pub total_questions: i32,
    pub correct_answers: Option<i32>,
    pub session_type: Seq<char>,
}

/// An attempt as a mathematical value.
pub struct AttemptView {
    pub id: Option<i64>,
    pub session_id: i64,
    pub card_id: i64,
    pub user_answer: Seq<char>,
    pub is_correct: bool,
    pub time_taken: Option<i32>,
    pub attempted_at: Seq<char>,
}

/// The characters of an optional text.
pub open spec fn text_of(text: Option<String>) -> Option<Seq<char>> {
    match text {
        Some(s) => Some(s@),
        None => None,
    }
}

/// An absent text reads as the empty text.
pub open spec fn or_empty(text: Option<Seq<char>>) -> Option<Seq<char>> {
    match text {
        Some(s) => Some(s),
        None => Some(Seq::<char>::empty()),
    }
}

impl View for Card {
    type V = CardView;

    open spec fn view(&self) -> CardView {
        CardView {
            id: self.id,
            question: self.question@,
            option_a: text_of(self.option_a),
            option_b: text_of(self.option_b),
            option_c: text_of(self.option_c),
            option_d: text_of(self.option_d),
            option_e: text_of(self.option_e),
            correct_answer: text_of(self.correct_answer),
            blank_answer: text_of(self.blank_answer),
            question_type: self.question_type@,
            subject: self.subject@,
            difficulty: self.difficulty,
            image_path: text_of(self.image_path),
            created_at: text_of(self.created_at),
            updated_at: text_of(self.updated_at),
        }
    }
}

impl View for Session {
    type V = SessionView;

    open spec fn view(&self) -> SessionView {
        SessionView {
            id: self.id,
            started_at: self.started_at@,
            ended_at: text_of(self.ended_at),
            total_questions: self.total_questions,
            correct_answers: self.correct_answers,
            session_type: self.session_type@,
        }
    }
}

impl View for Attempt {
    type V = AttemptView;

    open spec fn view(&self) -> AttemptView {
        AttemptView {
            id: self.id,
            session_id: self.session_id,
            card_id: self.card_id,
            user_answer: self.user_answer@,
            is_correct: self.is_correct,
            time_taken: self.time_taken,
            attempted_at: self.attempted_at@,
        }
    }
}

/// The cards of a vector as mathematical values.
pub open spec fn card_views(cards: Seq<Card>) -> Seq<CardView> {
    cards.map_values(|card: Card| card@)
}

/// The sessions of a vector as mathematical values.
pub open spec fn session_views(sessions: Seq<Session>) -> Seq<SessionView> {
    sessions.map_values(|session: Session| session@)
}

/// The attempts of a vector as mathematical values.
pub open spec fn attempt_views(attempts: Seq<Attempt>) -> Seq<AttemptView> {
    attempts.map_values(|attempt: Attempt| attempt@)
}

/// The two question types that a card may carry.
pub open spec fn known_question_type(tag: Seq<char>) -> bool {
    tag == "multiple_choice"@ || tag == "fill_in_blank"@
}

impl CardView {
    /// What a card must satisfy to be written: a question, a subject, one
    /// of the two question types, and a positive difficulty.
    pub open spec fn acceptable(self) -> bool {
        &&& self.question.len() > 0
        &&& self.subject.len() > 0
        &&& known_question_type(self.question_type)
        &&& self.difficulty >= 1
    }

    /// The caller's fields as the store writes them: absent optional texts
    /// become empty texts, everything else is kept. The id and the stamps
    /// are left untouched.
    pub open spec fn with_defaults(self) -> CardView {
        CardView {
            option_a: or_empty(self.option_a),
            option_b: or_empty(self.option_b),
            option_c: or_empty(self.option_c),
            option_d: or_empty(self.option_d),
            option_e: or_empty(self.option_e),
            correct_answer: or_empty(self.correct_answer),
            blank_answer: or_empty(self.blank_answer),
            image_path: or_empty(self.image_path),
            ..self
        }
    }

    /// The card that creation stores for the caller's card: its fields with
    /// defaults, under the new id, stamped `now` as created and updated.
    pub open spec fn stored(self, id: i64, now: Seq<char>) -> CardView {
        CardView { id: Some(id), created_at: Some(now), updated_at: Some(now), ..self.with_defaults() }
    }

    /// The card that an update leaves in place of `self`: every mutable
    /// field taken from `replacement`, the id and the creation stamp kept,
    /// the update stamp refreshed to `now`.
    pub open spec fn replaced_by(self, replacement: CardView, now: Seq<char>) -> CardView {
        CardView {
            id: self.id,
            created_at: self.created_at,
            updated_at: Some(now),
            ..replacement.with_defaults()
        }
    }

    /// Whether two cards agree on every field that a caller supplies, once
    /// absent optional texts are read as empty.
    pub open spec fn same_content(self, other: CardView) -> bool {
        let a = self.with_defaults();
        let b = other.with_defaults();
        &&& a.question == b.question
        &&& a.option_a == b.option_a
        &&& a.option_b == b.option_b
        &&& a.option_c == b.option_c
        &&& a.option_d == b.option_d
        &&& a.option_e == b.option_e
        &&& a.correct_answer == b.correct_answer
        &&& a.blank_answer == b.blank_answer
        &&& a.question_type == b.question_type
        &&& a.subject == b.subject
        &&& a.difficulty == b.difficulty
        &&& a.image_path == b.image_path
    }

    /// What holds of every card that the store keeps.
    pub open spec fn is_stored(self) -> bool {
        &&& self.acceptable()
        &&& self.id is Some
        &&& self.option_a is Some
        &&& self.option_b is Some
        &&& self.option_c is Some
        &&& self.option_d is Some
        &&& self.option_e is Some
        &&& self.correct_answer is Some
        &&& self.blank_answer is Some
        &&& self.image_path is Some
        &&& self.created_at is Some
        &&& self.updated_at is Some
    }
}

impl SessionView {
    /// The session that creation stores: open, under the new id. Whatever
    /// the caller put into the two closing fields is not taken over.
    pub open spec fn opened(self, id: i64) -> SessionView {
        SessionView { id: Some(id), ended_at: None, correct_answers: None, ..self }
    }

    /// The session after it was ended at `now` with `correct` right answers.
    pub open spec fn ended(self, correct: i32, now: Seq<char>) -> SessionView {
        SessionView { ended_at: Some(now), correct_answers: Some(correct), ..self }
    }

    /// What holds of every session that the store keeps: it has an id, and
    /// the two closing fields are set together or not at all.
    pub open spec fn is_stored(self) -> bool {
        &&& self.id is Some
        &&& (self.ended_at is Some <==> self.correct_answers is Some)
    }
}

impl AttemptView {
    /// The attempt that recording stores: under the new id, with an absent
    /// duration read as zero seconds.
    pub open spec fn recorded(self, id: i64) -> AttemptView {
        AttemptView {
            id: Some(id),
            time_taken: Some(
                match self.time_taken {
                    Some(seconds) => seconds,
                    None => 0i32,
                },
            ),
            ..self
        }
    }

    /// What holds of every attempt that the store keeps.
    pub open spec fn is_stored(self) -> bool {
        self.id is Some && self.time_taken is Some
    }
}

/// Copies an optional text.
pub fn copy_text(text: &Option<String>) -> (copy: Option<String>)
    ensures
        text_of(copy) == text_of(*text),
{
    match text {
        Some(s) => Some(s.clone()),
        None => None,
    }
}

/// Copies an optional text, reading an absent one as the empty text.
pub fn text_or_empty(text: &Option<String>) -> (copy: Option<String>)
    ensures
        text_of(copy) == or_empty(text_of(*text)),
{
    match text {
        Some(s) => Some(s.clone()),
        None => Some(String::new()),
    }
}

/// Reports whether `tag` names one of the two question types.
pub fn is_known_question_type(tag: &String) -> (known: bool)
    ensures
        known == known_question_type(tag@),
{
    let choice = String::from_str("multiple_choice");
    let blank = String::from_str("fill_in_blank");
    *tag == choice || *tag == blank
}

impl Card {
    /// Reports whether the card may be written.
    pub fn is_acceptable(&self) -> (ok: bool)
        ensures
            ok == self@.acceptable(),
    {
        !self.question.as_str().is_empty() && !self.subject.as_str().is_empty()
            && is_known_question_type(&self.question_type) && self.difficulty >= 1
    }

    /// Reports whether the card has the form of a stored card: it may be
    /// written, and its id, its optional texts and its stamps are all set.
    pub fn is_stored_form(&self) -> (ok: bool)
        ensures
            ok == self@.is_stored(),
    {
        self.is_acceptable() && self.id.is_some() && self.option_a.is_some()
            && self.option_b.is_some() && self.option_c.is_some() && self.option_d.is_some()
            && self.option_e.is_some() && self.correct_answer.is_some()
            && self.blank_answer.is_some() && self.image_path.is_some()
            && self.created_at.is_some() && self.updated_at.is_some()
    }

    /// A copy of the card, field for field.
    pub fn duplicate(&self) -> (copy: Card)
        ensures
            copy@ == self@,
    {
        Card {
            id: self.id,
            question: self.question.clone(),
            option_a: copy_text(&self.option_a),
            option_b: copy_text(&self.option_b),
            option_c: copy_text(&self.option_c),
            option_d: copy_text(&self.option_d),
            option_e: copy_text(&self.option_e),
            correct_answer: copy_text(&self.correct_answer),
            blank_answer: copy_text(&self.blank_answer),
            question_type: self.question_type.clone(),
            subject: self.subject.clone(),
            difficulty: self.difficulty,
            image_path: copy_text(&self.image_path),
            created_at: copy_text(&self.created_at),
            updated_at: copy_text(&self.updated_at),
        }
    }

    /// The card as creation stores it under `id` at the time `now`.
    pub fn to_stored(&self, id: i64, now: &str) -> (card: Card)
        ensures
            card@ == self@.stored(id, now@),
    {
        Card {
            id: Some(id),
            question: self.question.clone(),
            option_a: text_or_empty(&self.option_a),
            option_b: text_or_empty(&self.option_b),
            option_c: text_or_empty(&self.option_c),
            option_d: text_or_empty(&self.option_d),
            option_e: text_or_empty(&self.option_e),
            correct_answer: text_or_empty(&self.correct_answer),
            blank_answer: text_or_empty(&self.blank_answer),
            question_type: self.question_type.clone(),
            subject: self.subject.clone(),
            difficulty: self.difficulty,
            image_path: text_or_empty(&self.image_path),
            created_at: Some(now.to_owned()),
            updated_at: Some(now.to_owned()),
        }
    }

    /// The card that an update at `now` leaves in place of `self` when the
    /// caller hands in `replacement`.
    pub fn to_replaced(&self, replacement: &Card, now: &str) -> (card: Card)
        ensures
            card@ == self@.replaced_by(replacement@, now@),
    {
        Card {
            id: self.id,
            question: replacement.question.clone(),
            option_a: text_or_empty(&replacement.option_a),
            option_b: text_or_empty(&replacement.option_b),
            option_c: text_or_empty(&replacement.option_c),
            option_d: text_or_empty(&replacement.option_d),
            option_e: text_or_empty(&replacement.option_e),
            correct_answer: text_or_empty(&replacement.correct_answer),
            blank_answer: text_or_empty(&replacement.blank_answer),
            question_type: replacement.question_type.clone(),
            subject: replacement.subject.clone(),
            difficulty: replacement.difficulty,
            image_path: text_or_empty(&replacement.image_path),
            created_at: copy_text(&self.created_at),
            updated_at: Some(now.to_owned()),
        }
    }
}

impl Session {
    /// Reports whether the session has the form of a stored session.
    pub fn is_stored_form(&self) -> (ok: bool)
        ensures
            ok == self@.is_stored(),
    {
        self.id.is_some() && self.ended_at.is_some() == self.correct_answers.is_some()
    }

    /// A copy of the session, field for field.
    pub fn duplicate(&self) -> (copy: Session)
        ensures
            copy@ == self@,
    {
        Session {
            id: self.id,
            started_at: self.started_at.clone(),
            ended_at: copy_text(&self.ended_at),
            total_questions: self.total_questions,
            correct_answers: self.correct_answers,
            session_type: self.session_type.clone(),
        }
    }

    /// The session as creation stores it under `id`.
    pub fn to_opened(&self, id: i64) -> (session: Session)
        ensures
            session@ == self@.opened(id),
    {
        Session {
            id: Some(id),
            started_at: self.started_at.clone(),
            ended_at: None,
            total_questions: self.total_questions,
            correct_answers: None,
            session_type: self.session_type.clone(),
        }
    }

    /// The session after it was ended at `now` with `correct` right answers.
    pub fn to_ended(&self, correct: i32, now: &str) -> (session: Session)
        ensures
            session@ == self@.ended(correct, now@),
    {
        Session {
            id: self.id,
            started_at: self.started_at.clone(),
            ended_at: Some(now.to_owned()),
            total_questions: self.total_questions,
            correct_answers: Some(correct),
            session_type: self.session_type.clone(),
        }
    }
}

impl Attempt {
    /// Reports whether the attempt has the form of a stored attempt.
    pub fn is_stored_form(&self) -> (ok: bool)
        ensures
            ok == self@.is_stored(),
    {
        self.id.is_some() && self.time_taken.is_some()
    }

    /// A copy of the attempt, field for field.
    pub fn duplicate(&self) -> (copy: Attempt)
        ensures
            copy@ == self@,
    {
        Attempt {
            id: self.id,
            session_id: self.session_id,
            card_id: self.card_id,
            user_answer: self.user_answer.clone(),
            is_correct: self.is_correct,
            time_taken: self.time_taken,
            attempted_at: self.attempted_at.clone(),
        }
    }

    /// The attempt as recording stores it under `id`.
    pub fn to_recorded(&self, id: i64) -> (attempt: Attempt)
        ensures
            attempt@ == self@.recorded(id),
    {
        let seconds: i32 = match self.time_taken {
            Some(s) => s,
            None => 0,
        };
        Attempt {
            id: Some(id),
            session_id: self.session_id,
            card_id: self.card_id,
            user_answer: self.user_answer.clone(),
            is_correct: self.is_correct,
            time_taken: Some(seconds),
            attempted_at: self.attempted_at.clone(),
        }
    }
}

/// A row of one of the three tables: what the check of a table asks of
/// each of its rows.
pub trait Row {
    /// The id of the row.
    spec fn row_id(&self) -> Option<i64>;

    /// Whether the row has the form of a stored row.
    spec fn row_is_stored(&self) -> bool;

    /// The id of the row.
    fn key(&self) -> (id: Option<i64>)
        ensures
            id == self.row_id(),
    ;

    /// Reports whether the row has the form of a stored row.
    fn has_stored_form(&self) -> (ok: bool)
        ensures
            ok == self.row_is_stored(),
    ;
}

impl Row for Card {
    open spec fn row_id(&self) -> Option<i64> {
        self.id
    }

    open spec fn row_is_stored(&self) -> bool {
        self@.is_stored()
    }

    fn key(&self) -> (id: Option<i64>) {
        self.id
    }

    fn has_stored_form(&self) -> (ok: bool) {
        self.is_stored_form()
    }
}

impl Row for Session {
    open spec fn row_id(&self) -> Option<i64> {
        self.id
    }

    open spec fn row_is_stored(&self) -> bool {
        self@.is_stored()
    }

    fn key(&self) -> (id: Option<i64>) {
        self.id
    }

    fn has_stored_form(&self) -> (ok: bool) {
        self.is_stored_form()
    }
}

impl Row for Attempt {
    open spec fn row_id(&self) -> Option<i64> {
        self.id
    }

    open spec fn row_is_stored(&self) -> bool {
        self@.is_stored()
    }

    fn key(&self) -> (id: Option<i64>) {
        self.id
    }

    fn has_stored_form(&self) -> (ok: bool) {
        self.is_stored_form()
    }
}

/// The place of the first row with the id `id`, if a row has that id.
pub fn find_row<R: Row>(rows: &Vec<R>, id: i64) -> (found: Option<usize>)
    ensures
        match found {
            Some(i) => i < rows@.len() && rows@[i as int].row_id() == Some(id) && forall|k: int|
                0 <= k < i ==> (#[trigger] rows@[k]).row_id() != Some(id),
            None => forall|k: int| 0 <= k < rows@.len() ==> (#[trigger] rows@[k]).row_id() != Some(id),
        },
{
    let n = rows.len();
    let mut i: usize = 0;
    while i < n
        invariant
            i <= n,
            n == rows@.len(),
            forall|k: int| 0 <= k < i ==> (#[trigger] rows@[k]).row_id() != Some(id),
        decreases n - i,
    {
        match rows[i].key() {
            Some(found) => {
                if found == id {
                    return Some(i);
                }
            },
            None => {},
        }
        i = i + 1;
    }
    None
}

} // verus!
