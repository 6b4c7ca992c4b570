//! The store as a mathematical value, and what each operation makes of it.
//!
//! Rows are kept in the order of their ids. Ids are handed out in ascending
//! order and never reused. The time of creation that a card carries is the
//! caller's and need not ascend with the ids; cards are listed by it.

use vstd::prelude::*;
use crate::error::StoreError;
use crate::listing::{ids_differ, is_listing, lemma_listing_exists};
use crate::model::{AttemptView, CardView, SessionView};
use crate::schema::Schema;

verus! {

/// Everything that a storage location holds.
pub struct StoreView {
    pub schema: Schema,
    pub cards: Seq<CardView>,
    pub sessions: Seq<SessionView>,
    pub attempts: Seq<AttemptView>,
    /// The largest id ever given to a card; 0 before the first.
    pub last_card_id: i64,
    /// The largest id ever given to a session; 0 before the first.
    pub last_session_id: i64,
    /// The largest id ever given to an attempt; 0 before the first.
    pub last_attempt_id: i64,
}

/// The id of a stored record as an integer; 0 where there is none.
pub open spec fn id_number(id: Option<i64>) -> int {
    match id {
        Some(n) => n as int,
        None => 0,
    }
}

/// The ids are positive, at most `last`, and strictly ascending.
pub open spec fn ids_ascend(ids: Seq<int>, last: int) -> bool {
    &&& forall|i: int| 0 <= i < ids.len() ==> 1 <= #[trigger] ids[i] <= last
    &&& forall|i: int, j: int| 0 <= i < j < ids.len() ==> #[trigger] ids[i] < #[trigger] ids[j]
}

/// The ids of the cards, in their order.
pub open spec fn card_ids(cards: Seq<CardView>) -> Seq<int> {
    Seq::new(cards.len(), |i: int| id_number(cards[i].id))
}

/// The ids of the sessions, in their order.
pub open spec fn session_ids(sessions: Seq<SessionView>) -> Seq<int> {
    Seq::new(sessions.len(), |i: int| id_number(sessions[i].id))
}

/// The ids of the attempts, in their order.
pub open spec fn attempt_ids(attempts: Seq<AttemptView>) -> Seq<int> {
    Seq::new(attempts.len(), |i: int| id_number(attempts[i].id))
}

/// The card table is sound: stored cards only, with ascending ids.
pub open spec fn cards_sound(cards: Seq<CardView>, last: int) -> bool {
    &&& forall|i: int| 0 <= i < cards.len() ==> (#[trigger] cards[i]).is_stored()
    &&& ids_ascend(card_ids(cards), last)
}

/// The session table is sound: stored sessions only, with ascending ids.
pub open spec fn sessions_sound(sessions: Seq<SessionView>, last: int) -> bool {
    &&& forall|i: int| 0 <= i < sessions.len() ==> (#[trigger] sessions[i]).is_stored()
    &&& ids_ascend(session_ids(sessions), last)
}

/// The attempt table is sound: stored attempts only, with ascending ids.
pub open spec fn attempts_sound(attempts: Seq<AttemptView>, last: int) -> bool {
    &&& forall|i: int| 0 <= i < attempts.len() ==> (#[trigger] attempts[i]).is_stored()
    &&& ids_ascend(attempt_ids(attempts), last)
}

impl StoreView {
    /// The invariant of the store: each table is sound, and a table that
    /// does not exist yet holds no rows.
    pub open spec fn wf(self) -> bool {
        &&& 0 <= self.last_card_id
        &&& 0 <= self.last_session_id
        &&& 0 <= self.last_attempt_id
        &&& cards_sound(self.cards, self.last_card_id as int)
        &&& sessions_sound(self.sessions, self.last_session_id as int)
        &&& attempts_sound(self.attempts, self.last_attempt_id as int)
        &&& !self.schema.cards_table ==> self.cards.len() == 0
        &&& !self.schema.sessions_table ==> self.sessions.len() == 0
        &&& !self.schema.attempts_table ==> self.attempts.len() == 0
    }

    /// A location at which nothing was ever created.
    pub open spec fn fresh() -> StoreView {
        StoreView {
            schema: Schema::vacant(),
            cards: Seq::empty(),
            sessions: Seq::empty(),
            attempts: Seq::empty(),
            last_card_id: 0,
            last_session_id: 0,
            last_attempt_id: 0,
        }
    }

    /// The store after the create-if-absent step: the schema is complete
    /// and the rows are what they were.
    pub open spec fn prepared(self) -> StoreView {
        StoreView { schema: Schema::completed(), ..self }
    }

    /// Whether a card with this id is stored.
    pub open spec fn has_card(self, id: i64) -> bool {
        exists|i: int| 0 <= i < self.cards.len() && (#[trigger] self.cards[i]).id == Some(id)
    }

    /// Whether a session with this id is stored.
    pub open spec fn has_session(self, id: i64) -> bool {
        exists|i: int| 0 <= i < self.sessions.len() && (#[trigger] self.sessions[i]).id == Some(id)
    }

    /// What creating `card` returns: the next id when the card is
    /// acceptable and an id is left, else a statement failure.
    pub open spec fn create_card_outcome(self, card: CardView) -> Result<i64, StoreError> {
        if card.acceptable() && self.last_card_id < i64::MAX {
            Ok((self.last_card_id + 1) as i64)
        } else {
            Err(StoreError::StatementFailure)
        }
    }

    /// The store after creating `card` at the time `now`.
    pub open spec fn after_create_card(self, card: CardView, now: Seq<char>) -> StoreView {
        match self.create_card_outcome(card) {
            Ok(id) => StoreView {
                cards: self.cards.push(card.stored(id, now)),
                last_card_id: id,
                ..self.prepared()
            },
            Err(_) => self.prepared(),
        }
    }

    /// All cards in listing order: by creation time, the most recent
    /// first, and of equal times the later id first.
    pub open spec fn all_cards(self) -> Seq<CardView> {
        choose|listing: Seq<CardView>| is_listing(listing, self.cards)
    }

    /// The cards whose subject is exactly `subject`, in listing order.
    pub open spec fn cards_by_subject(self, subject: Seq<char>) -> Seq<CardView> {
        self.all_cards().filter(|card: CardView| card.subject == subject)
    }

    /// What updating the card `id` with `card` returns: a statement failure
    /// when the row exists and `card` may not be written, else success.
    pub open spec fn update_card_outcome(self, id: i64, card: CardView) -> Result<(), StoreError> {
        if self.has_card(id) && !card.acceptable() {
            Err(StoreError::StatementFailure)
        } else {
            Ok(())
        }
    }

    /// The store after updating the card `id` with `card` at the time
    /// `now`: the row with that id is replaced, every other row is kept.
    pub open spec fn after_update_card(self, id: i64, card: CardView, now: Seq<char>) -> StoreView {
        if card.acceptable() {
            StoreView {
                cards: self.cards.map_values(
                    |row: CardView|
                        if row.id == Some(id) {
                            row.replaced_by(card, now)
                        } else {
                            row
                        },
                ),
                ..self.prepared()
            }
        } else {
            self.prepared()
        }
    }

    /// The store after deleting the card `id`: its attempts are gone, and
    /// so is the card.
    pub open spec fn after_delete_card(self, id: i64) -> StoreView {
        StoreView {
            attempts: self.attempts.filter(|attempt: AttemptView| attempt.card_id != id),
            cards: self.cards.filter(|card: CardView| card.id != Some(id)),
            ..self.prepared()
        }
    }

    /// What creating a session returns: the next id while one is left.
    pub open spec fn create_session_outcome(self) -> Result<i64, StoreError> {
        if self.last_session_id < i64::MAX {
            Ok((self.last_session_id + 1) as i64)
        } else {
            Err(StoreError::StatementFailure)
        }
    }

    /// The store after creating `session`.
    pub open spec fn after_create_session(self, session: SessionView) -> StoreView {
        match self.create_session_outcome() {
            Ok(id) => StoreView {
                sessions: self.sessions.push(session.opened(id)),
                last_session_id: id,
                ..self.prepared()
            },
            Err(_) => self.prepared(),
        }
    }

    /// The store after ending the session `id` at the time `now` with
    /// `correct` right answers. A session that was ended before is ended
    /// again: the later call decides.
    pub open spec fn after_end_session(self, id: i64, correct: i32, now: Seq<char>) -> StoreView {
        StoreView {
            sessions: self.sessions.map_values(
                |row: SessionView|
                    if row.id == Some(id) {
                        row.ended(correct, now)
                    } else {
                        row
                    },
            ),
            ..self.prepared()
        }
    }

    /// What reading the session `id` returns.
    pub open spec fn session(self, id: i64) -> Result<SessionView, StoreError> {
        if self.has_session(id) {
            Ok(
                self.sessions[choose|i: int|
                    0 <= i < self.sessions.len() && (#[trigger] self.sessions[i]).id == Some(id)],
            )
        } else {
            Err(StoreError::NotFound)
        }
    }

    /// What reading the card `id` returns.
    pub open spec fn card(self, id: i64) -> Result<CardView, StoreError> {
        if self.has_card(id) {
            Ok(
                self.cards[choose|i: int|
                    0 <= i < self.cards.len() && (#[trigger] self.cards[i]).id == Some(id)],
            )
        } else {
            Err(StoreError::NotFound)
        }
    }

    /// What recording an attempt returns: the next id while one is left.
    pub open spec fn record_attempt_outcome(self) -> Result<i64, StoreError> {
        if self.last_attempt_id < i64::MAX {
            Ok((self.last_attempt_id + 1) as i64)
        } else {
            Err(StoreError::StatementFailure)
        }
    }

    /// The store after recording `attempt`. Whether the session and the
    /// card that it names exist is not asked.
    pub open spec fn after_record_attempt(self, attempt: AttemptView) -> StoreView {
        match self.record_attempt_outcome() {
            Ok(id) => StoreView {
                attempts: self.attempts.push(attempt.recorded(id)),
                last_attempt_id: id,
                ..self.prepared()
            },
            Err(_) => self.prepared(),
        }
    }
}

/// The cards of a sound table have different ids.
pub proof fn lemma_sound_cards_differ(cards: Seq<CardView>, last: int)
    requires
        cards_sound(cards, last),
    ensures
        ids_differ(cards),
{
    assert forall|i: int, j: int| 0 <= i < j < cards.len() implies id_number(
        (#[trigger] cards[i]).id,
    ) != id_number((#[trigger] cards[j]).id) by {
        assert(card_ids(cards)[i] < card_ids(cards)[j]);
    }
}

/// The listing of a sound store holds exactly its cards, in listing
/// order.
pub proof fn lemma_all_cards_listed(store: StoreView)
    requires
        store.wf(),
    ensures
        is_listing(store.all_cards(), store.cards),
{
    lemma_sound_cards_differ(store.cards, store.last_card_id as int);
    lemma_listing_exists(store.cards);
}

/// Filtering keeps a table sound: the rows that stay are still in
/// ascending order of their ids.
pub proof fn lemma_filtered_ids_ascend<A>(
    rows: Seq<A>,
    keep: spec_fn(A) -> bool,
    id_of: spec_fn(A) -> int,
    last: int,
)
    requires
        ids_ascend(Seq::new(rows.len(), |i: int| id_of(rows[i])), last),
    ensures
        ids_ascend(Seq::new(rows.filter(keep).len(), |i: int| id_of(rows.filter(keep)[i])), last),
        forall|k: int|
            0 <= k < rows.filter(keep).len() ==> rows.contains(#[trigger] rows.filter(keep)[k]),
        rows.len() > 0 ==> forall|k: int|
            0 <= k < rows.filter(keep).len() ==> id_of(#[trigger] rows.filter(keep)[k]) <= id_of(
                rows.last(),
            ),
    decreases rows.len(),
{
    reveal(Seq::filter);
    let ids = Seq::new(rows.len(), |i: int| id_of(rows[i]));
    if rows.len() > 0 {
        let rest = rows.drop_last();
        let rest_ids = Seq::new(rest.len(), |i: int| id_of(rest[i]));
        assert forall|i: int| 0 <= i < rest.len() implies 1 <= #[trigger] rest_ids[i] <= last by {
            assert(rest_ids[i] == ids[i]);
        }
        assert forall|i: int, j: int| 0 <= i < j < rest.len() implies #[trigger] rest_ids[i]
            < #[trigger] rest_ids[j] by {
            assert(rest_ids[i] == ids[i]);
            assert(rest_ids[j] == ids[j]);
        }
        lemma_filtered_ids_ascend(rest, keep, id_of, last);
        let kept_rest = rest.filter(keep);
        let kept = rows.filter(keep);
        let kept_ids = Seq::new(kept.len(), |i: int| id_of(kept[i]));
        let kept_rest_ids = Seq::new(kept_rest.len(), |i: int| id_of(kept_rest[i]));
        assert(ids[rows.len() - 1] == id_of(rows.last()));
        assert forall|k: int| 0 <= k < kept_rest.len() implies id_of(#[trigger] kept_rest[k]) < id_of(
            rows.last(),
        ) by {
            if rest.len() > 0 {
                assert(id_of(kept_rest[k]) <= id_of(rest.last()));
                assert(ids[rest.len() - 1] == id_of(rest.last()));
                assert(ids[rest.len() - 1] < ids[rows.len() - 1]);
            }
        }
        assert forall|k: int| 0 <= k < kept.len() implies rows.contains(#[trigger] kept[k]) by {
            if k < kept_rest.len() {
                assert(rest.contains(kept_rest[k]));
                let w = choose|w: int| 0 <= w < rest.len() && rest[w] == kept_rest[k];
                assert(rows[w] == rest[w]);
            } else {
                assert(rows[rows.len() - 1] == rows.last());
            }
        }
        assert forall|k: int| 0 <= k < kept.len() implies 1 <= #[trigger] kept_ids[k] <= last by {
            if k < kept_rest.len() {
                assert(kept_rest_ids[k] == kept_ids[k]);
            }
        }
        assert forall|i: int, j: int| 0 <= i < j < kept.len() implies #[trigger] kept_ids[i]
            < #[trigger] kept_ids[j] by {
            if j < kept_rest.len() {
                assert(kept_rest_ids[i] == kept_ids[i]);
                assert(kept_rest_ids[j] == kept_ids[j]);
            } else {
                assert(kept[i] == kept_rest[i]);
            }
        }
    }
}

/// Leaving cards out of a sound table leaves a sound table.
pub proof fn lemma_filtered_cards_sound(cards: Seq<CardView>, keep: spec_fn(CardView) -> bool, last: int)
    requires
        cards_sound(cards, last),
    ensures
        cards_sound(cards.filter(keep), last),
{
    let id_of = |card: CardView| id_number(card.id);
    let kept = cards.filter(keep);
    assert(card_ids(cards) =~= Seq::new(cards.len(), |i: int| id_of(cards[i])));
    lemma_filtered_ids_ascend(cards, keep, id_of, last);
    assert(card_ids(kept) =~= Seq::new(kept.len(), |i: int| id_of(kept[i])));
    assert forall|k: int| 0 <= k < kept.len() implies (#[trigger] kept[k]).is_stored() by {
        assert(cards.contains(kept[k]));
    }
}

/// Leaving attempts out of a sound table leaves a sound table.
pub proof fn lemma_filtered_attempts_sound(
    attempts: Seq<AttemptView>,
    keep: spec_fn(AttemptView) -> bool,
    last: int,
)
    requires
        attempts_sound(attempts, last),
    ensures
        attempts_sound(attempts.filter(keep), last),
{
    let id_of = |attempt: AttemptView| id_number(attempt.id);
    let kept = attempts.filter(keep);
    assert(attempt_ids(attempts) =~= Seq::new(attempts.len(), |i: int| id_of(attempts[i])));
    lemma_filtered_ids_ascend(attempts, keep, id_of, last);
    assert(attempt_ids(kept) =~= Seq::new(kept.len(), |i: int| id_of(kept[i])));
    assert forall|k: int| 0 <= k < kept.len() implies (#[trigger] kept[k]).is_stored() by {
        assert(attempts.contains(kept[k]));
    }
}

} // verus!
