//! The store: the three tables held in memory, and the operations on them.
//!
//! Every operation first runs the create-if-absent step of the schema and
//! then reads or writes rows. Times are handed in by the caller as text;
//! the store only carries them.

use vstd::prelude::*;
use crate::error::StoreError;
use crate::model::{
    Attempt, AttemptView, Card, CardView, Row, Session, SessionView, attempt_views, card_views,
    find_row, session_views,
};
use crate::calendar::Date;
use crate::listing::{
    in_listing_order, is_listing, lemma_filter_keeps_listing_order, lemma_listing_insert,
    lemma_listing_members, lemma_listing_unique, stamp,
};
use crate::text::{comes_before, text_before};
use crate::schema::Schema;
use crate::state::{
    StoreView, attempt_ids, attempts_sound, card_ids, cards_sound, id_number, ids_ascend,
    lemma_all_cards_listed, lemma_filtered_attempts_sound, lemma_filtered_cards_sound,
    session_ids, sessions_sound,
};
use crate::stats::{
    DailyStat, SubjectStat, daily_stat_views, daily_stats, is_daily_report, is_subject_report,
    subject_stat_views, subject_stats,
};

verus! {

/// The ids of the rows, in their order.
pub open spec fn row_ids<R: Row>(rows: Seq<R>) -> Seq<int> {
    Seq::new(rows.len(), |i: int| id_number(rows[i].row_id()))
}

/// The rows form a sound table: stored rows only, with ascending ids.
pub open spec fn rows_sound<R: Row>(rows: Seq<R>, last: int) -> bool {
    &&& forall|i: int| 0 <= i < rows.len() ==> (#[trigger] rows[i]).row_is_stored()
    &&& ids_ascend(row_ids(rows), last)
}

/// Reports whether the rows form a sound table whose largest id ever given
/// is `last`: each has the form of a stored row, and the ids are positive,
/// ascending and at most `last`.
pub fn rows_are_sound<R: Row>(rows: &Vec<R>, last: i64) -> (ok: bool)
    ensures
        ok == rows_sound(rows@, last as int),
{
    let n = rows.len();
    let ghost ids = row_ids(rows@);
    let mut prev: i64 = 0;
    let mut i: usize = 0;
    while i < n
        invariant
            i <= n,
            n == rows@.len(),
            ids == row_ids(rows@),
            0 <= prev,
            i == 0 ==> prev == 0,
            i > 0 ==> prev == ids[i - 1],
            forall|k: int| 0 <= k < i ==> (#[trigger] rows@[k]).row_is_stored(),
            forall|k: int| 0 <= k < i ==> 1 <= #[trigger] ids[k] <= prev <= last,
            forall|a: int, b: int| 0 <= a < b < i ==> #[trigger] ids[a] < #[trigger] ids[b],
        decreases n - i,
    {
        assert(ids[i as int] == id_number(rows@[i as int].row_id()));
        if !rows[i].has_stored_form() {
            return false;
        }
        match rows[i].key() {
            Some(id) => {
                if id <= prev || id > last {
                    proof {
                        if i > 0 {
                            assert(ids[i - 1] == prev);
                        }
                        assert(!(1 <= ids[i as int] <= last) || (i > 0 && !(ids[i - 1]
                            < ids[i as int])));
                    }
                    return false;
                }
                prev = id;
            },
            None => {
                return false;
            },
        }
        i = i + 1;
    }
    true
}

/// Reports whether the cards form a sound table whose largest id ever
/// given is `last`.
pub fn cards_are_sound(cards: &Vec<Card>, last: i64) -> (ok: bool)
    ensures
        ok == cards_sound(card_views(cards@), last as int),
{
    proof {
        let views = card_views(cards@);
        assert(row_ids(cards@) =~= card_ids(views));
        assert forall|k: int| 0 <= k < cards@.len() implies (#[trigger] cards@[k]).row_is_stored()
            == views[k].is_stored() by {}
        assert forall|k: int| 0 <= k < views.len() implies (#[trigger] views[k]).is_stored()
            == cards@[k].row_is_stored() by {}
    }
    rows_are_sound(cards, last)
}

/// Reports whether the sessions form a sound table whose largest id ever
/// given is `last`.
pub fn sessions_are_sound(sessions: &Vec<Session>, last: i64) -> (ok: bool)
    ensures
        ok == sessions_sound(session_views(sessions@), last as int),
{
    proof {
        let views = session_views(sessions@);
        assert(row_ids(sessions@) =~= session_ids(views));
        assert forall|k: int| 0 <= k < sessions@.len() implies (
        #[trigger] sessions@[k]).row_is_stored() == views[k].is_stored() by {}
        assert forall|k: int| 0 <= k < views.len() implies (#[trigger] views[k]).is_stored()
            == sessions@[k].row_is_stored() by {}
    }
    rows_are_sound(sessions, last)
}

/// Reports whether the attempts form a sound table whose largest id ever
/// given is `last`.
pub fn attempts_are_sound(attempts: &Vec<Attempt>, last: i64) -> (ok: bool)
    ensures
        ok == attempts_sound(attempt_views(attempts@), last as int),
{
    proof {
        let views = attempt_views(attempts@);
        assert(row_ids(attempts@) =~= attempt_ids(views));
        assert forall|k: int| 0 <= k < attempts@.len() implies (
        #[trigger] attempts@[k]).row_is_stored() == views[k].is_stored() by {}
        assert forall|k: int| 0 <= k < views.len() implies (#[trigger] views[k]).is_stored()
            == attempts@[k].row_is_stored() by {}
    }
    rows_are_sound(attempts, last)
}

/// The creation time of a card as a text; empty where the card has none.
pub fn stamp_of(card: &Card) -> (text: &str)
    ensures
        text@ == stamp(card@),
{
    match &card.created_at {
        Some(created) => created.as_str(),
        None => {
            proof {
                reveal_strlit("");
            }
            assert(""@ =~= Seq::<char>::empty());
            ""
        },
    }
}

/// The place at which a card enters a listing when its id is later than
/// every id listed: behind the cards that were created later than it.
fn entry_place(listed: &Vec<Card>, card: &Card) -> (place: usize)
    ensures
        place <= listed@.len(),
        forall|a: int|
            0 <= a < place ==> text_before(stamp(card@), stamp((#[trigger] listed@[a])@)),
        place < listed@.len() ==> !text_before(stamp(card@), stamp(listed@[place as int]@)),
{
    let n = listed.len();
    let mut place: usize = 0;
    while place < n
        invariant
            place <= n,
            n == listed@.len(),
            forall|a: int|
                0 <= a < place ==> text_before(stamp(card@), stamp((#[trigger] listed@[a])@)),
        decreases n - place,
    {
        if !comes_before(stamp_of(card), stamp_of(&listed[place])) {
            return place;
        }
        place = place + 1;
    }
    place
}

/// The cards, sessions and attempts of one deck.
pub struct Store {
    schema: Schema,
    cards: Vec<Card>,
    sessions: Vec<Session>,
    attempts: Vec<Attempt>,
    last_card_id: i64,
    last_session_id: i64,
    last_attempt_id: i64,
}

impl View for Store {
    type V = StoreView;

    closed spec fn view(&self) -> StoreView {
        StoreView {
            schema: self.schema,
            cards: card_views(self.cards@),
            sessions: session_views(self.sessions@),
            attempts: attempt_views(self.attempts@),
            last_card_id: self.last_card_id,
            last_session_id: self.last_session_id,
            last_attempt_id: self.last_attempt_id,
        }
    }
}

impl Store {
    /// A store at a location where nothing was ever created.
    pub fn new() -> (store: Store)
        ensures
            store@ == StoreView::fresh(),
            store@.wf(),
    {
        let store = Store {
            schema: Schema::empty(),
            cards: Vec::new(),
            sessions: Vec::new(),
            attempts: Vec::new(),
            last_card_id: 0,
            last_session_id: 0,
            last_attempt_id: 0,
        };
        assert(store@.cards =~= Seq::<CardView>::empty());
        assert(store@.sessions =~= Seq::<SessionView>::empty());
        assert(store@.attempts =~= Seq::<AttemptView>::empty());
        store
    }

    /// A store that holds the given rows, as they were read from a storage
    /// location. The rows are taken over only if they form a sound store:
    /// each table is sound, no id is negative, and a table that the schema
    /// lacks has no rows. Anything else is a setup failure.
    pub fn from_parts(
        schema: Schema,
        cards: Vec<Card>,
        sessions: Vec<Session>,
        attempts: Vec<Attempt>,
        last_card_id: i64,
        last_session_id: i64,
        last_attempt_id: i64,
    ) -> (outcome: Result<Store, StoreError>)
        ensures
            ({
                let given = StoreView {
                    schema,
                    cards: card_views(cards@),
                    sessions: session_views(sessions@),
                    attempts: attempt_views(attempts@),
                    last_card_id,
                    last_session_id,
                    last_attempt_id,
                };
                match outcome {
                    Ok(store) => given.wf() && store@ == given,
                    Err(error) => !given.wf() && error == StoreError::SetupFailure,
                }
            }),
    {
        if last_card_id < 0 || last_session_id < 0 || last_attempt_id < 0 {
            return Err(StoreError::SetupFailure);
        }
        if !cards_are_sound(&cards, last_card_id) || !sessions_are_sound(&sessions, last_session_id)
            || !attempts_are_sound(&attempts, last_attempt_id) {
            return Err(StoreError::SetupFailure);
        }
        if (!schema.cards_table && cards.len() > 0) || (!schema.sessions_table && sessions.len() > 0)
            || (!schema.attempts_table && attempts.len() > 0) {
            return Err(StoreError::SetupFailure);
        }
        Ok(
            Store {
                schema,
                cards,
                sessions,
                attempts,
                last_card_id,
                last_session_id,
                last_attempt_id,
            },
        )
    }

    /// The schema objects that are present.
    pub fn schema(&self) -> (schema: Schema)
        ensures
            schema == self@.schema,
    {
        self.schema
    }

    /// The stored cards, in the order of their ids.
    pub fn cards(&self) -> (cards: &Vec<Card>)
        ensures
            card_views(cards@) == self@.cards,
    {
        &self.cards
    }

    /// The stored sessions, in the order of their ids.
    pub fn sessions(&self) -> (sessions: &Vec<Session>)
        ensures
            session_views(sessions@) == self@.sessions,
    {
        &self.sessions
    }

    /// The stored attempts, in the order of their ids.
    pub fn attempts(&self) -> (attempts: &Vec<Attempt>)
        ensures
            attempt_views(attempts@) == self@.attempts,
    {
        &self.attempts
    }

    /// The largest id ever given to a card; 0 before the first.
    pub fn last_card_id(&self) -> (id: i64)
        ensures
            id == self@.last_card_id,
    {
        self.last_card_id
    }

    /// The largest id ever given to a session; 0 before the first.
    pub fn last_session_id(&self) -> (id: i64)
        ensures
            id == self@.last_session_id,
    {
        self.last_session_id
    }

    /// The largest id ever given to an attempt; 0 before the first.
    pub fn last_attempt_id(&self) -> (id: i64)
        ensures
            id == self@.last_attempt_id,
    {
        self.last_attempt_id
    }

    /// Stores `card` as a new row stamped `now` and returns its id. A card
    /// without question or subject, with an unknown question type or with a
    /// difficulty below 1 is refused, and so is any card once the ids are
    /// used up; the rows are then left as they were.
    pub fn create_card(&mut self, card: Card, now: &str) -> (outcome: Result<i64, StoreError>)
        requires
            old(self)@.wf(),
        ensures
            outcome == old(self)@.create_card_outcome(card@),
            final(self)@ == old(self)@.after_create_card(card@, now@),
            final(self)@.wf(),
    {
        self.schema.ensure();
        if !card.is_acceptable() || self.last_card_id == i64::MAX {
            return Err(StoreError::StatementFailure);
        }
        let id: i64 = self.last_card_id + 1;
        self.last_card_id = id;
        let row = card.to_stored(id, now);
        proof {
            let before = card_views(self.cards@);
            let after = before.push(row@);
            assert(card_views(self.cards@.push(row)) =~= after);
            assert(card_ids(after) =~= card_ids(before).push(id as int));
            assert(card_ids(before) =~= card_ids(old(self)@.cards));
        }
        self.cards.push(row);
        Ok(id)
    }

    /// All cards, ordered by the time of their creation, the most recent
    /// first; of cards created at the same time, the one with the later id
    /// first. Creation times are compared as texts.
    pub fn get_all_cards(&mut self) -> (cards: Vec<Card>)
        requires
            old(self)@.wf(),
        ensures
            card_views(cards@) == old(self)@.all_cards(),
            is_listing(card_views(cards@), old(self)@.cards),
            cards@.len() == old(self)@.cards.len(),
            final(self)@ == old(self)@.prepared(),
            final(self)@.wf(),
    {
        self.schema.ensure();
        let n = self.cards.len();
        let ghost all = card_views(self.cards@);
        let ghost last = self.last_card_id as int;
        let mut listed: Vec<Card> = Vec::new();
        let mut i: usize = 0;
        proof {
            assert(all.take(0) =~= card_views(listed@));
        }
        while i < n
            invariant
                i <= n,
                n == self.cards@.len(),
                all == card_views(self.cards@),
                cards_sound(all, last),
                is_listing(card_views(listed@), all.take(i as int)),
            decreases n - i,
        {
            let place = entry_place(&listed, &self.cards[i]);
            let copy = self.cards[i].duplicate();
            proof {
                let before = card_views(listed@);
                let seen = all.take(i as int);
                let card = all[i as int];
                assert(card == self.cards@[i as int]@);
                lemma_listing_members(before, seen);
                assert forall|k: int| 0 <= k < seen.len() implies id_number((#[trigger] seen[k]).id)
                    < id_number(card.id) by {
                    assert(card_ids(all)[k] < card_ids(all)[i as int]);
                }
                assert forall|a: int| 0 <= a < place implies crate::listing::listed_before(
                    #[trigger] before[a],
                    card,
                ) by {
                    assert(before[a] == listed@[a]@);
                }
                if place < before.len() {
                    let here = before[place as int];
                    assert(here == listed@[place as int]@);
                    assert(before.contains(here));
                    assert(seen.contains(here));
                    let k = choose|k: int| 0 <= k < seen.len() && seen[k] == here;
                    assert(id_number(seen[k].id) < id_number(card.id));
                }
                lemma_listing_insert(before, seen, card, place as int);
                assert(all.take(i as int + 1) =~= seen.push(card));
                assert(card_views(listed@.insert(place as int, copy)) =~= before.insert(
                    place as int,
                    card,
                ));
            }
            listed.insert(place, copy);
            i = i + 1;
        }
        proof {
            assert(all.take(n as int) =~= all);
            lemma_all_cards_listed(old(self)@);
            lemma_listing_unique(card_views(listed@), old(self)@.all_cards());
            lemma_listing_members(card_views(listed@), all);
        }
        listed
    }

    /// The cards whose subject is exactly `subject`, letter case included,
    /// in the order in which all cards are listed: by creation time, the
    /// most recent first.
    pub fn get_cards_by_subject(&mut self, subject: &str) -> (cards: Vec<Card>)
        requires
            old(self)@.wf(),
        ensures
            card_views(cards@) == old(self)@.cards_by_subject(subject@),
            in_listing_order(card_views(cards@)),
            final(self)@ == old(self)@.prepared(),
            final(self)@.wf(),
    {
        let all = self.get_all_cards();
        let wanted = subject.to_owned();
        let ghost matches = |card: CardView| card.subject == subject@;
        let n = all.len();
        let mut chosen: Vec<Card> = Vec::new();
        let mut i: usize = 0;
        proof {
            assert(card_views(all@).take(0) =~= Seq::<CardView>::empty());
            reveal(Seq::filter);
            assert(card_views(chosen@) =~= Seq::<CardView>::empty());
        }
        while i < n
            invariant
                i <= n,
                n == all@.len(),
                wanted@ == subject@,
                matches == |card: CardView| card.subject == subject@,
                card_views(chosen@) == card_views(all@).take(i as int).filter(matches),
            decreases n - i,
        {
            proof {
                let seen = card_views(all@).take(i as int);
                let next = card_views(all@).take(i as int + 1);
                assert(next =~= seen.push(all@[i as int]@));
                seen.lemma_filter_push(all@[i as int]@, matches);
            }
            if all[i].subject == wanted {
                let copy = all[i].duplicate();
                assert(card_views(chosen@.push(copy)) =~= card_views(chosen@).push(copy@));
                chosen.push(copy);
            }
            i = i + 1;
        }
        proof {
            assert(card_views(all@).take(n as int) =~= card_views(all@));
            lemma_filter_keeps_listing_order(card_views(all@), matches);
        }
        chosen
    }

    /// The place of the card `id` among the rows, if it is stored.
    fn find_card(&self, id: i64) -> (found: Option<usize>)
        ensures
            match found {
                Some(i) => i < self.cards@.len() && self.cards@[i as int]@.id == Some(id),
                None => !self@.has_card(id),
            },
    {
        let found = find_row(&self.cards, id);
        proof {
            if found is None {
                assert forall|k: int| 0 <= k < self@.cards.len() implies (
                #[trigger] self@.cards[k]).id != Some(id) by {
                    assert(self@.cards[k] == self.cards@[k]@);
                }
            }
        }
        found
    }

    /// The place of the session `id` among the rows, if it is stored.
    fn find_session(&self, id: i64) -> (found: Option<usize>)
        ensures
            match found {
                Some(i) => i < self.sessions@.len() && self.sessions@[i as int]@.id == Some(id),
                None => !self@.has_session(id),
            },
    {
        let found = find_row(&self.sessions, id);
        proof {
            if found is None {
                assert forall|k: int| 0 <= k < self@.sessions.len() implies (
                #[trigger] self@.sessions[k]).id != Some(id) by {
                    assert(self@.sessions[k] == self.sessions@[k]@);
                }
            }
        }
        found
    }

    /// Reports whether a card with this id is stored.
    pub fn card_exists(&self, id: i64) -> (present: bool)
        ensures
            present == self@.has_card(id),
    {
        match self.find_card(id) {
            Some(i) => {
                assert(self@.cards[i as int].id == Some(id));
                true
            },
            None => false,
        }
    }

    /// Reports whether a session with this id is stored.
    pub fn session_exists(&self, id: i64) -> (present: bool)
        ensures
            present == self@.has_session(id),
    {
        match self.find_session(id) {
            Some(i) => {
                assert(self@.sessions[i as int].id == Some(id));
                true
            },
            None => false,
        }
    }

    /// Reads the card `id`; a card that is not stored is reported as not
    /// found.
    pub fn get_card(&self, id: i64) -> (outcome: Result<Card, StoreError>)
        requires
            self@.wf(),
        ensures
            match outcome {
                Ok(card) => self@.card(id) == Ok::<CardView, StoreError>(card@),
                Err(error) => self@.card(id) == Err::<CardView, StoreError>(error),
            },
    {
        match self.find_card(id) {
            Some(i) => {
                proof {
                    assert(self@.cards[i as int].id == Some(id));
                    let chosen = choose|k: int|
                        0 <= k < self@.cards.len() && (#[trigger] self@.cards[k]).id == Some(id);
                    assert(card_ids(self@.cards)[chosen] == id);
                    assert(card_ids(self@.cards)[i as int] == id);
                    assert(chosen == i);
                }
                Ok(self.cards[i].duplicate())
            },
            None => Err(StoreError::NotFound),
        }
    }

    /// Reads the session `id`; a session that is not stored is reported as
    /// not found.
    pub fn get_session(&self, id: i64) -> (outcome: Result<Session, StoreError>)
        requires
            self@.wf(),
        ensures
            match outcome {
                Ok(session) => self@.session(id) == Ok::<SessionView, StoreError>(session@),
                Err(error) => self@.session(id) == Err::<SessionView, StoreError>(error),
            },
    {
        match self.find_session(id) {
            Some(i) => {
                proof {
                    assert(self@.sessions[i as int].id == Some(id));
                    let chosen = choose|k: int|
                        0 <= k < self@.sessions.len() && (#[trigger] self@.sessions[k]).id == Some(
                            id,
                        );
                    assert(session_ids(self@.sessions)[chosen] == id);
                    assert(session_ids(self@.sessions)[i as int] == id);
                    assert(chosen == i);
                }
                Ok(self.sessions[i].duplicate())
            },
            None => Err(StoreError::NotFound),
        }
    }

    /// Overwrites every mutable field of the card `id` with those of `card`
    /// and stamps the row `now` as updated. Where no card has that id,
    /// nothing is written and the call still succeeds. Where the row exists
    /// and `card` may not be written, the row is kept and the call fails.
    pub fn update_card(&mut self, id: i64, card: Card, now: &str) -> (outcome: Result<
        (),
        StoreError,
    >)
        requires
            old(self)@.wf(),
        ensures
            outcome == old(self)@.update_card_outcome(id, card@),
            final(self)@ == old(self)@.after_update_card(id, card@, now@),
            final(self)@.wf(),
    {
        self.schema.ensure();
        let ghost before = self@.cards;
        let ghost replace = |row: CardView|
            if row.id == Some(id) {
                row.replaced_by(card@, now@)
            } else {
                row
            };
        match self.find_card(id) {
            Some(i) => {
                assert(before[i as int].id == Some(id));
                if !card.is_acceptable() {
                    return Err(StoreError::StatementFailure);
                }
                let row = self.cards[i].to_replaced(&card, now);
                self.cards.set(i, row);
                proof {
                    assert forall|k: int| 0 <= k < before.len() implies #[trigger] self@.cards[k]
                        == replace(before[k]) by {
                        if k != i {
                            assert(card_ids(before)[k] != card_ids(before)[i as int]);
                        }
                    }
                    assert(self@.cards =~= before.map_values(replace));
                    assert(card_ids(self@.cards) =~= card_ids(before));
                }
                Ok(())
            },
            None => {
                proof {
                    assert(before.map_values(replace) =~= before);
                }
                Ok(())
            },
        }
    }

    /// Deletes every attempt that refers to the card `id`, then the card
    /// itself. Where no card has that id, its attempts are deleted all the
    /// same and the call succeeds.
    pub fn delete_card(&mut self, id: i64)
        requires
            old(self)@.wf(),
        ensures
            final(self)@ == old(self)@.after_delete_card(id),
            final(self)@.wf(),
    {
        self.schema.ensure();
        let ghost other_card = |attempt: AttemptView| attempt.card_id != id;
        let ghost other_id = |card: CardView| card.id != Some(id);
        let ghost attempts_before = self@.attempts;
        let ghost cards_before = self@.cards;
        proof {
            lemma_filtered_attempts_sound(attempts_before, other_card, self.last_attempt_id as int);
            lemma_filtered_cards_sound(cards_before, other_id, self.last_card_id as int);
        }

        let n = self.attempts.len();
        let mut kept: Vec<Attempt> = Vec::new();
        let mut i: usize = 0;
        proof {
            reveal(Seq::filter);
            assert(attempts_before.take(0) =~= attempt_views(kept@));
        }
        while i < n
            invariant
                i <= n,
                n == self.attempts@.len(),
                attempts_before == attempt_views(self.attempts@),
                other_card == |attempt: AttemptView| attempt.card_id != id,
                attempt_views(kept@) == attempts_before.take(i as int).filter(other_card),
            decreases n - i,
        {
            proof {
                let seen = attempts_before.take(i as int);
                assert(attempts_before.take(i as int + 1) =~= seen.push(attempts_before[i as int]));
                seen.lemma_filter_push(attempts_before[i as int], other_card);
            }
            if self.attempts[i].card_id != id {
                let copy = self.attempts[i].duplicate();
                assert(attempt_views(kept@.push(copy)) =~= attempt_views(kept@).push(copy@));
                kept.push(copy);
            }
            i = i + 1;
        }
        assert(attempts_before.take(n as int) =~= attempts_before);
        self.attempts = kept;

        let n = self.cards.len();
        let mut kept: Vec<Card> = Vec::new();
        let mut i: usize = 0;
        proof {
            assert(cards_before.take(0) =~= card_views(kept@));
        }
        while i < n
            invariant
                i <= n,
                n == self.cards@.len(),
                cards_before == card_views(self.cards@),
                other_id == |card: CardView| card.id != Some(id),
                card_views(kept@) == cards_before.take(i as int).filter(other_id),
            decreases n - i,
        {
            proof {
                let seen = cards_before.take(i as int);
                assert(cards_before.take(i as int + 1) =~= seen.push(cards_before[i as int]));
                seen.lemma_filter_push(cards_before[i as int], other_id);
            }
            let keep = match self.cards[i].id {
                Some(found) => found != id,
                None => true,
            };
            if keep {
                let copy = self.cards[i].duplicate();
                assert(card_views(kept@.push(copy)) =~= card_views(kept@).push(copy@));
                kept.push(copy);
            }
            i = i + 1;
        }
        assert(cards_before.take(n as int) =~= cards_before);
        self.cards = kept;
    }

    /// Stores `session` as a new, open session and returns its id. The
    /// start time is the caller's; the two closing fields start empty.
    pub fn create_session(&mut self, session: Session) -> (outcome: Result<i64, StoreError>)
        requires
            old(self)@.wf(),
        ensures
            outcome == old(self)@.create_session_outcome(),
            final(self)@ == old(self)@.after_create_session(session@),
            final(self)@.wf(),
    {
        self.schema.ensure();
        if self.last_session_id == i64::MAX {
            return Err(StoreError::StatementFailure);
        }
        let id: i64 = self.last_session_id + 1;
        self.last_session_id = id;
        let row = session.to_opened(id);
        proof {
            let before = session_views(self.sessions@);
            let after = before.push(row@);
            assert(session_views(self.sessions@.push(row)) =~= after);
            assert(session_ids(after) =~= session_ids(before).push(id as int));
            assert(session_ids(before) =~= session_ids(old(self)@.sessions));
        }
        self.sessions.push(row);
        Ok(id)
    }

    /// Ends the session `id`: sets its end time to `now` and its count of
    /// right answers to `correct`. A session that was ended before is
    /// overwritten. Where no session has that id, nothing is written and
    /// the call still succeeds.
    pub fn end_session(&mut self, id: i64, correct: i32, now: &str)
        requires
            old(self)@.wf(),
        ensures
            final(self)@ == old(self)@.after_end_session(id, correct, now@),
            final(self)@.wf(),
    {
        self.schema.ensure();
        let ghost before = self@.sessions;
        let ghost end = |row: SessionView|
            if row.id == Some(id) {
                row.ended(correct, now@)
            } else {
                row
            };
        match self.find_session(id) {
            Some(i) => {
                assert(before[i as int].id == Some(id));
                let row = self.sessions[i].to_ended(correct, now);
                self.sessions.set(i, row);
                proof {
                    assert forall|k: int| 0 <= k < before.len() implies #[trigger] self@.sessions[k]
                        == end(before[k]) by {
                        if k != i {
                            assert(session_ids(before)[k] != session_ids(before)[i as int]);
                        }
                    }
                    assert(self@.sessions =~= before.map_values(end));
                    assert(session_ids(self@.sessions) =~= session_ids(before));
                }
            },
            None => {
                proof {
                    assert(before.map_values(end) =~= before);
                }
            },
        }
    }

    /// Appends `attempt` to the log and returns its id. An absent duration
    /// is stored as zero seconds. Whether the session and the card that the
    /// attempt names exist is not checked.
    pub fn record_attempt(&mut self, attempt: Attempt) -> (outcome: Result<i64, StoreError>)
        requires
            old(self)@.wf(),
        ensures
            outcome == old(self)@.record_attempt_outcome(),
            final(self)@ == old(self)@.after_record_attempt(attempt@),
            final(self)@.wf(),
    {
        self.schema.ensure();
        if self.last_attempt_id == i64::MAX {
            return Err(StoreError::StatementFailure);
        }
        let id: i64 = self.last_attempt_id + 1;
        self.last_attempt_id = id;
        let row = attempt.to_recorded(id);
        proof {
            let before = attempt_views(self.attempts@);
            let after = before.push(row@);
            assert(attempt_views(self.attempts@.push(row)) =~= after);
            assert(attempt_ids(after) =~= attempt_ids(before).push(id as int));
            assert(attempt_ids(before) =~= attempt_ids(old(self)@.attempts));
        }
        self.attempts.push(row);
        Ok(id)
    }

    /// The subject report over the stored cards and attempts: one entry for
    /// every subject that a card has, in ascending order of the subjects.
    pub fn get_subject_stats(&mut self) -> (report: Vec<SubjectStat>)
        requires
            old(self)@.wf(),
        ensures
            is_subject_report(subject_stat_views(report@), old(self)@.cards, old(self)@.attempts),
            final(self)@ == old(self)@.prepared(),
            final(self)@.wf(),
    {
        self.schema.ensure();
        proof {
            let cards = self@.cards;
            assert forall|i: int, j: int| 0 <= i < j < cards.len() implies (#[trigger] cards[i]).id != (
            #[trigger] cards[j]).id by {
                assert(card_ids(cards)[i] < card_ids(cards)[j]);
            }
        }
        subject_stats(&self.cards, &self.attempts)
    }

    /// The daily report over the stored sessions and attempts for the
    /// trailing `days` days that end `today`, the latest date first. A
    /// session that started exactly `days` days before today is counted,
    /// one that started earlier is not.
    pub fn get_daily_stats(&mut self, days: i32, today: Date) -> (report: Vec<DailyStat>)
        requires
            old(self)@.wf(),
        ensures
            is_daily_report(
                daily_stat_views(report@),
                old(self)@.sessions,
                old(self)@.attempts,
                today,
                days as int,
            ),
            final(self)@ == old(self)@.prepared(),
            final(self)@.wf(),
    {
        self.schema.ensure();
        proof {
            let sessions = self@.sessions;
            assert forall|i: int, j: int| 0 <= i < j < sessions.len() implies (
            #[trigger] sessions[i]).id != (#[trigger] sessions[j]).id by {
                assert(session_ids(sessions)[i] < session_ids(sessions)[j]);
            }
        }
        daily_stats(&self.sessions, &self.attempts, days, today)
    }
}

} // verus!
