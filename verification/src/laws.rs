//! What holds of the store whatever it contains: the laws that relate its
//! operations to one another.

use vstd::prelude::*;
use crate::calendar::{Date, lemma_day_number_ascends};
use crate::model::{AttemptView, CardView, SessionView};
use crate::schema::{Schema, SchemaObject, creation_order};
use crate::listing::{
    in_listing_order, is_listing, lead, lemma_filter_keeps_listing_order, lemma_lead,
    lemma_listed_before_asymmetric, lemma_listing_insert, lemma_listing_members,
    lemma_listing_unique, stamp,
};
use crate::state::{
    StoreView, attempt_ids, card_ids, lemma_all_cards_listed, lemma_filtered_attempts_sound,
    lemma_filtered_cards_sound, session_ids,
};
use crate::stats::{
    DailyStatView, SubjectStatView, accuracy, ascending, descending, in_window, is_daily_report,
    is_subject_report, report_dates, report_subjects,
};
use crate::text::{lemma_text_before_irreflexive, lemma_text_before_transitive, text_before};

verus! {

/// The create-if-absent step is idempotent: once it has run, the schema is
/// complete, a second run finds nothing to create, and it leaves the schema
/// as the first run left it.
pub proof fn law_schema_step_is_idempotent(schema: Schema)
    ensures
        Schema::completed().is_complete(),
        Schema::completed().missing() == Seq::<SchemaObject>::empty(),
        schema.is_complete() ==> schema == Schema::completed(),
{
    let present = |object: SchemaObject| !Schema::completed().has(object);
    broadcast use vstd::seq_lib::group_filter_ensures;

    let left = creation_order().filter(present);
    if left.len() > 0 {
        assert(present(left[0]));
    }
    assert(left =~= Seq::<SchemaObject>::empty());
    if schema.is_complete() {
        assert(schema.has(SchemaObject::CardsTable));
        assert(schema.has(SchemaObject::SessionsTable));
        assert(schema.has(SchemaObject::AttemptsTable));
        assert(schema.has(SchemaObject::CardsSubjectIndex));
        assert(schema.has(SchemaObject::CardsDifficultyIndex));
        assert(schema.has(SchemaObject::AttemptsSessionIndex));
        assert(schema.has(SchemaObject::AttemptsCardIndex));
    }
}

/// Preparing a store twice is preparing it once, and preparing never
/// touches a row or an id.
pub proof fn law_prepare_is_idempotent(store: StoreView)
    requires
        store.wf(),
    ensures
        store.prepared().prepared() == store.prepared(),
        store.prepared().wf(),
        store.prepared().cards == store.cards,
        store.prepared().sessions == store.sessions,
        store.prepared().attempts == store.attempts,
        store.schema.is_complete() ==> store.prepared() == store,
{
    law_schema_step_is_idempotent(store.schema);
}

/// A card that was created is listed afterwards, under the id that
/// creation returned and with the fields that were handed in, absent
/// optional texts read as empty. It enters the listing behind the cards
/// that were created later than `now`; the cards that were there before
/// keep their order. Where no card was created later, it is listed first.
pub proof fn law_created_card_is_listed(store: StoreView, card: CardView, now: Seq<char>)
    requires
        store.wf(),
        store.create_card_outcome(card) is Ok,
    ensures
        card.acceptable(),
        ({
            let id = (store.last_card_id + 1) as i64;
            let stored = card.stored(id, now);
            let after = store.after_create_card(card, now);
            &&& store.create_card_outcome(card) == Ok::<i64, crate::error::StoreError>(id)
            &&& after.wf()
            &&& !store.has_card(id)
            &&& stored.id == Some(id)
            &&& stored.same_content(card)
            &&& is_listing(after.all_cards(), store.cards.push(stored))
            &&& after.all_cards() == store.all_cards().insert(lead(store.all_cards(), stored), stored)
            &&& after.all_cards().contains(stored)
            &&& (forall|k: int|
                0 <= k < store.cards.len() ==> !text_before(now, stamp(#[trigger] store.cards[k])))
                ==> after.all_cards()[0] == stored
        }),
{
    let id = (store.last_card_id + 1) as i64;
    let stored = card.stored(id, now);
    let after = store.after_create_card(card, now);
    let before = store.all_cards();
    let place = lead(before, stored);
    assert(card_ids(after.cards) =~= card_ids(store.cards).push(id as int));
    assert forall|i: int| 0 <= i < store.cards.len() implies (#[trigger] store.cards[i]).id != Some(
        id,
    ) && crate::state::id_number(store.cards[i].id) != crate::state::id_number(stored.id) by {
        assert(card_ids(store.cards)[i] <= store.last_card_id);
    }
    lemma_all_cards_listed(store);
    lemma_all_cards_listed(after);
    lemma_lead(before, stored);
    lemma_listing_insert(before, store.cards, stored, place);
    lemma_listing_unique(before.insert(place, stored), after.all_cards());
    assert(before.insert(place, stored)[place] == stored);
    if forall|k: int| 0 <= k < store.cards.len() ==> !text_before(now, stamp(#[trigger] store.cards[k])) {
        if place > 0 {
            lemma_listing_members(before, store.cards);
            assert(before.contains(before[0]));
            let k = choose|k: int| 0 <= k < store.cards.len() && store.cards[k] == before[0];
            assert(crate::listing::listed_before(before[0], stored));
            assert(card_ids(store.cards)[k] <= store.last_card_id);
        }
    }
}

/// After a card was deleted no card has its id, no card listed has it, and
/// no attempt refers to it; every other card and attempt is still there.
pub proof fn law_deleted_card_is_gone(store: StoreView, id: i64)
    requires
        store.wf(),
    ensures
        ({
            let after = store.after_delete_card(id);
            &&& after.wf()
            &&& !after.has_card(id)
            &&& forall|k: int|
                0 <= k < after.all_cards().len() ==> (#[trigger] after.all_cards()[k]).id != Some(id)
            &&& forall|k: int|
                0 <= k < after.attempts.len() ==> (#[trigger] after.attempts[k]).card_id != id
            &&& forall|k: int|
                0 <= k < store.cards.len() && (#[trigger] store.cards[k]).id != Some(id)
                    ==> after.cards.contains(store.cards[k])
            &&& forall|k: int|
                0 <= k < store.attempts.len() && (#[trigger] store.attempts[k]).card_id != id
                    ==> after.attempts.contains(store.attempts[k])
        }),
{
    broadcast use vstd::seq_lib::group_filter_ensures;

    let after = store.after_delete_card(id);
    let other_card = |attempt: AttemptView| attempt.card_id != id;
    let other_id = |card: CardView| card.id != Some(id);
    lemma_filtered_cards_sound(store.cards, other_id, store.last_card_id as int);
    lemma_filtered_attempts_sound(store.attempts, other_card, store.last_attempt_id as int);
    assert forall|k: int| 0 <= k < after.cards.len() implies (#[trigger] after.cards[k]).id != Some(
        id,
    ) by {
        assert(other_id(after.cards[k]));
    }
    assert forall|k: int| 0 <= k < after.all_cards().len() implies (
    #[trigger] after.all_cards()[k]).id != Some(id) by {
        lemma_all_cards_listed(after);
        lemma_listing_members(after.all_cards(), after.cards);
        assert(after.all_cards().contains(after.all_cards()[k]));
        let w = choose|w: int| 0 <= w < after.cards.len() && after.cards[w] == after.all_cards()[k];
        assert(after.cards[w].id != Some(id));
    }
    assert forall|k: int| 0 <= k < after.attempts.len() implies (
    #[trigger] after.attempts[k]).card_id != id by {
        assert(other_card(after.attempts[k]));
    }
    assert forall|k: int|
        0 <= k < store.cards.len() && (#[trigger] store.cards[k]).id != Some(
            id,
        ) implies after.cards.contains(store.cards[k]) by {
        assert(other_id(store.cards[k]));
    }
    assert forall|k: int|
        0 <= k < store.attempts.len() && (#[trigger] store.attempts[k]).card_id
            != id implies after.attempts.contains(store.attempts[k]) by {
        assert(other_card(store.attempts[k]));
    }
}

/// Ending a session shows in a read of it: the end time is set and the
/// count of right answers is the one handed in. Ending it a second time
/// overwrites both: the later call decides.
pub proof fn law_end_session_last_write_wins(
    store: StoreView,
    id: i64,
    first: i32,
    first_now: Seq<char>,
    second: i32,
    second_now: Seq<char>,
)
    requires
        store.wf(),
        store.has_session(id),
    ensures
        ({
            let once = store.after_end_session(id, first, first_now);
            let twice = once.after_end_session(id, second, second_now);
            &&& once.wf()
            &&& twice.wf()
            &&& once.session(id) matches Ok(session) && session.ended_at == Some(first_now)
                && session.correct_answers == Some(first)
            &&& twice.session(id) matches Ok(session) && session.ended_at == Some(second_now)
                && session.correct_answers == Some(second)
            &&& twice == store.after_end_session(id, second, second_now)
        }),
{
    let once = store.after_end_session(id, first, first_now);
    let twice = once.after_end_session(id, second, second_now);
    let w = choose|w: int| 0 <= w < store.sessions.len() && (#[trigger] store.sessions[w]).id == Some(id);
    assert(session_ids(once.sessions) =~= session_ids(store.sessions));
    assert(session_ids(twice.sessions) =~= session_ids(store.sessions));
    assert(once.sessions[w].id == Some(id));
    assert(twice.sessions[w].id == Some(id));
    assert forall|k: int| 0 <= k < once.sessions.len() implies (#[trigger] once.sessions[k]).is_stored() by {
        assert(store.sessions[k].is_stored());
    }
    assert forall|k: int| 0 <= k < twice.sessions.len() implies (
    #[trigger] twice.sessions[k]).is_stored() by {
        assert(once.sessions[k].is_stored());
    }
    assert(twice.sessions =~= store.after_end_session(id, second, second_now).sessions);
}

/// An update replaces the card with that id and no other; where no card
/// has the id, the rows stay as they were.
pub proof fn law_update_replaces_one_card(store: StoreView, id: i64, card: CardView, now: Seq<char>)
    requires
        store.wf(),
        card.acceptable(),
    ensures
        ({
            let after = store.after_update_card(id, card, now);
            &&& after.wf()
            &&& after.cards.len() == store.cards.len()
            &&& forall|k: int|
                0 <= k < store.cards.len() ==> (#[trigger] after.cards[k]) == (if store.cards[k].id
                    == Some(id) {
                    store.cards[k].replaced_by(card, now)
                } else {
                    store.cards[k]
                })
            &&& !store.has_card(id) ==> after.cards == store.cards
            &&& forall|k: int|
                0 <= k < after.cards.len() && (#[trigger] after.cards[k]).id == Some(id)
                    ==> after.cards[k].same_content(card) && after.cards[k].updated_at == Some(now)
                    && after.cards[k].created_at == store.cards[k].created_at
        }),
{
    let after = store.after_update_card(id, card, now);
    assert(card_ids(after.cards) =~= card_ids(store.cards));
    assert forall|k: int| 0 <= k < after.cards.len() implies (#[trigger] after.cards[k]).is_stored() by {
        assert(store.cards[k].is_stored());
    }
    if !store.has_card(id) {
        assert(after.cards =~= store.cards);
    }
}

/// The cards of a subject are exactly the listed cards with that subject,
/// and they stand as in the listing: by creation time, the most recent
/// first.
pub proof fn law_cards_by_subject_keep_the_order(store: StoreView, subject: Seq<char>)
    requires
        store.wf(),
    ensures
        store.cards_by_subject(subject) == store.all_cards().filter(
            |card: CardView| card.subject == subject,
        ),
        in_listing_order(store.all_cards()),
        in_listing_order(store.cards_by_subject(subject)),
        forall|i: int, j: int|
            0 <= i < j < store.cards_by_subject(subject).len() ==> !text_before(
                stamp(#[trigger] store.cards_by_subject(subject)[i]),
                stamp(#[trigger] store.cards_by_subject(subject)[j]),
            ),
{
    lemma_all_cards_listed(store);
    lemma_filter_keeps_listing_order(store.all_cards(), |card: CardView| card.subject == subject);
    let chosen = store.cards_by_subject(subject);
    assert forall|i: int, j: int| 0 <= i < j < chosen.len() implies !text_before(
        stamp(#[trigger] chosen[i]),
        stamp(#[trigger] chosen[j]),
    ) by {
        assert(crate::listing::listed_before(chosen[i], chosen[j]));
        lemma_listed_before_asymmetric(chosen[i], chosen[j]);
        crate::text::lemma_text_before_irreflexive(stamp(chosen[i]));
        if text_before(stamp(chosen[i]), stamp(chosen[j])) && text_before(
            stamp(chosen[j]),
            stamp(chosen[i]),
        ) {
            lemma_text_before_transitive(stamp(chosen[i]), stamp(chosen[j]), stamp(chosen[i]));
        }
    }
}

/// The listing is sorted by creation time, the most recent first: no card
/// stands before one that was created later.
pub proof fn law_listing_runs_back_in_time(store: StoreView)
    requires
        store.wf(),
    ensures
        is_listing(store.all_cards(), store.cards),
        store.all_cards().len() == store.cards.len(),
        forall|i: int, j: int|
            0 <= i < j < store.all_cards().len() ==> !text_before(
                stamp(#[trigger] store.all_cards()[i]),
                stamp(#[trigger] store.all_cards()[j]),
            ),
        forall|i: int, j: int|
            0 <= i < j < store.all_cards().len() && stamp(#[trigger] store.all_cards()[i]) == stamp(
                #[trigger] store.all_cards()[j],
            ) ==> crate::state::id_number(store.all_cards()[i].id) > crate::state::id_number(
                store.all_cards()[j].id,
            ),
{
    lemma_all_cards_listed(store);
    lemma_listing_members(store.all_cards(), store.cards);
    let listing = store.all_cards();
    assert forall|i: int, j: int| 0 <= i < j < listing.len() implies !text_before(
        stamp(#[trigger] listing[i]),
        stamp(#[trigger] listing[j]),
    ) && (stamp(listing[i]) == stamp(listing[j]) ==> crate::state::id_number(listing[i].id)
        > crate::state::id_number(listing[j].id)) by {
        assert(crate::listing::listed_before(listing[i], listing[j]));
        crate::text::lemma_text_before_irreflexive(stamp(listing[i]));
        if text_before(stamp(listing[i]), stamp(listing[j])) && text_before(
            stamp(listing[j]),
            stamp(listing[i]),
        ) {
            lemma_text_before_transitive(stamp(listing[i]), stamp(listing[j]), stamp(listing[i]));
        }
    }
}

/// The cards of a subject are exactly the listed cards with that subject.
pub proof fn law_cards_by_subject_select(store: StoreView, subject: Seq<char>)
    ensures
        forall|k: int|
            0 <= k < store.cards_by_subject(subject).len() ==> (
            #[trigger] store.cards_by_subject(subject)[k]).subject == subject
                && store.all_cards().contains(store.cards_by_subject(subject)[k]),
        forall|k: int|
            0 <= k < store.all_cards().len() && (#[trigger] store.all_cards()[k]).subject == subject
                ==> store.cards_by_subject(subject).contains(store.all_cards()[k]),
        store.cards_by_subject(subject).len() <= store.all_cards().len(),
{
    broadcast use vstd::seq_lib::group_filter_ensures;

    let same = |card: CardView| card.subject == subject;
    let chosen = store.all_cards().filter(same);
    assert forall|k: int| 0 <= k < chosen.len() implies (#[trigger] chosen[k]).subject == subject
        && store.all_cards().contains(chosen[k]) by {
        assert(same(chosen[k]));
        store.all_cards().lemma_filter_contains_rev(same, chosen[k]);
    }
    assert forall|k: int|
        0 <= k < store.all_cards().len() && (#[trigger] store.all_cards()[k]).subject
            == subject implies chosen.contains(store.all_cards()[k]) by {
        assert(same(store.all_cards()[k]));
    }
}

/// The boundary of the daily window: the day exactly `days` days before
/// today is inside, the day before that is outside.
pub proof fn law_window_boundary(date: Date, today: Date, days: int)
    requires
        0 <= days,
    ensures
        date.day_number() == today.day_number() - days ==> in_window(date, today, days),
        date.day_number() < today.day_number() - days ==> !in_window(date, today, days),
        date.day_number() >= today.day_number() ==> in_window(date, today, days),
{
}

/// Two sequences with the same members, each in strict order by one
/// relation that is irreflexive and transitive, are one sequence.
proof fn lemma_ordered_same_members<A>(x: Seq<A>, y: Seq<A>, before: spec_fn(A, A) -> bool)
    requires
        forall|a: A| !#[trigger] before(a, a),
        forall|a: A, b: A, c: A| #[trigger] before(a, b) && #[trigger] before(b, c) ==> before(a, c),
        forall|i: int, j: int| 0 <= i < j < x.len() ==> before(#[trigger] x[i], #[trigger] x[j]),
        forall|i: int, j: int| 0 <= i < j < y.len() ==> before(#[trigger] y[i], #[trigger] y[j]),
        forall|i: int| 0 <= i < x.len() ==> y.contains(#[trigger] x[i]),
        forall|i: int| 0 <= i < y.len() ==> x.contains(#[trigger] y[i]),
    ensures
        x == y,
    decreases x.len(),
{
    if x.len() == 0 {
        if y.len() > 0 {
            assert(x.contains(y[0]));
        }
        assert(x =~= y);
    } else if y.len() == 0 {
        assert(y.contains(x[0]));
    } else {
        let top_x = x.last();
        let top_y = y.last();
        assert(y.contains(x[x.len() - 1]));
        assert(x.contains(y[y.len() - 1]));
        let in_y = choose|w: int| 0 <= w < y.len() && y[w] == top_x;
        let in_x = choose|w: int| 0 <= w < x.len() && x[w] == top_y;
        if in_y < y.len() - 1 {
            assert(before(y[in_y], y[y.len() - 1]));
            if in_x < x.len() - 1 {
                assert(before(x[in_x], x[x.len() - 1]));
                assert(before(top_x, top_x));
            }
        }
        assert(top_x == top_y);
        let rest_x = x.drop_last();
        let rest_y = y.drop_last();
        assert forall|i: int| 0 <= i < rest_x.len() implies rest_y.contains(#[trigger] rest_x[i]) by {
            assert(y.contains(x[i]));
            let w = choose|w: int| 0 <= w < y.len() && y[w] == x[i];
            assert(before(x[i], x[x.len() - 1]));
            assert(rest_y[w] == y[w]);
        }
        assert forall|i: int| 0 <= i < rest_y.len() implies rest_x.contains(#[trigger] rest_y[i]) by {
            assert(x.contains(y[i]));
            let w = choose|w: int| 0 <= w < x.len() && x[w] == y[i];
            assert(before(y[i], y[y.len() - 1]));
            assert(rest_x[w] == x[w]);
        }
        assert forall|i: int, j: int| 0 <= i < j < rest_x.len() implies before(
            #[trigger] rest_x[i],
            #[trigger] rest_x[j],
        ) by {
            assert(before(x[i], x[j]));
        }
        assert forall|i: int, j: int| 0 <= i < j < rest_y.len() implies before(
            #[trigger] rest_y[i],
            #[trigger] rest_y[j],
        ) by {
            assert(before(y[i], y[j]));
        }
        lemma_ordered_same_members(rest_x, rest_y, before);
        assert(x =~= rest_x.push(top_x));
        assert(y =~= rest_y.push(top_y));
    }
}

/// Two ascending lists of texts with the same members are one list.
proof fn lemma_ascending_same_members(x: Seq<Seq<char>>, y: Seq<Seq<char>>)
    requires
        ascending(x),
        ascending(y),
        forall|i: int| 0 <= i < x.len() ==> y.contains(#[trigger] x[i]),
        forall|i: int| 0 <= i < y.len() ==> x.contains(#[trigger] y[i]),
    ensures
        x == y,
{
    let before = |a: Seq<char>, b: Seq<char>| text_before(a, b);
    assert forall|a: Seq<char>| !#[trigger] before(a, a) by {
        lemma_text_before_irreflexive(a);
    }
    assert forall|a: Seq<char>, b: Seq<char>, c: Seq<char>| #[trigger] before(a, b) && #[trigger] before(
        b,
        c,
    ) implies before(a, c) by {
        lemma_text_before_transitive(a, b, c);
    }
    assert forall|i: int, j: int| 0 <= i < j < x.len() implies before(
        #[trigger] x[i],
        #[trigger] x[j],
    ) by {}
    assert forall|i: int, j: int| 0 <= i < j < y.len() implies before(
        #[trigger] y[i],
        #[trigger] y[j],
    ) by {}
    lemma_ordered_same_members(x, y, before);
}

/// Two descending lists of dates with the same members are one list.
proof fn lemma_descending_same_members(x: Seq<Date>, y: Seq<Date>)
    requires
        descending(x),
        descending(y),
        forall|i: int| 0 <= i < x.len() ==> y.contains(#[trigger] x[i]),
        forall|i: int| 0 <= i < y.len() ==> x.contains(#[trigger] y[i]),
    ensures
        x == y,
{
    let before = |a: Date, b: Date| b.is_earlier_than(a);
    assert forall|i: int, j: int| 0 <= i < j < x.len() implies before(
        #[trigger] x[i],
        #[trigger] x[j],
    ) by {}
    assert forall|i: int, j: int| 0 <= i < j < y.len() implies before(
        #[trigger] y[i],
        #[trigger] y[j],
    ) by {}
    lemma_ordered_same_members(x, y, before);
}

/// The cards and attempts have one subject report and no other.
pub proof fn law_subject_report_is_unique(
    first: Seq<SubjectStatView>,
    second: Seq<SubjectStatView>,
    cards: Seq<CardView>,
    attempts: Seq<AttemptView>,
)
    requires
        is_subject_report(first, cards, attempts),
        is_subject_report(second, cards, attempts),
    ensures
        first == second,
{
    let x = report_subjects(first);
    let y = report_subjects(second);
    assert forall|i: int| 0 <= i < x.len() implies y.contains(#[trigger] x[i]) by {
        assert(crate::stats::has_subject(cards, first[i].subject));
        let c = choose|c: int| 0 <= c < cards.len() && (#[trigger] cards[c]).subject == first[i].subject;
        assert(y.contains(cards[c].subject));
    }
    assert forall|i: int| 0 <= i < y.len() implies x.contains(#[trigger] y[i]) by {
        assert(crate::stats::has_subject(cards, second[i].subject));
        let c = choose|c: int|
            0 <= c < cards.len() && (#[trigger] cards[c]).subject == second[i].subject;
        assert(x.contains(cards[c].subject));
    }
    lemma_ascending_same_members(x, y);
    assert(first.len() == second.len());
    assert forall|k: int| 0 <= k < first.len() implies first[k] == second[k] by {
        assert(x[k] == y[k]);
    }
    assert(first =~= second);
}

/// The sessions and attempts have one daily report for a window and no
/// other.
pub proof fn law_daily_report_is_unique(
    first: Seq<DailyStatView>,
    second: Seq<DailyStatView>,
    sessions: Seq<SessionView>,
    attempts: Seq<AttemptView>,
    today: Date,
    days: int,
)
    requires
        is_daily_report(first, sessions, attempts, today, days),
        is_daily_report(second, sessions, attempts, today, days),
    ensures
        first == second,
{
    let x = report_dates(first);
    let y = report_dates(second);
    assert forall|i: int| 0 <= i < x.len() implies y.contains(#[trigger] x[i]) by {
        assert(crate::stats::has_session_on(sessions, first[i].date));
        let s = choose|s: int|
            0 <= s < sessions.len() && crate::stats::session_date(#[trigger] sessions[s]) == Some(
                first[i].date,
            );
        assert(y.contains(first[i].date));
    }
    assert forall|i: int| 0 <= i < y.len() implies x.contains(#[trigger] y[i]) by {
        assert(crate::stats::has_session_on(sessions, second[i].date));
        let s = choose|s: int|
            0 <= s < sessions.len() && crate::stats::session_date(#[trigger] sessions[s]) == Some(
                second[i].date,
            );
        assert(x.contains(second[i].date));
    }
    lemma_descending_same_members(x, y);
    assert(first.len() == second.len());
    assert forall|k: int| 0 <= k < first.len() implies first[k] == second[k] by {
        assert(x[k] == y[k]);
    }
    assert(first =~= second);
}

/// A session that was created can be read under the id that creation
/// returned: it is open, and its start time is the caller's.
pub proof fn law_created_session_is_open(store: StoreView, session: SessionView)
    requires
        store.wf(),
        store.create_session_outcome() is Ok,
    ensures
        ({
            let id = (store.last_session_id + 1) as i64;
            let after = store.after_create_session(session);
            &&& store.create_session_outcome() == Ok::<i64, crate::error::StoreError>(id)
            &&& after.wf()
            &&& !store.has_session(id)
            &&& after.session(id) == Ok::<SessionView, crate::error::StoreError>(session.opened(id))
            &&& session.opened(id).ended_at is None
            &&& session.opened(id).correct_answers is None
            &&& session.opened(id).started_at == session.started_at
            &&& after.cards == store.cards
            &&& after.attempts == store.attempts
        }),
{
    let id = (store.last_session_id + 1) as i64;
    let after = store.after_create_session(session);
    assert(session_ids(after.sessions) =~= session_ids(store.sessions).push(id as int));
    assert forall|i: int| 0 <= i < store.sessions.len() implies (#[trigger] store.sessions[i]).id
        != Some(id) by {
        assert(session_ids(store.sessions)[i] <= store.last_session_id);
    }
    let place = store.sessions.len() as int;
    assert(after.sessions[place].id == Some(id));
    let chosen = choose|i: int|
        0 <= i < after.sessions.len() && (#[trigger] after.sessions[i]).id == Some(id);
    if chosen != place {
        assert(after.sessions[chosen] == store.sessions[chosen]);
    }
}

/// An attempt that was recorded is appended to the log under the id that
/// recording returned, an absent duration read as zero; nothing else
/// changes, and no attempt that was there is touched.
pub proof fn law_recorded_attempt_is_appended(store: StoreView, attempt: AttemptView)
    requires
        store.wf(),
        store.record_attempt_outcome() is Ok,
    ensures
        ({
            let id = (store.last_attempt_id + 1) as i64;
            let after = store.after_record_attempt(attempt);
            &&& store.record_attempt_outcome() == Ok::<i64, crate::error::StoreError>(id)
            &&& after.wf()
            &&& after.attempts == store.attempts.push(attempt.recorded(id))
            &&& attempt.recorded(id).time_taken is Some
            &&& attempt.time_taken is None ==> attempt.recorded(id).time_taken == Some(0i32)
            &&& after.cards == store.cards
            &&& after.sessions == store.sessions
        }),
{
    let id = (store.last_attempt_id + 1) as i64;
    let after = store.after_record_attempt(attempt);
    assert(attempt_ids(after.attempts) =~= attempt_ids(store.attempts).push(id as int));
}

/// The accuracy is the share of right answers in hundredths of a percent,
/// rounded to the nearest whole number, a half upwards: it lies between 0
/// and 10000, it is 10000 where every answer is right and 0 where none is.
pub proof fn law_accuracy_is_the_rounded_share(correct: nat, total: nat)
    requires
        correct <= total,
        0 < total,
    ensures
        accuracy(correct, total) <= 10000,
        2 * total * accuracy(correct, total) <= 20000 * correct + total,
        20000 * correct + total < 2 * total * (accuracy(correct, total) + 1),
        accuracy(total, total) == 10000,
        accuracy(0, total) == 0,
{
    let share = (20000 * correct + total) / (2 * total);
    assert(0 <= share <= 10000 && 2 * total * share <= 20000 * correct + total && 20000 * correct
        + total < 2 * total * (share + 1)) by (nonlinear_arith)
        requires
            share == (20000 * correct + total) / (2 * total),
            correct <= total,
            0 < total,
    ;
    let full = (20000 * total + total) / (2 * total);
    assert(full == 10000) by (nonlinear_arith)
        requires
            full == (20000 * total + total) / (2 * total),
            0 < total,
    ;
    let none = (20000 * 0 + total) / (2 * total);
    assert(none == 0) by (nonlinear_arith)
        requires
            none == (20000 * 0 + total) / (2 * total),
            0 < total,
    ;
}

/// The daily report runs back in time: every entry stands for a date that
/// exists, and each entry lies fewer days back from today than the entries
/// that follow it.
pub proof fn law_daily_report_runs_back_in_time(
    report: Seq<DailyStatView>,
    sessions: Seq<SessionView>,
    attempts: Seq<AttemptView>,
    today: Date,
    days: int,
)
    requires
        is_daily_report(report, sessions, attempts, today, days),
    ensures
        forall|k: int| 0 <= k < report.len() ==> (#[trigger] report[k]).date.is_valid(),
        forall|a: int, b: int|
            0 <= a < b < report.len() ==> (#[trigger] report[b]).date.day_number() < (
            #[trigger] report[a]).date.day_number(),
        forall|k: int|
            0 <= k < report.len() ==> today.day_number() - (#[trigger] report[k]).date.day_number()
                <= days,
{
    let dates = report_dates(report);
    assert forall|k: int| 0 <= k < report.len() implies (#[trigger] report[k]).date.is_valid() by {
        assert(crate::stats::has_session_on(sessions, report[k].date));
    }
    assert forall|a: int, b: int| 0 <= a < b < report.len() implies (
    #[trigger] report[b]).date.day_number() < (#[trigger] report[a]).date.day_number() by {
        assert(dates[b].is_earlier_than(dates[a]));
        lemma_day_number_ascends(report[b].date, report[a].date);
    }
}

} // verus!
