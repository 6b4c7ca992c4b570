//! The order in which cards are listed: by the time of their creation, the
//! most recent first; of two cards created at the same time, the one with
//! the later id first.
//!
//! Creation times are compared as texts, byte by byte. For stamps of one
//! fixed form, year first, that is the order of time.

use vstd::prelude::*;
use vstd::seq_lib::{
    to_multiset_build, to_multiset_contains, to_multiset_insert, to_multiset_len,
    to_multiset_remove,
};
use crate::model::CardView;
use crate::state::id_number;
use crate::text::{
    lemma_text_before_irreflexive, lemma_text_before_total, lemma_text_before_transitive,
    text_before,
};

verus! {

/// The creation time of a card as a text; empty where the card has none.
pub open spec fn stamp(card: CardView) -> Seq<char> {
    match card.created_at {
        Some(text) => text,
        None => Seq::<char>::empty(),
    }
}

/// Whether `a` is listed before `b`: it was created later, or at the same
/// time under a later id.
pub open spec fn listed_before(a: CardView, b: CardView) -> bool {
    text_before(stamp(b), stamp(a)) || (stamp(a) == stamp(b) && id_number(a.id) > id_number(b.id))
}

/// Every card of the sequence is listed before all that follow it.
pub open spec fn in_listing_order(listing: Seq<CardView>) -> bool {
    forall|i: int, j: int|
        0 <= i < j < listing.len() ==> listed_before(#[trigger] listing[i], #[trigger] listing[j])
}

/// Whether `listing` is the listing of `cards`: the same cards, each as
/// often as it is among `cards`, in listing order.
pub open spec fn is_listing(listing: Seq<CardView>, cards: Seq<CardView>) -> bool {
    listing.to_multiset() == cards.to_multiset() && in_listing_order(listing)
}

/// No two cards share the number of their id.
pub open spec fn ids_differ(cards: Seq<CardView>) -> bool {
    forall|i: int, j: int|
        0 <= i < j < cards.len() ==> id_number((#[trigger] cards[i]).id) != id_number(
            (#[trigger] cards[j]).id,
        )
}

/// The number of cards at the head of `listing` that are listed before
/// `card`: the place at which `card` enters the listing.
pub open spec fn lead(listing: Seq<CardView>, card: CardView) -> int
    decreases listing.len(),
{
    if listing.len() == 0 || !listed_before(listing[0], card) {
        0
    } else {
        1 + lead(listing.drop_first(), card)
    }
}

/// No two cards are listed before each other, and none before itself.
pub proof fn lemma_listed_before_asymmetric(a: CardView, b: CardView)
    ensures
        !(listed_before(a, b) && listed_before(b, a)),
{
    lemma_text_before_irreflexive(stamp(a));
    if text_before(stamp(a), stamp(b)) && text_before(stamp(b), stamp(a)) {
        lemma_text_before_transitive(stamp(a), stamp(b), stamp(a));
    }
}

/// Being listed before is transitive.
pub proof fn lemma_listed_before_transitive(a: CardView, b: CardView, c: CardView)
    requires
        listed_before(a, b),
        listed_before(b, c),
    ensures
        listed_before(a, c),
{
    if text_before(stamp(b), stamp(a)) && text_before(stamp(c), stamp(b)) {
        lemma_text_before_transitive(stamp(c), stamp(b), stamp(a));
    }
}

/// Of two cards with different ids one is listed before the other.
pub proof fn lemma_listed_before_total(a: CardView, b: CardView)
    requires
        id_number(a.id) != id_number(b.id),
        !listed_before(a, b),
    ensures
        listed_before(b, a),
{
    if stamp(a) != stamp(b) && !text_before(stamp(a), stamp(b)) {
        lemma_text_before_total(stamp(a), stamp(b));
    }
}

/// Where a card enters a listing, the cards before that place are listed
/// before it and the card at that place is not.
pub proof fn lemma_lead(listing: Seq<CardView>, card: CardView)
    ensures
        0 <= lead(listing, card) <= listing.len(),
        forall|a: int| 0 <= a < lead(listing, card) ==> listed_before(#[trigger] listing[a], card),
        lead(listing, card) < listing.len() ==> !listed_before(
            listing[lead(listing, card)],
            card,
        ),
    decreases listing.len(),
{
    if listing.len() > 0 && listed_before(listing[0], card) {
        let rest = listing.drop_first();
        lemma_lead(rest, card);
        assert forall|a: int| 0 <= a < lead(listing, card) implies listed_before(
            #[trigger] listing[a],
            card,
        ) by {
            if a > 0 {
                assert(listing[a] == rest[a - 1]);
            }
        }
        if lead(listing, card) < listing.len() {
            assert(listing[lead(listing, card)] == rest[lead(rest, card)]);
        }
    }
}

/// A listing and its cards have the same members and the same length.
pub proof fn lemma_listing_members(listing: Seq<CardView>, cards: Seq<CardView>)
    requires
        listing.to_multiset() == cards.to_multiset(),
    ensures
        listing.len() == cards.len(),
        forall|card: CardView| listing.contains(card) <==> cards.contains(card),
{
    to_multiset_len(listing);
    to_multiset_len(cards);
    assert forall|card: CardView| listing.contains(card) <==> cards.contains(card) by {
        to_multiset_contains(listing, card);
        to_multiset_contains(cards, card);
    }
}

/// A card with a new id enters a listing at a place where every card
/// before is listed before it and the card at the place is not; the result
/// is the listing of the cards with the new one.
pub proof fn lemma_listing_insert(
    listing: Seq<CardView>,
    cards: Seq<CardView>,
    card: CardView,
    place: int,
)
    requires
        is_listing(listing, cards),
        0 <= place <= listing.len(),
        forall|a: int| 0 <= a < place ==> listed_before(#[trigger] listing[a], card),
        place < listing.len() ==> !listed_before(listing[place], card),
        forall|k: int|
            0 <= k < cards.len() ==> id_number((#[trigger] cards[k]).id) != id_number(card.id),
    ensures
        is_listing(listing.insert(place, card), cards.push(card)),
{
    let grown = listing.insert(place, card);
    to_multiset_insert(listing, place, card);
    to_multiset_build(cards, card);
    lemma_listing_members(listing, cards);
    assert forall|i: int, j: int| 0 <= i < j < grown.len() implies listed_before(
        #[trigger] grown[i],
        #[trigger] grown[j],
    ) by {
        if j < place {
            assert(listed_before(listing[i], listing[j]));
        } else if j == place {
            assert(listed_before(listing[i], card));
        } else {
            let after = listing[j - 1];
            assert(grown[j] == after);
            if i != place {
                let before = if i < place {
                    listing[i]
                } else {
                    listing[i - 1]
                };
                assert(grown[i] == before);
                if i < place {
                    assert(listed_before(listing[i], listing[j - 1]));
                } else {
                    assert(listed_before(listing[i - 1], listing[j - 1]));
                }
            } else {
                let here = listing[place];
                assert(listing.contains(here));
                assert(cards.contains(here));
                let k = choose|k: int| 0 <= k < cards.len() && cards[k] == here;
                assert(id_number(cards[k].id) != id_number(card.id));
                lemma_listed_before_total(here, card);
                if j - 1 > place {
                    assert(listed_before(listing[place], listing[j - 1]));
                    lemma_listed_before_transitive(card, here, after);
                }
            }
        }
    }
}

/// The listing of cards, built card by card.
spec fn listing_of(cards: Seq<CardView>) -> Seq<CardView>
    decreases cards.len(),
{
    if cards.len() == 0 {
        Seq::<CardView>::empty()
    } else {
        let rest = listing_of(cards.drop_last());
        rest.insert(lead(rest, cards.last()), cards.last())
    }
}

/// Cards with different ids have a listing.
pub proof fn lemma_listing_exists(cards: Seq<CardView>)
    requires
        ids_differ(cards),
    ensures
        exists|listing: Seq<CardView>| is_listing(listing, cards),
    decreases cards.len(),
{
    lemma_listing_built(cards);
    assert(is_listing(listing_of(cards), cards));
}

proof fn lemma_listing_built(cards: Seq<CardView>)
    requires
        ids_differ(cards),
    ensures
        is_listing(listing_of(cards), cards),
    decreases cards.len(),
{
    if cards.len() == 0 {
        assert(cards =~= listing_of(cards));
    } else {
        let rest = cards.drop_last();
        let last = cards.last();
        assert forall|i: int, j: int| 0 <= i < j < rest.len() implies id_number(
            (#[trigger] rest[i]).id,
        ) != id_number((#[trigger] rest[j]).id) by {
            assert(rest[i] == cards[i]);
            assert(rest[j] == cards[j]);
        }
        lemma_listing_built(rest);
        lemma_lead(listing_of(rest), last);
        assert forall|k: int| 0 <= k < rest.len() implies id_number((#[trigger] rest[k]).id)
            != id_number(last.id) by {
            assert(rest[k] == cards[k]);
            assert(last == cards[cards.len() - 1]);
        }
        lemma_listing_insert(listing_of(rest), rest, last, lead(listing_of(rest), last));
        assert(rest.push(last) =~= cards);
    }
}

/// Two sequences in listing order that hold the same cards are one
/// sequence: cards have one listing and no other.
pub proof fn lemma_listing_unique(first: Seq<CardView>, second: Seq<CardView>)
    requires
        first.to_multiset() == second.to_multiset(),
        in_listing_order(first),
        in_listing_order(second),
    ensures
        first == second,
    decreases first.len(),
{
    lemma_listing_members(first, second);
    if first.len() == 0 {
        assert(first =~= second);
    } else {
        let x = first[0];
        let y = second[0];
        assert(first.contains(x));
        assert(second.contains(y));
        let k = choose|k: int| 0 <= k < second.len() && second[k] == x;
        let m = choose|m: int| 0 <= m < first.len() && first[m] == y;
        lemma_listed_before_asymmetric(x, y);
        lemma_listed_before_asymmetric(x, x);
        if k > 0 {
            assert(listed_before(second[0], second[k]));
            if m > 0 {
                assert(listed_before(first[0], first[m]));
            }
        }
        assert(x == y);
        let rest_first = first.remove(0);
        let rest_second = second.remove(0);
        to_multiset_remove(first, 0);
        to_multiset_remove(second, 0);
        assert forall|i: int, j: int| 0 <= i < j < rest_first.len() implies listed_before(
            #[trigger] rest_first[i],
            #[trigger] rest_first[j],
        ) by {
            assert(listed_before(first[i + 1], first[j + 1]));
        }
        assert forall|i: int, j: int| 0 <= i < j < rest_second.len() implies listed_before(
            #[trigger] rest_second[i],
            #[trigger] rest_second[j],
        ) by {
            assert(listed_before(second[i + 1], second[j + 1]));
        }
        lemma_listing_unique(rest_first, rest_second);
        assert forall|i: int| 0 <= i < first.len() implies first[i] == second[i] by {
            if i > 0 {
                assert(first[i] == rest_first[i - 1]);
                assert(second[i] == rest_second[i - 1]);
            }
        }
        assert(first =~= second);
    }
}

/// Leaving cards out of a sequence in listing order keeps the rest in
/// listing order.
pub proof fn lemma_filter_keeps_listing_order(listing: Seq<CardView>, keep: spec_fn(CardView) -> bool)
    requires
        in_listing_order(listing),
    ensures
        in_listing_order(listing.filter(keep)),
        forall|k: int|
            0 <= k < listing.filter(keep).len() ==> listing.contains(
                #[trigger] listing.filter(keep)[k],
            ),
    decreases listing.len(),
{
    reveal(Seq::filter);
    if listing.len() > 0 {
        let rest = listing.drop_last();
        let last = listing.last();
        assert forall|i: int, j: int| 0 <= i < j < rest.len() implies listed_before(
            #[trigger] rest[i],
            #[trigger] rest[j],
        ) by {
            assert(listed_before(listing[i], listing[j]));
        }
        lemma_filter_keeps_listing_order(rest, keep);
        let kept_rest = rest.filter(keep);
        let kept = listing.filter(keep);
        assert forall|k: int| 0 <= k < kept.len() implies listing.contains(#[trigger] kept[k]) by {
            if k < kept_rest.len() {
                assert(rest.contains(kept_rest[k]));
                let w = choose|w: int| 0 <= w < rest.len() && rest[w] == kept_rest[k];
                assert(listing[w] == rest[w]);
            } else {
                assert(listing[listing.len() - 1] == last);
            }
        }
        assert forall|i: int, j: int| 0 <= i < j < kept.len() implies listed_before(
            #[trigger] kept[i],
            #[trigger] kept[j],
        ) by {
            if j < kept_rest.len() {
                assert(listed_before(kept_rest[i], kept_rest[j]));
            } else {
                assert(kept[i] == kept_rest[i]);
                assert(rest.contains(kept_rest[i]));
                let w = choose|w: int| 0 <= w < rest.len() && rest[w] == kept_rest[i];
                assert(listed_before(listing[w], listing[listing.len() - 1]));
            }
        }
    }
}

} // verus!
