//! The analytics engine: activity and accuracy per subject and per day.
//!
//! Both reports start from the entity (the card, the session) and look up
//! its attempts, so a subject or a day without any attempt is still
//! reported, with zero counts and an accuracy of zero.

use vstd::prelude::*;
use crate::calendar::{Date, date_of_text, parse_date};
use crate::model::{
    Attempt, AttemptView, Card, CardView, Row, Session, SessionView, attempt_views, card_views,
    find_row, session_views,
};
use crate::text::{
    comes_before, lemma_text_before_irreflexive, lemma_text_before_total,
    lemma_text_before_transitive, text_before,
};

verus! {

/// Activity and accuracy of one subject. The accuracy is given in
/// hundredths of a percent: 6667 stands for 66.67 %.
#[derive(Debug)]
pub struct SubjectStat {
    pub subject: String,
    pub total_cards: u64,
    pub total_attempts: u64,
    pub correct_attempts: u64,
    pub accuracy: u32,
}

/// The figures of one subject as a mathematical value.
pub struct SubjectStatView {
    pub subject: Seq<char>,
    pub total_cards: nat,
    pub total_attempts: nat,
    pub correct_attempts: nat,
    pub accuracy: nat,
}

impl View for SubjectStat {
    type V = SubjectStatView;

    open spec fn view(&self) -> SubjectStatView {
        SubjectStatView {
            subject: self.subject@,
            total_cards: self.total_cards as nat,
            total_attempts: self.total_attempts as nat,
            correct_attempts: self.correct_attempts as nat,
            accuracy: self.accuracy as nat,
        }
    }
}

/// The figures of a vector as mathematical values.
pub open spec fn subject_stat_views(report: Seq<SubjectStat>) -> Seq<SubjectStatView> {
    report.map_values(|stat: SubjectStat| stat@)
}

/// The share of right answers in hundredths of a percent: the average of
/// 100 for each right and 0 for each wrong answer, rounded to two decimal
/// places, a half rounded up. Over no answers at all it is zero.
pub open spec fn accuracy(correct: nat, total: nat) -> nat {
    if total == 0 {
        0
    } else {
        ((20000 * correct + total) / (2 * total)) as nat
    }
}

/// The number of cards of a subject.
pub open spec fn cards_in_subject(cards: Seq<CardView>, subject: Seq<char>) -> nat
    decreases cards.len(),
{
    if cards.len() == 0 {
        0
    } else {
        cards_in_subject(cards.drop_last(), subject) + if cards.last().subject == subject {
            1nat
        } else {
            0nat
        }
    }
}

/// Whether some card has this subject.
pub open spec fn has_subject(cards: Seq<CardView>, subject: Seq<char>) -> bool {
    exists|i: int| 0 <= i < cards.len() && (#[trigger] cards[i]).subject == subject
}

/// Whether the attempt answers a card of this subject.
pub open spec fn answers_subject(cards: Seq<CardView>, attempt: AttemptView, subject: Seq<char>) -> bool {
    exists|i: int|
        0 <= i < cards.len() && (#[trigger] cards[i]).id == Some(attempt.card_id) && cards[i].subject
            == subject
}

/// The number of attempts on cards of a subject.
pub open spec fn attempts_in_subject(
    cards: Seq<CardView>,
    attempts: Seq<AttemptView>,
    subject: Seq<char>,
) -> nat
    decreases attempts.len(),
{
    if attempts.len() == 0 {
        0
    } else {
        attempts_in_subject(cards, attempts.drop_last(), subject) + if answers_subject(
            cards,
            attempts.last(),
            subject,
        ) {
            1nat
        } else {
            0nat
        }
    }
}

/// The number of right attempts on cards of a subject.
pub open spec fn correct_in_subject(
    cards: Seq<CardView>,
    attempts: Seq<AttemptView>,
    subject: Seq<char>,
) -> nat
    decreases attempts.len(),
{
    if attempts.len() == 0 {
        0
    } else {
        correct_in_subject(cards, attempts.drop_last(), subject) + if attempts.last().is_correct
            && answers_subject(cards, attempts.last(), subject) {
            1nat
        } else {
            0nat
        }
    }
}

/// The figures of one subject.
pub open spec fn subject_stat(cards: Seq<CardView>, attempts: Seq<AttemptView>, subject: Seq<char>) -> SubjectStatView {
    SubjectStatView {
        subject,
        total_cards: cards_in_subject(cards, subject),
        total_attempts: attempts_in_subject(cards, attempts, subject),
        correct_attempts: correct_in_subject(cards, attempts, subject),
        accuracy: accuracy(
            correct_in_subject(cards, attempts, subject),
            attempts_in_subject(cards, attempts, subject),
        ),
    }
}

/// The texts stand in strictly ascending order.
pub open spec fn ascending(texts: Seq<Seq<char>>) -> bool {
    forall|a: int, b: int|
        0 <= a < b < texts.len() ==> text_before(#[trigger] texts[a], #[trigger] texts[b])
}

/// No two cards share an id.
pub open spec fn distinct_card_ids(cards: Seq<CardView>) -> bool {
    forall|i: int, j: int|
        0 <= i < j < cards.len() ==> (#[trigger] cards[i]).id != (#[trigger] cards[j]).id
}

/// The subjects of a report, in its order.
pub open spec fn report_subjects(report: Seq<SubjectStatView>) -> Seq<Seq<char>> {
    Seq::new(report.len(), |i: int| report[i].subject)
}

/// Whether `report` is the subject report of the cards and attempts: one
/// entry for every subject that a card has and for no other, each with the
/// figures of its subject, in ascending order of the subjects.
pub open spec fn is_subject_report(
    report: Seq<SubjectStatView>,
    cards: Seq<CardView>,
    attempts: Seq<AttemptView>,
) -> bool {
    &&& ascending(report_subjects(report))
    &&& forall|k: int|
        0 <= k < report.len() ==> has_subject(cards, (#[trigger] report[k]).subject) && report[k]
            == subject_stat(cards, attempts, report[k].subject)
    &&& forall|c: int|
        0 <= c < cards.len() ==> report_subjects(report).contains((#[trigger] cards[c]).subject)
}

/// Computes the accuracy of `correct` right answers among `total`.
pub fn accuracy_of(correct: u64, total: u64) -> (hundredths: u32)
    requires
        correct <= total,
    ensures
        hundredths == accuracy(correct as nat, total as nat),
        hundredths <= 10000,
{
    if total == 0 {
        return 0;
    }
    let c: u128 = correct as u128;
    let t: u128 = total as u128;
    let rounded: u128 = (20000 * c + t) / (2 * t);
    assert(rounded <= 10000) by (nonlinear_arith)
        requires
            rounded == (20000 * c + t) / (2 * t),
            c <= t,
            t > 0,
    ;
    rounded as u32
}

/// The texts of a vector of strings.
pub open spec fn texts(strings: Seq<String>) -> Seq<Seq<char>> {
    Seq::new(strings.len(), |i: int| strings[i]@)
}

/// A subject has at most as many cards as there are.
pub proof fn lemma_cards_in_subject_bound(cards: Seq<CardView>, subject: Seq<char>)
    ensures
        cards_in_subject(cards, subject) <= cards.len(),
    decreases cards.len(),
{
    if cards.len() > 0 {
        lemma_cards_in_subject_bound(cards.drop_last(), subject);
    }
}

/// A subject that no card has counts no card.
pub proof fn lemma_absent_subject_counts_none(cards: Seq<CardView>, subject: Seq<char>)
    requires
        !has_subject(cards, subject),
    ensures
        cards_in_subject(cards, subject) == 0,
    decreases cards.len(),
{
    if cards.len() > 0 {
        let rest = cards.drop_last();
        assert forall|i: int| 0 <= i < rest.len() implies (#[trigger] rest[i]).subject != subject by {
            assert(cards[i] == rest[i]);
        }
        assert(cards[cards.len() - 1] == cards.last());
        lemma_absent_subject_counts_none(rest, subject);
    }
}

/// Of the attempts of a subject at most all are right, and there are at
/// most as many as attempts at all.
pub proof fn lemma_attempts_in_subject_bound(
    cards: Seq<CardView>,
    attempts: Seq<AttemptView>,
    subject: Seq<char>,
)
    ensures
        correct_in_subject(cards, attempts, subject) <= attempts_in_subject(cards, attempts, subject)
            <= attempts.len(),
    decreases attempts.len(),
{
    if attempts.len() > 0 {
        lemma_attempts_in_subject_bound(cards, attempts.drop_last(), subject);
    }
}

/// Where `subject` stands, or would have to stand, among ascending
/// subjects: its place and whether it is there.
fn locate_subject(subjects: &Vec<String>, subject: &String) -> (place: (usize, bool))
    requires
        ascending(texts(subjects@)),
    ensures
        place.0 <= subjects@.len(),
        forall|a: int| 0 <= a < place.0 ==> text_before(#[trigger] texts(subjects@)[a], subject@),
        place.1 ==> place.0 < subjects@.len() && texts(subjects@)[place.0 as int] == subject@,
        !place.1 ==> forall|b: int|
            place.0 <= b < subjects@.len() ==> text_before(subject@, #[trigger] texts(subjects@)[b]),
        !place.1 ==> !texts(subjects@).contains(subject@),
{
    let n = subjects.len();
    let ghost listed = texts(subjects@);
    let mut j: usize = 0;
    while j < n
        invariant
            j <= n,
            n == subjects@.len(),
            listed == texts(subjects@),
            ascending(listed),
            forall|a: int| 0 <= a < j ==> text_before(#[trigger] listed[a], subject@),
        decreases n - j,
    {
        if subjects[j] == *subject {
            assert(listed[j as int] == subject@);
            return (j, true);
        }
        if comes_before(subject.as_str(), subjects[j].as_str()) {
            proof {
                assert(text_before(subject@, listed[j as int]));
                assert forall|b: int| j <= b < n implies text_before(
                    subject@,
                    #[trigger] listed[b],
                ) by {
                    if b > j {
                        assert(text_before(listed[j as int], listed[b]));
                        lemma_text_before_transitive(subject@, listed[j as int], listed[b]);
                    }
                }
                lemma_not_listed(listed, subject@, j as int);
            }
            return (j, false);
        }
        proof {
            if !text_before(listed[j as int], subject@) {
                lemma_text_before_total(listed[j as int], subject@);
            }
        }
        j = j + 1;
    }
    proof {
        lemma_not_listed(listed, subject@, n as int);
    }
    (n, false)
}

/// A text that stands strictly between the texts before a place and those
/// from it on is none of them.
proof fn lemma_not_listed(listed: Seq<Seq<char>>, subject: Seq<char>, place: int)
    requires
        0 <= place <= listed.len(),
        forall|a: int| 0 <= a < place ==> text_before(#[trigger] listed[a], subject),
        forall|b: int| place <= b < listed.len() ==> text_before(subject, #[trigger] listed[b]),
    ensures
        !listed.contains(subject),
{
    assert forall|k: int| 0 <= k < listed.len() implies #[trigger] listed[k] != subject by {
        lemma_text_before_irreflexive(subject);
        if k < place {
            assert(text_before(listed[k], subject));
        } else {
            assert(text_before(subject, listed[k]));
        }
    }
}

/// Ascending texts are pairwise different.
proof fn lemma_ascending_distinct(listed: Seq<Seq<char>>, a: int, b: int)
    requires
        ascending(listed),
        0 <= a < listed.len(),
        0 <= b < listed.len(),
        a != b,
    ensures
        listed[a] != listed[b],
{
    lemma_text_before_irreflexive(listed[a]);
    if a < b {
        assert(text_before(listed[a], listed[b]));
    } else {
        assert(text_before(listed[b], listed[a]));
    }
}

/// The subjects of the cards in ascending order, each once, and beside
/// each the number of its cards.
fn collect_subjects(cards: &Vec<Card>) -> (found: (Vec<String>, Vec<u64>))
    ensures
        found.0@.len() == found.1@.len(),
        ascending(texts(found.0@)),
        forall|k: int|
            0 <= k < found.0@.len() ==> has_subject(
                card_views(cards@),
                #[trigger] texts(found.0@)[k],
            ) && found.1@[k] == cards_in_subject(card_views(cards@), texts(found.0@)[k]),
        forall|c: int|
            0 <= c < cards@.len() ==> texts(found.0@).contains(
                (#[trigger] card_views(cards@)[c]).subject,
            ),
{
    let n = cards.len();
    let ghost all = card_views(cards@);
    let mut subjects: Vec<String> = Vec::new();
    let mut counts: Vec<u64> = Vec::new();
    let mut i: usize = 0;
    while i < n
        invariant
            i <= n,
            n == cards@.len(),
            all == card_views(cards@),
            subjects@.len() == counts@.len(),
            ascending(texts(subjects@)),
            forall|k: int|
                0 <= k < subjects@.len() ==> has_subject(
                    all.take(i as int),
                    #[trigger] texts(subjects@)[k],
                ) && counts@[k] == cards_in_subject(all.take(i as int), texts(subjects@)[k]),
            forall|c: int| 0 <= c < i ==> texts(subjects@).contains((#[trigger] all[c]).subject),
        decreases n - i,
    {
        let ghost seen = all.take(i as int);
        let ghost next = all.take(i as int + 1);
        let ghost listed = texts(subjects@);
        let ghost subject = cards@[i as int]@.subject;
        proof {
            assert(next.drop_last() =~= seen);
            assert(next.last() == all[i as int]);
            assert(all[i as int].subject == subject);
            assert forall|k: int| 0 <= k < listed.len() implies has_subject(
                next,
                #[trigger] listed[k],
            ) by {
                assert(has_subject(seen, listed[k]));
                let w = choose|w: int| 0 <= w < seen.len() && (#[trigger] seen[w]).subject == listed[k];
                assert(next[w] == seen[w]);
            }
        }
        let place = locate_subject(&subjects, &cards[i].subject);
        let j = place.0;
        if place.1 {
            proof {
                lemma_cards_in_subject_bound(seen, listed[j as int]);
            }
            let more: u64 = counts[j] + 1;
            counts.set(j, more);
            proof {
                assert forall|k: int| 0 <= k < listed.len() implies counts@[k] == cards_in_subject(
                    next,
                    #[trigger] listed[k],
                ) by {
                    if k != j {
                        lemma_ascending_distinct(listed, k, j as int);
                    }
                }
                assert forall|c: int| 0 <= c < i + 1 implies listed.contains(
                    (#[trigger] all[c]).subject,
                ) by {
                    if c == i {
                        assert(listed[j as int] == subject);
                    }
                }
            }
        } else {
            let copy = cards[i].subject.clone();
            subjects.insert(j, copy);
            counts.insert(j, 1);
            proof {
                let grown = texts(subjects@);
                assert(grown =~= listed.insert(j as int, subject));
                assert forall|a: int, b: int| 0 <= a < b < grown.len() implies text_before(
                    #[trigger] grown[a],
                    #[trigger] grown[b],
                ) by {
                    if b < j {
                        assert(text_before(listed[a], listed[b]));
                    } else if b == j {
                        assert(text_before(listed[a], subject));
                    } else if a < j {
                        assert(text_before(listed[a], listed[b - 1]));
                    } else if a == j {
                        assert(text_before(subject, listed[b - 1]));
                    } else {
                        assert(text_before(listed[a - 1], listed[b - 1]));
                    }
                }
                assert(!has_subject(seen, subject)) by {
                    if has_subject(seen, subject) {
                        let w = choose|w: int|
                            0 <= w < seen.len() && (#[trigger] seen[w]).subject == subject;
                        assert(seen[w] == all[w]);
                        assert(listed.contains(all[w].subject));
                    }
                }
                lemma_absent_subject_counts_none(seen, subject);
                assert forall|k: int| 0 <= k < grown.len() implies has_subject(
                    next,
                    #[trigger] grown[k],
                ) && counts@[k] == cards_in_subject(next, grown[k]) by {
                    if k < j {
                        assert(grown[k] == listed[k]);
                        assert(has_subject(next, listed[k]));
                        assert(listed[k] != subject);
                    } else if k == j {
                        assert(next[i as int].subject == subject);
                    } else {
                        assert(grown[k] == listed[k - 1]);
                        assert(has_subject(next, listed[k - 1]));
                        assert(listed[k - 1] != subject);
                    }
                }
                assert forall|c: int| 0 <= c < i + 1 implies grown.contains(
                    (#[trigger] all[c]).subject,
                ) by {
                    if c == i {
                        assert(grown[j as int] == subject);
                    } else {
                        assert(listed.contains(all[c].subject));
                        let w = choose|w: int| 0 <= w < listed.len() && listed[w] == all[c].subject;
                        if w < j {
                            assert(grown[w] == listed[w]);
                        } else {
                            assert(grown[w + 1] == listed[w]);
                        }
                    }
                }
            }
        }
        i = i + 1;
    }
    assert(all.take(n as int) =~= all);
    (subjects, counts)
}

/// A vector of `len` zeros.
fn zeros(len: usize) -> (counts: Vec<u64>)
    ensures
        counts@.len() == len,
        forall|k: int| 0 <= k < len ==> counts@[k] == 0,
{
    let mut counts: Vec<u64> = Vec::new();
    let mut k: usize = 0;
    while k < len
        invariant
            k <= len,
            counts@.len() == k,
            forall|a: int| 0 <= a < k ==> counts@[a] == 0,
        decreases len - k,
    {
        counts.push(0);
        k = k + 1;
    }
    counts
}

/// Beside each subject the number of attempts on its cards, and the
/// number of right ones among them.
fn tally_by_subject(cards: &Vec<Card>, attempts: &Vec<Attempt>, subjects: &Vec<String>) -> (tallies:
    (Vec<u64>, Vec<u64>))
    requires
        distinct_card_ids(card_views(cards@)),
        ascending(texts(subjects@)),
        forall|c: int|
            0 <= c < cards@.len() ==> texts(subjects@).contains(
                (#[trigger] card_views(cards@)[c]).subject,
            ),
    ensures
        tallies.0@.len() == subjects@.len(),
        tallies.1@.len() == subjects@.len(),
        forall|k: int|
            0 <= k < subjects@.len() ==> tallies.0@[k] == attempts_in_subject(
                card_views(cards@),
                attempt_views(attempts@),
                #[trigger] texts(subjects@)[k],
            ) && tallies.1@[k] == correct_in_subject(
                card_views(cards@),
                attempt_views(attempts@),
                texts(subjects@)[k],
            ),
{
    let ghost all = card_views(cards@);
    let ghost log = attempt_views(attempts@);
    let ghost listed = texts(subjects@);
    let mut totals = zeros(subjects.len());
    let mut rights = zeros(subjects.len());
    let n = attempts.len();
    let mut t: usize = 0;
    assert(log.take(0) =~= Seq::<AttemptView>::empty());
    while t < n
        invariant
            t <= n,
            n == attempts@.len(),
            all == card_views(cards@),
            log == attempt_views(attempts@),
            listed == texts(subjects@),
            distinct_card_ids(all),
            ascending(listed),
            forall|c: int| 0 <= c < all.len() ==> listed.contains((#[trigger] all[c]).subject),
            totals@.len() == listed.len(),
            rights@.len() == listed.len(),
            forall|k: int|
                0 <= k < listed.len() ==> totals@[k] == attempts_in_subject(
                    all,
                    log.take(t as int),
                    #[trigger] listed[k],
                ) && rights@[k] == correct_in_subject(all, log.take(t as int), listed[k]),
        decreases n - t,
    {
        let ghost seen = log.take(t as int);
        let ghost next = log.take(t as int + 1);
        let ghost answer = log[t as int];
        proof {
            assert(next.drop_last() =~= seen);
            assert(next.last() == answer);
            assert(answer == attempts@[t as int]@);
        }
        match find_row(cards, attempts[t].card_id) {
            Some(c) => {
                assert(all[c as int].id == Some(answer.card_id));
                let place = locate_subject(subjects, &cards[c].subject);
                let k = place.0;
                proof {
                    assert(listed.contains(all[c as int].subject));
                    assert(listed[k as int] == all[c as int].subject);
                    lemma_attempts_in_subject_bound(all, seen, listed[k as int]);
                    assert forall|other: int| 0 <= other < listed.len() implies (answers_subject(
                        all,
                        answer,
                        #[trigger] listed[other],
                    ) <==> other == k) by {
                        if other != k {
                            lemma_ascending_distinct(listed, other, k as int);
                            if answers_subject(all, answer, listed[other]) {
                                let w = choose|w: int|
                                    0 <= w < all.len() && (#[trigger] all[w]).id == Some(
                                        answer.card_id,
                                    ) && all[w].subject == listed[other];
                                if w < c {
                                    assert(all[w].id != all[c as int].id);
                                } else if c < w {
                                    assert(all[c as int].id != all[w].id);
                                }
                            }
                        }
                    }
                }
                if place.1 {
                    let more: u64 = totals[k] + 1;
                    totals.set(k, more);
                    if attempts[t].is_correct {
                        let more: u64 = rights[k] + 1;
                        rights.set(k, more);
                    }
                }
            },
            None => {
                proof {
                    assert forall|other: int| 0 <= other < listed.len() implies !answers_subject(
                        all,
                        answer,
                        #[trigger] listed[other],
                    ) by {
                        if answers_subject(all, answer, listed[other]) {
                            let w = choose|w: int|
                                0 <= w < all.len() && (#[trigger] all[w]).id == Some(answer.card_id)
                                    && all[w].subject == listed[other];
                            assert(all[w] == cards@[w]@);
                        }
                    }
                }
            },
        }
        t = t + 1;
    }
    assert(log.take(n as int) =~= log);
    (totals, rights)
}

/// The subject report: for every subject that a card has, the number of
/// its cards, of the attempts on them and of the right ones among those,
/// and the accuracy; in ascending order of the subjects. An attempt counts
/// for the subject of the card that it names; one that names no stored
/// card counts nowhere.
pub fn subject_stats(cards: &Vec<Card>, attempts: &Vec<Attempt>) -> (report: Vec<SubjectStat>)
    requires
        distinct_card_ids(card_views(cards@)),
    ensures
        is_subject_report(
            subject_stat_views(report@),
            card_views(cards@),
            attempt_views(attempts@),
        ),
{
    let ghost all = card_views(cards@);
    let ghost log = attempt_views(attempts@);
    let found = collect_subjects(cards);
    let subjects = found.0;
    let counts = found.1;
    let tallies = tally_by_subject(cards, attempts, &subjects);
    let totals = tallies.0;
    let rights = tallies.1;
    let ghost listed = texts(subjects@);
    let n = subjects.len();
    let mut report: Vec<SubjectStat> = Vec::new();
    let mut k: usize = 0;
    while k < n
        invariant
            k <= n,
            n == subjects@.len(),
            counts@.len() == n,
            totals@.len() == n,
            rights@.len() == n,
            listed == texts(subjects@),
            report@.len() == k,
            forall|a: int|
                0 <= a < n ==> counts@[a] == cards_in_subject(all, #[trigger] listed[a]) && totals@[a]
                    == attempts_in_subject(all, log, listed[a]) && rights@[a] == correct_in_subject(
                    all,
                    log,
                    listed[a],
                ),
            forall|a: int|
                0 <= a < k ==> (#[trigger] report@[a])@ == subject_stat(all, log, listed[a]),
        decreases n - k,
    {
        proof {
            assert(listed[k as int] == subjects@[k as int]@);
            lemma_attempts_in_subject_bound(all, log, listed[k as int]);
        }
        let stat = SubjectStat {
            subject: subjects[k].clone(),
            total_cards: counts[k],
            total_attempts: totals[k],
            correct_attempts: rights[k],
            accuracy: accuracy_of(rights[k], totals[k]),
        };
        report.push(stat);
        k = k + 1;
    }
    proof {
        let views = subject_stat_views(report@);
        assert(report_subjects(views) =~= listed);
        assert forall|a: int| 0 <= a < views.len() implies has_subject(
            all,
            (#[trigger] views[a]).subject,
        ) && views[a] == subject_stat(all, log, views[a].subject) by {
            assert(views[a] == report@[a]@);
            assert(has_subject(all, listed[a]));
        }
    }
    report
}

/// Activity and accuracy of one day. The accuracy is given in hundredths
/// of a percent, as for a subject.
#[derive(Clone, Copy, Debug, PartialEq, Eq, Structural)]
pub struct DailyStat {
    pub date: Date,
    pub sessions: u64,
    pub total_questions: u64,
    pub correct_answers: u64,
    pub accuracy: u32,
}

/// The figures of one day as a mathematical value.
pub struct DailyStatView {
    pub date: Date,
    pub sessions: nat,
    pub total_questions: nat,
    pub correct_answers: nat,
    pub accuracy: nat,
}

impl View for DailyStat {
    type V = DailyStatView;

    open spec fn view(&self) -> DailyStatView {
        DailyStatView {
            date: self.date,
            sessions: self.sessions as nat,
            total_questions: self.total_questions as nat,
            correct_answers: self.correct_answers as nat,
            accuracy: self.accuracy as nat,
        }
    }
}

/// The figures of a vector as mathematical values.
pub open spec fn daily_stat_views(report: Seq<DailyStat>) -> Seq<DailyStatView> {
    report.map_values(|stat: DailyStat| stat@)
}

/// The calendar date on which a session started, if its start time names
/// one.
pub open spec fn session_date(session: SessionView) -> Option<Date> {
    date_of_text(session.started_at)
}

/// Whether `date` lies in the trailing window of `days` days that ends
/// today: it is at most `days` days before today. The day exactly `days`
/// days back is inside; later days, today and what follows it, are inside
/// too. A negative `days` gives an empty window.
pub open spec fn in_window(date: Date, today: Date, days: int) -> bool {
    0 <= days && today.day_number() - days <= date.day_number()
}

/// The number of sessions that started on a date.
pub open spec fn sessions_on(sessions: Seq<SessionView>, date: Date) -> nat
    decreases sessions.len(),
{
    if sessions.len() == 0 {
        0
    } else {
        sessions_on(sessions.drop_last(), date) + if session_date(sessions.last()) == Some(date) {
            1nat
        } else {
            0nat
        }
    }
}

/// Whether some session started on this date.
pub open spec fn has_session_on(sessions: Seq<SessionView>, date: Date) -> bool {
    exists|i: int| 0 <= i < sessions.len() && session_date(#[trigger] sessions[i]) == Some(date)
}

/// Whether the attempt belongs to a session that started on this date.
pub open spec fn answers_on(sessions: Seq<SessionView>, attempt: AttemptView, date: Date) -> bool {
    exists|i: int|
        0 <= i < sessions.len() && (#[trigger] sessions[i]).id == Some(attempt.session_id)
            && session_date(sessions[i]) == Some(date)
}

/// The number of attempts in the sessions that started on a date.
pub open spec fn attempts_on(sessions: Seq<SessionView>, attempts: Seq<AttemptView>, date: Date) -> nat
    decreases attempts.len(),
{
    if attempts.len() == 0 {
        0
    } else {
        attempts_on(sessions, attempts.drop_last(), date) + if answers_on(
            sessions,
            attempts.last(),
            date,
        ) {
            1nat
        } else {
            0nat
        }
    }
}

/// The number of right attempts in the sessions that started on a date.
pub open spec fn correct_on(sessions: Seq<SessionView>, attempts: Seq<AttemptView>, date: Date) -> nat
    decreases attempts.len(),
{
    if attempts.len() == 0 {
        0
    } else {
        correct_on(sessions, attempts.drop_last(), date) + if attempts.last().is_correct
            && answers_on(sessions, attempts.last(), date) {
            1nat
        } else {
            0nat
        }
    }
}

/// The figures of one day.
pub open spec fn daily_stat(sessions: Seq<SessionView>, attempts: Seq<AttemptView>, date: Date) -> DailyStatView {
    DailyStatView {
        date,
        sessions: sessions_on(sessions, date),
        total_questions: attempts_on(sessions, attempts, date),
        correct_answers: correct_on(sessions, attempts, date),
        accuracy: accuracy(correct_on(sessions, attempts, date), attempts_on(sessions, attempts, date)),
    }
}

/// The dates stand in strictly descending order, the latest first.
pub open spec fn descending(dates: Seq<Date>) -> bool {
    forall|a: int, b: int|
        0 <= a < b < dates.len() ==> (#[trigger] dates[b]).is_earlier_than(#[trigger] dates[a])
}

/// No two sessions share an id.
pub open spec fn distinct_session_ids(sessions: Seq<SessionView>) -> bool {
    forall|i: int, j: int|
        0 <= i < j < sessions.len() ==> (#[trigger] sessions[i]).id != (#[trigger] sessions[j]).id
}

/// The dates of a report, in its order.
pub open spec fn report_dates(report: Seq<DailyStatView>) -> Seq<Date> {
    Seq::new(report.len(), |i: int| report[i].date)
}

/// Whether `report` is the daily report over the window of `days` days
/// that ends `today`: one entry for every date in the window on which a
/// session started and for no other, each with the figures of its date,
/// the latest date first.
pub open spec fn is_daily_report(
    report: Seq<DailyStatView>,
    sessions: Seq<SessionView>,
    attempts: Seq<AttemptView>,
    today: Date,
    days: int,
) -> bool {
    &&& descending(report_dates(report))
    &&& forall|k: int|
        0 <= k < report.len() ==> in_window((#[trigger] report[k]).date, today, days)
            && has_session_on(sessions, report[k].date) && report[k] == daily_stat(
            sessions,
            attempts,
            report[k].date,
        )
    &&& forall|s: int, date: Date|
        0 <= s < sessions.len() && session_date(#[trigger] sessions[s]) == Some(date) && in_window(
            date,
            today,
            days,
        ) ==> #[trigger] report_dates(report).contains(date)
}

/// A date has at most as many sessions as there are.
pub proof fn lemma_sessions_on_bound(sessions: Seq<SessionView>, date: Date)
    ensures
        sessions_on(sessions, date) <= sessions.len(),
    decreases sessions.len(),
{
    if sessions.len() > 0 {
        lemma_sessions_on_bound(sessions.drop_last(), date);
    }
}

/// A date on which no session started counts no session.
pub proof fn lemma_absent_date_counts_none(sessions: Seq<SessionView>, date: Date)
    requires
        !has_session_on(sessions, date),
    ensures
        sessions_on(sessions, date) == 0,
    decreases sessions.len(),
{
    if sessions.len() > 0 {
        let rest = sessions.drop_last();
        assert forall|i: int| 0 <= i < rest.len() implies session_date(#[trigger] rest[i]) != Some(
            date,
        ) by {
            assert(sessions[i] == rest[i]);
        }
        assert(sessions[sessions.len() - 1] == sessions.last());
        lemma_absent_date_counts_none(rest, date);
    }
}

/// Of the attempts of a date at most all are right, and there are at most
/// as many as attempts at all.
pub proof fn lemma_attempts_on_bound(
    sessions: Seq<SessionView>,
    attempts: Seq<AttemptView>,
    date: Date,
)
    ensures
        correct_on(sessions, attempts, date) <= attempts_on(sessions, attempts, date)
            <= attempts.len(),
    decreases attempts.len(),
{
    if attempts.len() > 0 {
        lemma_attempts_on_bound(sessions, attempts.drop_last(), date);
    }
}

/// Reports whether `a` is earlier than `b`.
pub fn is_earlier(a: Date, b: Date) -> (earlier: bool)
    ensures
        earlier == a.is_earlier_than(b),
{
    a.year < b.year || (a.year == b.year && (a.month < b.month || (a.month == b.month && a.day
        < b.day)))
}

/// Where `date` stands, or would have to stand, among descending dates:
/// its place and whether it is there.
fn locate_date(dates: &Vec<Date>, date: Date) -> (place: (usize, bool))
    requires
        descending(dates@),
    ensures
        place.0 <= dates@.len(),
        forall|a: int| 0 <= a < place.0 ==> date.is_earlier_than(#[trigger] dates@[a]),
        place.1 ==> place.0 < dates@.len() && dates@[place.0 as int] == date,
        !place.1 ==> forall|b: int|
            place.0 <= b < dates@.len() ==> (#[trigger] dates@[b]).is_earlier_than(date),
        !place.1 ==> !dates@.contains(date),
{
    let n = dates.len();
    let mut j: usize = 0;
    while j < n
        invariant
            j <= n,
            n == dates@.len(),
            descending(dates@),
            forall|a: int| 0 <= a < j ==> date.is_earlier_than(#[trigger] dates@[a]),
        decreases n - j,
    {
        let here = dates[j];
        if here == date {
            return (j, true);
        }
        if is_earlier(here, date) {
            proof {
                assert forall|b: int| j <= b < n implies (#[trigger] dates@[b]).is_earlier_than(
                    date,
                ) by {
                    if b > j {
                        assert(dates@[b].is_earlier_than(dates@[j as int]));
                    }
                }
                assert forall|k: int| 0 <= k < n implies #[trigger] dates@[k] != date by {
                    if k < j {
                        assert(date.is_earlier_than(dates@[k]));
                    } else {
                        assert(dates@[k].is_earlier_than(date));
                    }
                }
            }
            return (j, false);
        }
        j = j + 1;
    }
    proof {
        assert forall|k: int| 0 <= k < n implies #[trigger] dates@[k] != date by {
            assert(date.is_earlier_than(dates@[k]));
        }
    }
    (n, false)
}

/// The dates of the window on which a session started, the latest first
/// and each once, and beside each the number of its sessions.
fn collect_dates(sessions: &Vec<Session>, today: Date, days: i32) -> (found: (Vec<Date>, Vec<u64>))
    ensures
        found.0@.len() == found.1@.len(),
        descending(found.0@),
        forall|k: int|
            0 <= k < found.0@.len() ==> in_window(#[trigger] found.0@[k], today, days as int)
                && has_session_on(session_views(sessions@), found.0@[k]) && found.1@[k]
                == sessions_on(session_views(sessions@), found.0@[k]),
        forall|s: int, date: Date|
            0 <= s < sessions@.len() && session_date(#[trigger] session_views(sessions@)[s])
                == Some(date) && in_window(date, today, days as int)
                ==> #[trigger] found.0@.contains(date),
{
    let mut dates: Vec<Date> = Vec::new();
    let mut counts: Vec<u64> = Vec::new();
    if days < 0 {
        return (dates, counts);
    }
    let first_day: i64 = today.to_day_number() - days as i64;
    let n = sessions.len();
    let ghost all = session_views(sessions@);
    let mut i: usize = 0;
    while i < n
        invariant
            i <= n,
            n == sessions@.len(),
            all == session_views(sessions@),
            0 <= days,
            first_day == today.day_number() - days,
            dates@.len() == counts@.len(),
            descending(dates@),
            forall|k: int|
                0 <= k < dates@.len() ==> in_window(#[trigger] dates@[k], today, days as int)
                    && has_session_on(all.take(i as int), dates@[k]) && counts@[k] == sessions_on(
                    all.take(i as int),
                    dates@[k],
                ),
            forall|s: int, date: Date|
                0 <= s < i && session_date(#[trigger] all[s]) == Some(date) && in_window(
                    date,
                    today,
                    days as int,
                ) ==> #[trigger] dates@.contains(date),
        decreases n - i,
    {
        let ghost seen = all.take(i as int);
        let ghost next = all.take(i as int + 1);
        let ghost listed = dates@;
        proof {
            assert(next.drop_last() =~= seen);
            assert(next.last() == all[i as int]);
            assert(all[i as int] == sessions@[i as int]@);
            assert forall|k: int| 0 <= k < listed.len() implies has_session_on(
                next,
                #[trigger] listed[k],
            ) by {
                assert(has_session_on(seen, listed[k]));
                let w = choose|w: int|
                    0 <= w < seen.len() && session_date(#[trigger] seen[w]) == Some(listed[k]);
                assert(next[w] == seen[w]);
            }
        }
        let started = parse_date(sessions[i].started_at.as_str());
        let mut counted = false;
        match started {
            Some(date) => {
                if date.to_day_number() >= first_day {
                    counted = true;
                    let place = locate_date(&dates, date);
                    let j = place.0;
                    if place.1 {
                        proof {
                            lemma_sessions_on_bound(seen, date);
                        }
                        let more: u64 = counts[j] + 1;
                        counts.set(j, more);
                        proof {
                            assert forall|s: int, other: Date|
                                0 <= s < i + 1 && session_date(#[trigger] all[s]) == Some(other)
                                    && in_window(other, today, days as int) implies #[trigger] listed.contains(
                                other,
                            ) by {
                                if s == i {
                                    assert(listed[j as int] == date);
                                }
                            }
                        }
                    } else {
                        dates.insert(j, date);
                        counts.insert(j, 1);
                        proof {
                            let grown = dates@;
                            assert forall|a: int, b: int|
                                0 <= a < b < grown.len() implies (#[trigger] grown[b]).is_earlier_than(
                                #[trigger] grown[a],
                            ) by {
                                if b < j {
                                    assert(listed[b].is_earlier_than(listed[a]));
                                } else if b == j {
                                    assert(date.is_earlier_than(listed[a]));
                                } else if a < j {
                                    assert(listed[b - 1].is_earlier_than(listed[a]));
                                } else if a == j {
                                    assert(listed[b - 1].is_earlier_than(date));
                                } else {
                                    assert(listed[b - 1].is_earlier_than(listed[a - 1]));
                                }
                            }
                            assert(!has_session_on(seen, date)) by {
                                if has_session_on(seen, date) {
                                    let w = choose|w: int|
                                        0 <= w < seen.len() && session_date(#[trigger] seen[w])
                                            == Some(date);
                                    assert(seen[w] == all[w]);
                                    assert(listed.contains(date));
                                }
                            }
                            lemma_absent_date_counts_none(seen, date);
                            assert forall|k: int| 0 <= k < grown.len() implies in_window(
                                #[trigger] grown[k],
                                today,
                                days as int,
                            ) && has_session_on(next, grown[k]) && counts@[k] == sessions_on(
                                next,
                                grown[k],
                            ) by {
                                if k < j {
                                    assert(grown[k] == listed[k]);
                                    assert(has_session_on(next, listed[k]));
                                    assert(listed[k] != date);
                                } else if k == j {
                                    assert(session_date(next[i as int]) == Some(date));
                                } else {
                                    assert(grown[k] == listed[k - 1]);
                                    assert(has_session_on(next, listed[k - 1]));
                                    assert(listed[k - 1] != date);
                                }
                            }
                            assert forall|s: int, other: Date|
                                0 <= s < i + 1 && session_date(#[trigger] all[s]) == Some(other)
                                    && in_window(other, today, days as int) implies #[trigger] grown.contains(
                                other,
                            ) by {
                                if s == i {
                                    assert(grown[j as int] == date);
                                } else {
                                    assert(listed.contains(other));
                                    let w = choose|w: int| 0 <= w < listed.len() && listed[w] == other;
                                    if w < j {
                                        assert(grown[w] == listed[w]);
                                    } else {
                                        assert(grown[w + 1] == listed[w]);
                                    }
                                }
                            }
                        }
                    }
                }
            },
            None => {},
        }
        proof {
            if !counted {
                assert forall|k: int| 0 <= k < listed.len() implies session_date(all[i as int])
                    != Some(#[trigger] listed[k]) by {
                    assert(in_window(listed[k], today, days as int));
                }
            }
        }
        i = i + 1;
    }
    assert(all.take(n as int) =~= all);
    (dates, counts)
}

/// Beside each date the number of attempts in the sessions that started
/// on it, and the number of right ones among them.
fn tally_by_date(sessions: &Vec<Session>, attempts: &Vec<Attempt>, dates: &Vec<Date>) -> (tallies: (
    Vec<u64>,
    Vec<u64>,
))
    requires
        distinct_session_ids(session_views(sessions@)),
        descending(dates@),
    ensures
        tallies.0@.len() == dates@.len(),
        tallies.1@.len() == dates@.len(),
        forall|k: int|
            0 <= k < dates@.len() ==> tallies.0@[k] == attempts_on(
                session_views(sessions@),
                attempt_views(attempts@),
                #[trigger] dates@[k],
            ) && tallies.1@[k] == correct_on(
                session_views(sessions@),
                attempt_views(attempts@),
                dates@[k],
            ),
{
    let ghost all = session_views(sessions@);
    let ghost log = attempt_views(attempts@);
    let ghost listed = dates@;
    let mut totals = zeros(dates.len());
    let mut rights = zeros(dates.len());
    let n = attempts.len();
    let mut t: usize = 0;
    assert(log.take(0) =~= Seq::<AttemptView>::empty());
    while t < n
        invariant
            t <= n,
            n == attempts@.len(),
            all == session_views(sessions@),
            log == attempt_views(attempts@),
            listed == dates@,
            distinct_session_ids(all),
            descending(listed),
            totals@.len() == listed.len(),
            rights@.len() == listed.len(),
            forall|k: int|
                0 <= k < listed.len() ==> totals@[k] == attempts_on(
                    all,
                    log.take(t as int),
                    #[trigger] listed[k],
                ) && rights@[k] == correct_on(all, log.take(t as int), listed[k]),
        decreases n - t,
    {
        let ghost seen = log.take(t as int);
        let ghost next = log.take(t as int + 1);
        let ghost answer = log[t as int];
        proof {
            assert(next.drop_last() =~= seen);
            assert(next.last() == answer);
            assert(answer == attempts@[t as int]@);
        }
        let mut counted = false;
        match find_row(sessions, attempts[t].session_id) {
            Some(s) => {
                assert(all[s as int] == sessions@[s as int]@);
                proof {
                    assert forall|other: int, w: int|
                        0 <= other < listed.len() && 0 <= w < all.len() && (#[trigger] all[w]).id
                            == Some(answer.session_id) && session_date(all[w]) == Some(
                            #[trigger] listed[other],
                        ) implies w == s by {
                        if w < s {
                            assert(all[w].id != all[s as int].id);
                        } else if s < w {
                            assert(all[s as int].id != all[w].id);
                        }
                    }
                }
                match parse_date(sessions[s].started_at.as_str()) {
                    Some(date) => {
                        let place = locate_date(dates, date);
                        let k = place.0;
                        if place.1 {
                            counted = true;
                            proof {
                                lemma_attempts_on_bound(all, seen, date);
                                assert forall|other: int| 0 <= other < listed.len() implies (
                                answers_on(all, answer, #[trigger] listed[other]) <==> other == k) by {
                                    if other != k {
                                        assert(listed[other] != listed[k as int]) by {
                                            if other < k {
                                                assert(listed[k as int].is_earlier_than(
                                                    listed[other],
                                                ));
                                            } else {
                                                assert(listed[other].is_earlier_than(
                                                    listed[k as int],
                                                ));
                                            }
                                        }
                                        if answers_on(all, answer, listed[other]) {
                                            let w = choose|w: int|
                                                0 <= w < all.len() && (#[trigger] all[w]).id == Some(
                                                    answer.session_id,
                                                ) && session_date(all[w]) == Some(listed[other]);
                                            assert(w == s);
                                        }
                                    }
                                }
                            }
                            let more: u64 = totals[k] + 1;
                            totals.set(k, more);
                            if attempts[t].is_correct {
                                let more: u64 = rights[k] + 1;
                                rights.set(k, more);
                            }
                        }
                    },
                    None => {},
                }
                proof {
                    if !counted {
                        assert forall|other: int| 0 <= other < listed.len() implies !answers_on(
                            all,
                            answer,
                            #[trigger] listed[other],
                        ) by {
                            if answers_on(all, answer, listed[other]) {
                                let w = choose|w: int|
                                    0 <= w < all.len() && (#[trigger] all[w]).id == Some(
                                        answer.session_id,
                                    ) && session_date(all[w]) == Some(listed[other]);
                                assert(w == s);
                                assert(listed.contains(listed[other]));
                            }
                        }
                    }
                }
            },
            None => {
                proof {
                    assert forall|other: int| 0 <= other < listed.len() implies !answers_on(
                        all,
                        answer,
                        #[trigger] listed[other],
                    ) by {
                        if answers_on(all, answer, listed[other]) {
                            let w = choose|w: int|
                                0 <= w < all.len() && (#[trigger] all[w]).id == Some(
                                    answer.session_id,
                                ) && session_date(all[w]) == Some(listed[other]);
                            assert(all[w] == sessions@[w]@);
                        }
                    }
                }
            },
        }
        t = t + 1;
    }
    assert(log.take(n as int) =~= log);
    (totals, rights)
}

/// The daily report over the trailing `days` days that end `today`: for
/// every date in the window on which a session started, the number of its
/// sessions, of the attempts in them and of the right ones among those,
/// and the accuracy; the latest date first. A session whose start time
/// names no date is left out, and so is every attempt of a session that is
/// not stored.
pub fn daily_stats(sessions: &Vec<Session>, attempts: &Vec<Attempt>, days: i32, today: Date) -> (report:
    Vec<DailyStat>)
    requires
        distinct_session_ids(session_views(sessions@)),
    ensures
        is_daily_report(
            daily_stat_views(report@),
            session_views(sessions@),
            attempt_views(attempts@),
            today,
            days as int,
        ),
{
    let ghost all = session_views(sessions@);
    let ghost log = attempt_views(attempts@);
    let found = collect_dates(sessions, today, days);
    let dates = found.0;
    let counts = found.1;
    let tallies = tally_by_date(sessions, attempts, &dates);
    let totals = tallies.0;
    let rights = tallies.1;
    let ghost listed = dates@;
    let n = dates.len();
    let mut report: Vec<DailyStat> = Vec::new();
    let mut k: usize = 0;
    while k < n
        invariant
            k <= n,
            n == dates@.len(),
            counts@.len() == n,
            totals@.len() == n,
            rights@.len() == n,
            listed == dates@,
            report@.len() == k,
            forall|a: int|
                0 <= a < n ==> counts@[a] == sessions_on(all, #[trigger] listed[a]) && totals@[a]
                    == attempts_on(all, log, listed[a]) && rights@[a] == correct_on(
                    all,
                    log,
                    listed[a],
                ),
            forall|a: int| 0 <= a < k ==> (#[trigger] report@[a])@ == daily_stat(all, log, listed[a]),
        decreases n - k,
    {
        proof {
            lemma_attempts_on_bound(all, log, listed[k as int]);
        }
        let stat = DailyStat {
            date: dates[k],
            sessions: counts[k],
            total_questions: totals[k],
            correct_answers: rights[k],
            accuracy: accuracy_of(rights[k], totals[k]),
        };
        report.push(stat);
        k = k + 1;
    }
    proof {
        let views = daily_stat_views(report@);
        assert(report_dates(views) =~= listed);
        assert forall|a: int| 0 <= a < views.len() implies in_window(
            (#[trigger] views[a]).date,
            today,
            days as int,
        ) && has_session_on(all, views[a].date) && views[a] == daily_stat(all, log, views[a].date) by {
            assert(views[a] == report@[a]@);
            assert(in_window(listed[a], today, days as int));
        }
    }
    report
}

} // verus!
