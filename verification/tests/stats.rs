use testdeck::calendar::Date;
use testdeck::model::{Attempt, Card, Session};
use testdeck::stats::{accuracy_of, daily_stats, is_earlier, subject_stats, DailyStat};
use testdeck::store::Store;
use testdeck::text::comes_before;

fn card(question: &str, subject: &str) -> Card {
    Card {
        id: None,
        question: question.to_string(),
        option_a: None,
        option_b: None,
        option_c: None,
        option_d: None,
        option_e: None,
        correct_answer: None,
        blank_answer: None,
        question_type: "multiple_choice".to_string(),
        subject: subject.to_string(),
        difficulty: 1,
        image_path: None,
        created_at: None,
        updated_at: None,
    }
}

fn session(started_at: &str) -> Session {
    Session {
        id: None,
        started_at: started_at.to_string(),
        ended_at: None,
        total_questions: 1,
        correct_answers: None,
        session_type: "practice".to_string(),
    }
}

fn attempt(session_id: i64, card_id: i64, is_correct: bool) -> Attempt {
    Attempt {
        id: None,
        session_id,
        card_id,
        user_answer: "x".to_string(),
        is_correct,
        time_taken: None,
        attempted_at: "2024-05-01 10:00:00".to_string(),
    }
}

fn accuracy_as_percent(hundredths: u32) -> f64 {
    hundredths as f64 / 100.0
}

#[test]
fn accuracy_of_two_right_out_of_three_is_66_67() {
    assert_eq!(accuracy_of(2, 3), 6667);
    assert_eq!(accuracy_as_percent(accuracy_of(2, 3)), 66.67);
}

#[test]
fn accuracy_is_rounded_to_two_places_half_up() {
    assert_eq!(accuracy_of(1, 3), 3333);
    assert_eq!(accuracy_of(1, 32), 313);
    assert_eq!(accuracy_of(1, 16), 625);
    assert_eq!(accuracy_of(1, 7), 1429);
    assert_eq!(accuracy_of(0, 5), 0);
    assert_eq!(accuracy_of(5, 5), 10000);
    assert_eq!(accuracy_of(1, 1), 10000);
    assert_eq!(accuracy_of(u64::MAX, u64::MAX), 10000);
    assert_eq!(accuracy_of(1, u64::MAX), 0);
}

#[test]
fn accuracy_over_no_attempts_is_zero() {
    assert_eq!(accuracy_of(0, 0), 0);
}

#[test]
fn subject_stats_for_correct_correct_incorrect() {
    let mut store = Store::new();
    store.create_card(card("q", "Math"), "t").unwrap();
    store.record_attempt(attempt(1, 1, true)).unwrap();
    store.record_attempt(attempt(1, 1, true)).unwrap();
    store.record_attempt(attempt(1, 1, false)).unwrap();
    let report = store.get_subject_stats();
    assert_eq!(report.len(), 1);
    assert_eq!(report[0].subject, "Math");
    assert_eq!(report[0].total_cards, 1);
    assert_eq!(report[0].total_attempts, 3);
    assert_eq!(report[0].correct_attempts, 2);
    assert_eq!(report[0].accuracy, 6667);
}

#[test]
fn one_card_one_session_one_right_attempt() {
    let mut store = Store::new();
    let mut input = card("2+2?", "Math");
    input.correct_answer = Some("4".to_string());
    let card_id = store.create_card(input, "2024-05-01 09:00:00").unwrap();
    let session_id = store.create_session(session("2024-05-01 10:00:00")).unwrap();
    let mut answer = attempt(session_id, card_id, true);
    answer.user_answer = "4".to_string();
    store.record_attempt(answer).unwrap();
    store.end_session(session_id, 1, "2024-05-01 10:05:00");
    let report = store.get_subject_stats();
    assert_eq!(report.len(), 1);
    assert_eq!(report[0].subject, "Math");
    assert_eq!(report[0].total_cards, 1);
    assert_eq!(report[0].total_attempts, 1);
    assert_eq!(report[0].correct_attempts, 1);
    assert_eq!(report[0].accuracy, 10000);
    assert_eq!(accuracy_as_percent(report[0].accuracy), 100.0);
    let ended = store.get_session(session_id).ok().unwrap();
    assert_eq!(ended.correct_answers, Some(1));
}

#[test]
fn subjects_are_reported_in_ascending_order_each_once() {
    let mut store = Store::new();
    store.create_card(card("a", "Physics"), "t").unwrap();
    store.create_card(card("b", "Biology"), "t").unwrap();
    store.create_card(card("c", "Math"), "t").unwrap();
    store.create_card(card("d", "Biology"), "t").unwrap();
    store.create_card(card("e", "biology"), "t").unwrap();
    store.create_card(card("f", "Bio"), "t").unwrap();
    store.create_card(card("g", "Ärzte"), "t").unwrap();
    let report = store.get_subject_stats();
    let subjects: Vec<&str> = report.iter().map(|s| s.subject.as_str()).collect();
    assert_eq!(subjects, vec!["Bio", "Biology", "Math", "Physics", "biology", "Ärzte"]);
    let counts: Vec<u64> = report.iter().map(|s| s.total_cards).collect();
    assert_eq!(counts, vec![1, 2, 1, 1, 1, 1]);
}

#[test]
fn subject_without_attempts_is_reported_with_zero_counts_and_zero_accuracy() {
    let mut store = Store::new();
    store.create_card(card("a", "Art"), "t").unwrap();
    store.create_card(card("b", "Math"), "t").unwrap();
    store.record_attempt(attempt(1, 2, false)).unwrap();
    let report = store.get_subject_stats();
    assert_eq!(report.len(), 2);
    assert_eq!(report[0].subject, "Art");
    assert_eq!(report[0].total_cards, 1);
    assert_eq!(report[0].total_attempts, 0);
    assert_eq!(report[0].correct_attempts, 0);
    assert_eq!(report[0].accuracy, 0);
    assert_eq!(report[1].subject, "Math");
    assert_eq!(report[1].total_attempts, 1);
    assert_eq!(report[1].correct_attempts, 0);
    assert_eq!(report[1].accuracy, 0);
}

#[test]
fn attempts_count_for_the_subject_of_their_card_only() {
    let mut store = Store::new();
    store.create_card(card("a", "Math"), "t").unwrap();
    store.create_card(card("b", "Math"), "t").unwrap();
    store.create_card(card("c", "History"), "t").unwrap();
    store.record_attempt(attempt(1, 1, true)).unwrap();
    store.record_attempt(attempt(1, 2, false)).unwrap();
    store.record_attempt(attempt(1, 3, true)).unwrap();
    store.record_attempt(attempt(1, 2, true)).unwrap();
    store.record_attempt(attempt(1, 99, true)).unwrap();
    let report = store.get_subject_stats();
    assert_eq!(report.len(), 2);
    assert_eq!(report[0].subject, "History");
    assert_eq!(report[0].total_cards, 1);
    assert_eq!(report[0].total_attempts, 1);
    assert_eq!(report[0].correct_attempts, 1);
    assert_eq!(report[0].accuracy, 10000);
    assert_eq!(report[1].subject, "Math");
    assert_eq!(report[1].total_cards, 2);
    assert_eq!(report[1].total_attempts, 3);
    assert_eq!(report[1].correct_attempts, 2);
    assert_eq!(report[1].accuracy, 6667);
}

#[test]
fn subject_stats_of_an_empty_store_are_empty() {
    let mut store = Store::new();
    assert!(store.get_subject_stats().is_empty());
    assert!(subject_stats(&vec![], &vec![attempt(1, 1, true)]).is_empty());
}

#[test]
fn stats_do_not_change_the_rows() {
    let mut store = Store::new();
    store.create_card(card("a", "Math"), "t").unwrap();
    store.create_session(session("2024-05-01 10:00:00")).unwrap();
    store.record_attempt(attempt(1, 1, true)).unwrap();
    store.get_subject_stats();
    store.get_daily_stats(7, Date { year: 2024, month: 5, day: 1 });
    assert_eq!(store.cards().len(), 1);
    assert_eq!(store.sessions().len(), 1);
    assert_eq!(store.attempts().len(), 1);
}

#[test]
fn daily_stats_for_seven_days_include_the_seventh_day_back_and_exclude_the_eighth() {
    let mut store = Store::new();
    store.create_session(session("2024-05-10 08:00:00")).unwrap();
    store.create_session(session("2024-05-03 23:59:59")).unwrap();
    store.create_session(session("2024-05-02 23:59:59")).unwrap();
    store.create_session(session("2024-04-01 12:00:00")).unwrap();
    let today = Date { year: 2024, month: 5, day: 10 };
    let report = store.get_daily_stats(7, today);
    let dates: Vec<Date> = report.iter().map(|s| s.date).collect();
    assert_eq!(
        dates,
        vec![Date { year: 2024, month: 5, day: 10 }, Date { year: 2024, month: 5, day: 3 }]
    );
}

#[test]
fn daily_window_crosses_month_and_year_ends() {
    let mut store = Store::new();
    store.create_session(session("2023-12-28T10:00:00Z")).unwrap();
    store.create_session(session("2023-12-27T10:00:00Z")).unwrap();
    let today = Date { year: 2024, month: 1, day: 4 };
    let report = store.get_daily_stats(7, today);
    assert_eq!(report.len(), 1);
    assert_eq!(report[0].date, Date { year: 2023, month: 12, day: 28 });
}

#[test]
fn daily_stats_group_by_date_latest_first() {
    let mut store = Store::new();
    store.create_session(session("2024-05-01 08:00:00")).unwrap();
    store.create_session(session("2024-05-03 09:00:00")).unwrap();
    store.create_session(session("2024-05-01T22:00:00Z")).unwrap();
    store.create_session(session("2024-05-02")).unwrap();
    store.record_attempt(attempt(1, 1, true)).unwrap();
    store.record_attempt(attempt(3, 1, true)).unwrap();
    store.record_attempt(attempt(3, 2, false)).unwrap();
    store.record_attempt(attempt(2, 1, false)).unwrap();
    store.record_attempt(attempt(50, 1, true)).unwrap();
    let report = store.get_daily_stats(30, Date { year: 2024, month: 5, day: 4 });
    assert_eq!(
        report,
        vec![
            DailyStat {
                date: Date { year: 2024, month: 5, day: 3 },
                sessions: 1,
                total_questions: 1,
                correct_answers: 0,
                accuracy: 0,
            },
            DailyStat {
                date: Date { year: 2024, month: 5, day: 2 },
                sessions: 1,
                total_questions: 0,
                correct_answers: 0,
                accuracy: 0,
            },
            DailyStat {
                date: Date { year: 2024, month: 5, day: 1 },
                sessions: 2,
                total_questions: 3,
                correct_answers: 2,
                accuracy: 6667,
            },
        ]
    );
}

#[test]
fn daily_stats_with_zero_days_cover_today_only() {
    let mut store = Store::new();
    store.create_session(session("2024-05-01 08:00:00")).unwrap();
    store.create_session(session("2024-04-30 08:00:00")).unwrap();
    let report = store.get_daily_stats(0, Date { year: 2024, month: 5, day: 1 });
    assert_eq!(report.len(), 1);
    assert_eq!(report[0].date, Date { year: 2024, month: 5, day: 1 });
    assert_eq!(report[0].sessions, 1);
}

#[test]
fn daily_stats_with_negative_days_are_empty() {
    let mut store = Store::new();
    store.create_session(session("2024-05-01 08:00:00")).unwrap();
    assert!(store.get_daily_stats(-1, Date { year: 2024, month: 5, day: 1 }).is_empty());
    assert!(store.get_daily_stats(i32::MIN, Date { year: 2024, month: 5, day: 1 }).is_empty());
}

#[test]
fn daily_stats_include_sessions_after_today() {
    let mut store = Store::new();
    store.create_session(session("2024-05-09 08:00:00")).unwrap();
    let report = store.get_daily_stats(1, Date { year: 2024, month: 5, day: 1 });
    assert_eq!(report.len(), 1);
}

#[test]
fn daily_stats_leave_out_sessions_whose_start_names_no_date() {
    let mut store = Store::new();
    store.create_session(session("not a time")).unwrap();
    store.create_session(session("2024-02-30 08:00:00")).unwrap();
    store.record_attempt(attempt(1, 1, true)).unwrap();
    assert!(store.get_daily_stats(i32::MAX, Date { year: 2024, month: 5, day: 1 }).is_empty());
}

#[test]
fn daily_stats_of_plain_rows() {
    let mut first = session("2024-05-01 08:00:00");
    first.id = Some(4);
    let mut answer = attempt(4, 1, true);
    answer.id = Some(1);
    let report = daily_stats(&vec![first], &vec![answer], 3, Date { year: 2024, month: 5, day: 2 });
    assert_eq!(report.len(), 1);
    assert_eq!(report[0].sessions, 1);
    assert_eq!(report[0].total_questions, 1);
    assert_eq!(report[0].correct_answers, 1);
    assert_eq!(report[0].accuracy, 10000);
}

#[test]
fn texts_are_ordered_byte_by_byte() {
    assert!(comes_before("", "a"));
    assert!(!comes_before("a", ""));
    assert!(!comes_before("", ""));
    assert!(comes_before("Math", "Maths"));
    assert!(!comes_before("Maths", "Math"));
    assert!(!comes_before("Math", "Math"));
    assert!(comes_before("Z", "a"));
    assert!(comes_before("abc", "abd"));
    assert!(!comes_before("abd", "abc"));
    assert!(comes_before("z", "é"));
}

#[test]
fn dates_compare_by_year_then_month_then_day() {
    let a = Date { year: 2024, month: 5, day: 1 };
    assert!(is_earlier(Date { year: 2023, month: 12, day: 31 }, a));
    assert!(is_earlier(Date { year: 2024, month: 4, day: 30 }, a));
    assert!(is_earlier(Date { year: 2024, month: 4, day: 1 }, a));
    assert!(!is_earlier(a, a));
    assert!(!is_earlier(Date { year: 2024, month: 5, day: 2 }, a));
}
