use clocker::error::ClockerError;
use clocker::timelog::timelogentry::{Date, DayState, Time, TimeLogEntry};
use clocker::timelog::TimeLog;

fn date(year: u16, month: u8, day: u8) -> Date {
    Date { year, month, day }
}

fn time(hour: u8, minute: u8) -> Time {
    Time { hour, minute }
}

#[test]
fn update_of_empty_log_starts_the_day() {
    let log = TimeLog::empty();
    let updated = log.update(date(2025, 3, 14), time(9, 2)).unwrap();
    assert_eq!(updated.entries().len(), 1);
    let e = updated.latest().unwrap();
    assert_eq!(e.date, date(2025, 3, 14));
    assert_eq!(e.state, DayState::MorningStarted(time(9, 2)));
}

#[test]
fn updates_fill_the_slots_in_order() {
    let d = date(2025, 3, 14);
    let log = TimeLog::empty();
    let log = log.update(d, time(9, 2)).unwrap();
    let log = log.update(d, time(12, 30)).unwrap();
    assert_eq!(
        log.latest().unwrap().state,
        DayState::MorningFinished(time(9, 2), time(12, 30))
    );
    let log = log.update(d, time(13, 15)).unwrap();
    assert_eq!(
        log.latest().unwrap().state,
        DayState::AfternoonStarted(time(9, 2), time(12, 30), time(13, 15))
    );
    let log = log.update(d, time(17, 45)).unwrap();
    assert_eq!(
        log.latest().unwrap().state,
        DayState::DayFinished(time(9, 2), time(12, 30), time(13, 15), time(17, 45))
    );
    assert_eq!(log.entries().len(), 1);
}

#[test]
fn update_on_finished_day_fails_and_changes_nothing() {
    let d = date(2025, 3, 14);
    let mut e = TimeLogEntry::new(d, time(9, 2));
    e.set_end_am(time(12, 30));
    e.set_start_pm(time(13, 15));
    e.set_end_pm(time(17, 45));
    let log = TimeLog::new(vec![e]);
    let err = log.update(d, time(18, 0)).unwrap_err();
    assert!(matches!(err, ClockerError::ShiftComplete));
    assert_eq!(err.message(), "Shift already complete for today.");
    // The log itself is untouched: update builds a new log.
    assert_eq!(log.entries().len(), 1);
    assert_eq!(log.latest().unwrap(), e);
}

#[test]
fn update_on_a_new_date_appends() {
    let log = TimeLog::empty();
    let log = log.update(date(2025, 3, 14), time(9, 2)).unwrap();
    let log = log.update(date(2025, 3, 15), time(8, 55)).unwrap();
    assert_eq!(log.entries().len(), 2);
    assert_eq!(log.entries()[0].state, DayState::MorningStarted(time(9, 2)));
    assert_eq!(log.latest().unwrap().date, date(2025, 3, 15));
    assert_eq!(log.latest().unwrap().state, DayState::MorningStarted(time(8, 55)));
}

#[test]
fn update_after_midnight_starts_a_new_day() {
    let log = TimeLog::empty();
    let log = log.update(date(2025, 3, 14), time(23, 59)).unwrap();
    let log = log.update(date(2025, 3, 15), time(0, 1)).unwrap();
    assert_eq!(log.entries().len(), 2);
    assert_eq!(log.latest().unwrap().state, DayState::MorningStarted(time(0, 1)));
}

#[test]
fn dates_stay_strictly_increasing() {
    let days = [
        date(2025, 3, 14),
        date(2025, 3, 15),
        date(2025, 3, 15),
        date(2025, 3, 17),
        date(2025, 4, 1),
        date(2026, 1, 1),
    ];
    let mut log = TimeLog::empty();
    for d in days {
        log = log.update(d, time(9, 0)).unwrap();
    }
    let entries = log.entries();
    assert_eq!(entries.len(), 5);
    for w in entries.windows(2) {
        let a = (w[0].date.year, w[0].date.month, w[0].date.day);
        let b = (w[1].date.year, w[1].date.month, w[1].date.day);
        assert!(a < b, "dates out of order: {a:?} then {b:?}");
    }
}

#[test]
fn transition_walks_the_state_machine() {
    let mut e = TimeLogEntry::new(date(2025, 3, 14), time(8, 0));
    assert_eq!(e.state, DayState::MorningStarted(time(8, 0)));
    e.transition(time(12, 0));
    assert_eq!(e.state, DayState::MorningFinished(time(8, 0), time(12, 0)));
    e.transition(time(13, 0));
    assert_eq!(
        e.state,
        DayState::AfternoonStarted(time(8, 0), time(12, 0), time(13, 0))
    );
    e.transition(time(17, 0));
    assert_eq!(
        e.state,
        DayState::DayFinished(time(8, 0), time(12, 0), time(13, 0), time(17, 0))
    );
    // A finished day stays finished, whatever time is offered.
    e.transition(time(23, 0));
    assert_eq!(
        e.state,
        DayState::DayFinished(time(8, 0), time(12, 0), time(13, 0), time(17, 0))
    );
    assert_eq!(e.date, date(2025, 3, 14));
}

#[test]
fn setters_fill_their_slot() {
    let mut e = TimeLogEntry::new(date(2025, 3, 14), time(8, 0));
    e.set_end_am(time(12, 0));
    assert_eq!(e.state, DayState::MorningFinished(time(8, 0), time(12, 0)));
    e.set_start_pm(time(13, 0));
    e.set_end_pm(time(17, 0));
    assert_eq!(
        e.state,
        DayState::DayFinished(time(8, 0), time(12, 0), time(13, 0), time(17, 0))
    );
}

#[test]
fn latest_returns_the_last_entry() {
    let a = TimeLogEntry::new(date(2025, 3, 14), time(9, 0));
    let b = TimeLogEntry::new(date(2025, 3, 15), time(10, 0));
    let log = TimeLog::new(vec![a, b]);
    assert_eq!(log.latest(), Some(b));
    assert!(TimeLog::empty().latest().is_none());
}

#[test]
fn any_other_date_starts_a_new_row() {
    // The engine's only signal is `today != last date`: a clock that went
    // backwards still appends rather than touching an older row.
    let log = TimeLog::empty();
    let log = log.update(date(2025, 3, 15), time(9, 0)).unwrap();
    let log = log.update(date(2025, 3, 14), time(10, 0)).unwrap();
    assert_eq!(log.entries().len(), 2);
    assert_eq!(log.latest().unwrap().date, date(2025, 3, 14));
}

#[test]
fn yesterday_left_unfinished_stays_unfinished() {
    let log = TimeLog::empty();
    let log = log.update(date(2025, 3, 14), time(9, 0)).unwrap();
    let log = log.update(date(2025, 3, 15), time(9, 30)).unwrap();
    assert_eq!(log.entries()[0].state, DayState::MorningStarted(time(9, 0)));
    assert_eq!(log.entries()[1].state, DayState::MorningStarted(time(9, 30)));
}
