use clocker::error::ClockerError;
use clocker::timelog::timelogentry::{Date, Time};
use clocker::timelog::{run_archive, run_log, run_new_month, run_snapshot};

fn date(year: u16, month: u8, day: u8) -> Date {
    Date { year, month, day }
}

fn time(hour: u8, minute: u8) -> Time {
    Time { hour, minute }
}

const HEADER: &[u8] = b"date,start_am,end_am,start_pm,end_pm\n";

fn lines(rows: &[&str]) -> Vec<u8> {
    let mut out = HEADER.to_vec();
    for row in rows {
        out.extend_from_slice(row.as_bytes());
        out.push(b'\n');
    }
    out
}

#[test]
fn first_stamp_of_the_day() {
    // File absent; seconds of the sampled clock were already truncated.
    let out = run_log(None, date(2025, 3, 14), time(9, 2)).unwrap();
    assert_eq!(out, lines(&["2025-03-14,09:02:00,,,"]));
}

#[test]
fn fill_next_slot_same_day() {
    let input = lines(&["2025-03-14,09:02:00,,,"]);
    let out = run_log(Some(&input), date(2025, 3, 14), time(12, 30)).unwrap();
    assert_eq!(out, lines(&["2025-03-14,09:02:00,12:30:00,,"]));
}

#[test]
fn complete_the_day() {
    let input = lines(&["2025-03-14,09:02:00,12:30:00,13:15:00,"]);
    let out = run_log(Some(&input), date(2025, 3, 14), time(17, 45)).unwrap();
    assert_eq!(out, lines(&["2025-03-14,09:02:00,12:30:00,13:15:00,17:45:00"]));
}

#[test]
fn day_already_complete() {
    let input = lines(&["2025-03-14,09:02:00,12:30:00,13:15:00,17:45:00"]);
    let err = run_log(Some(&input), date(2025, 3, 14), time(18, 0)).unwrap_err();
    assert!(matches!(err, ClockerError::ShiftComplete));
    assert_eq!(err.message(), "Shift already complete for today.");
}

#[test]
fn new_day_appends_a_row() {
    let input = lines(&["2025-03-14,09:02:00,12:30:00,13:15:00,17:45:00"]);
    let out = run_log(Some(&input), date(2025, 3, 15), time(8, 55)).unwrap();
    assert_eq!(
        out,
        lines(&[
            "2025-03-14,09:02:00,12:30:00,13:15:00,17:45:00",
            "2025-03-15,08:55:00,,,",
        ])
    );
}

#[test]
fn malformed_row_aborts_the_run() {
    let input = lines(&[
        "2025-03-12,09:00:00,,,",
        "banana,09:00:00,,,",
        "2025-03-14,09:00:00,,,",
    ]);
    let err = run_log(Some(&input), date(2025, 3, 15), time(9, 0)).unwrap_err();
    match err {
        ClockerError::FileParseError(rows) => {
            assert_eq!(rows.len(), 1);
            assert_eq!(rows[0].line, 3);
        }
        other => panic!("expected FileParseError, got {other:?}"),
    }
}

#[test]
fn archive_backs_up_the_updated_log_and_empties_the_file() {
    let input = lines(&["2025-03-14,09:02:00,,,"]);
    let (backup, output) = run_archive(Some(&input), date(2025, 3, 14), time(12, 30)).unwrap();
    assert_eq!(backup, lines(&["2025-03-14,09:02:00,12:30:00,,"]));
    assert_eq!(output, HEADER.to_vec());
}

#[test]
fn archive_refuses_a_finished_day() {
    let input = lines(&["2025-03-14,09:02:00,12:30:00,13:15:00,17:45:00"]);
    let err = run_archive(Some(&input), date(2025, 3, 14), time(18, 0)).unwrap_err();
    assert!(matches!(err, ClockerError::ShiftComplete));
}

#[test]
fn new_month_backs_up_and_restarts() {
    let input = lines(&["2025-02-27,09:00:00,,,", "2025-02-28,08:30:00,,,"]);
    let (backup, output) = run_new_month(Some(&input), date(2025, 3, 1), time(9, 15)).unwrap();
    assert_eq!(backup, input);
    assert_eq!(output, lines(&["2025-03-01,09:15:00,,,"]));
}

#[test]
fn snapshot_copies_the_log() {
    let input = lines(&["2025-03-14,09:02:00,,,"]);
    let backup = run_snapshot(Some(&input)).unwrap();
    assert_eq!(backup, input);
}

#[test]
fn snapshot_of_missing_file_is_header_only() {
    let backup = run_snapshot(None).unwrap();
    assert_eq!(backup, HEADER.to_vec());
}

#[test]
fn commands_propagate_parse_errors() {
    let input = lines(&["banana"]);
    assert!(matches!(
        run_archive(Some(&input), date(2025, 3, 14), time(9, 0)),
        Err(ClockerError::FileParseError(_))
    ));
    assert!(matches!(
        run_new_month(Some(&input), date(2025, 3, 14), time(9, 0)),
        Err(ClockerError::FileParseError(_))
    ));
    assert!(matches!(
        run_snapshot(Some(&input)),
        Err(ClockerError::FileParseError(_))
    ));
}

#[test]
fn missing_file_round_trip() {
    // Saving what a missing file loads to writes a header-only file, and
    // loading that file yields the empty log again.
    let saved = run_snapshot(None).unwrap();
    assert_eq!(saved, HEADER.to_vec());
    let reloaded = clocker::timelog::TimeLog::parse(&saved).unwrap();
    assert_eq!(reloaded.entries().len(), 0);
}
