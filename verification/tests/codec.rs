use clocker::error::{ClockerError, RowErrorKind};
use clocker::timelog::timelogentry::{Date, DayState, Time, TimeLogEntry};
use clocker::timelog::TimeLog;

fn date(year: u16, month: u8, day: u8) -> Date {
    Date { year, month, day }
}

fn time(hour: u8, minute: u8) -> Time {
    Time { hour, minute }
}

const HEADER: &[u8] = b"date,start_am,end_am,start_pm,end_pm\n";

fn parse_one(file: &[u8]) -> TimeLogEntry {
    let log = TimeLog::parse(file).expect("file should parse");
    assert_eq!(log.entries().len(), 1);
    log.latest().unwrap()
}

fn file_with(rows: &[&[u8]]) -> Vec<u8> {
    let mut out = HEADER.to_vec();
    for row in rows {
        out.extend_from_slice(row);
        out.push(b'\n');
    }
    out
}

#[test]
fn empty_file_is_empty_log() {
    let log = TimeLog::parse(b"").unwrap();
    assert_eq!(log.entries().len(), 0);
    assert!(log.latest().is_none());
}

#[test]
fn header_only_file_is_empty_log() {
    let log = TimeLog::parse(HEADER).unwrap();
    assert_eq!(log.entries().len(), 0);
}

#[test]
fn missing_file_loads_as_empty_log() {
    let log = TimeLog::load(None).unwrap();
    assert_eq!(log.entries().len(), 0);
}

#[test]
fn empty_log_encodes_as_header_only() {
    let log = TimeLog::empty();
    assert_eq!(log.encode(), HEADER.to_vec());
}

#[test]
fn full_row_decodes_to_day_finished() {
    let e = parse_one(&file_with(&[b"2025-03-14,09:02:00,12:30:00,13:15:00,17:45:00"]));
    assert_eq!(e.date, date(2025, 3, 14));
    assert_eq!(
        e.state,
        DayState::DayFinished(time(9, 2), time(12, 30), time(13, 15), time(17, 45))
    );
}

#[test]
fn partial_row_decodes_by_prefix() {
    let e = parse_one(&file_with(&[b"2025-03-14,09:02:00,,,"]));
    assert_eq!(e.state, DayState::MorningStarted(time(9, 2)));
    let e = parse_one(&file_with(&[b"2025-03-14,09:02:00,12:30:00,,"]));
    assert_eq!(e.state, DayState::MorningFinished(time(9, 2), time(12, 30)));
    let e = parse_one(&file_with(&[b"2025-03-14,09:02:00,12:30:00,13:15:00,"]));
    assert_eq!(
        e.state,
        DayState::AfternoonStarted(time(9, 2), time(12, 30), time(13, 15))
    );
}

#[test]
fn date_only_row_is_fresh_day() {
    let e = parse_one(&file_with(&[b"2025-03-14"]));
    assert_eq!(e.state, DayState::FreshDay);
}

#[test]
fn trailing_cells_may_be_omitted() {
    let e = parse_one(&file_with(&[b"2025-03-14,09:02:00"]));
    assert_eq!(e.state, DayState::MorningStarted(time(9, 2)));
}

#[test]
fn value_after_gap_is_ignored() {
    // end_pm present while end_am and start_pm are absent: the first gap
    // decides, so the orphaned value is dropped.
    let e = parse_one(&file_with(&[b"2025-03-14,09:02:00,,,17:45:00"]));
    assert_eq!(e.state, DayState::MorningStarted(time(9, 2)));
}

#[test]
fn seconds_are_truncated_on_decode() {
    let e = parse_one(&file_with(&[b"2025-03-14,09:02:37,,,"]));
    assert_eq!(e.state, DayState::MorningStarted(time(9, 2)));
}

#[test]
fn crlf_lines_are_accepted() {
    let mut file = HEADER.to_vec();
    file.pop();
    file.extend_from_slice(b"\r\n2025-03-14,09:02:00,,,\r\n");
    let log = TimeLog::parse(&file).unwrap();
    assert_eq!(log.entries().len(), 1);
    assert_eq!(log.latest().unwrap().state, DayState::MorningStarted(time(9, 2)));
}

#[test]
fn blank_lines_are_skipped() {
    let log = TimeLog::parse(&file_with(&[b"", b"2025-03-14,09:02:00,,,", b""])).unwrap();
    assert_eq!(log.entries().len(), 1);
}

#[test]
fn file_without_final_newline_parses() {
    let mut file = HEADER.to_vec();
    file.extend_from_slice(b"2025-03-14,09:02:00,,,");
    let log = TimeLog::parse(&file).unwrap();
    assert_eq!(log.entries().len(), 1);
}

#[test]
fn round_trip_keeps_every_state() {
    // Short rows are read by the prefix rule; writing always fills in all
    // five cells, so a second round trip is byte-identical.
    let file = file_with(&[
        b"2025-03-10",
        b"2025-03-11,08:00:00",
        b"2025-03-12,08:00:00,12:00:00,,",
        b"2025-03-13,08:00:00,12:00:00,13:00:00,",
        b"2025-03-14,08:00:00,12:00:00,13:00:00,17:00:00",
    ]);
    let canonical = file_with(&[
        b"2025-03-10,,,,",
        b"2025-03-11,08:00:00,,,",
        b"2025-03-12,08:00:00,12:00:00,,",
        b"2025-03-13,08:00:00,12:00:00,13:00:00,",
        b"2025-03-14,08:00:00,12:00:00,13:00:00,17:00:00",
    ]);
    let log = TimeLog::parse(&file).unwrap();
    assert_eq!(log.entries().len(), 5);
    let reencoded = log.encode();
    assert_eq!(reencoded, canonical);
    let again = TimeLog::parse(&reencoded).unwrap();
    assert_eq!(again.entries(), log.entries());
    assert_eq!(again.encode(), canonical);
}

#[test]
fn encoded_cells_form_a_prefix() {
    // The populated cells of every encoded row are a gap-free prefix of
    // the four time cells.
    let file = file_with(&[
        b"2025-03-10",
        b"2025-03-11,08:00:00,,,",
        b"2025-03-12,08:00:00,12:00:00,,",
        b"2025-03-13,08:00:00,12:00:00,13:00:00,",
        b"2025-03-14,08:00:00,12:00:00,13:00:00,17:00:00",
    ]);
    let log = TimeLog::parse(&file).unwrap();
    let encoded = log.encode();
    let text = String::from_utf8(encoded).unwrap();
    for line in text.lines().skip(1) {
        let cells: Vec<&str> = line.split(',').collect();
        assert_eq!(cells.len(), 5);
        let mut gap_seen = false;
        for cell in &cells[1..] {
            if cell.is_empty() {
                gap_seen = true;
            } else {
                assert!(!gap_seen, "populated cell after a gap in {line:?}");
            }
        }
    }
}

#[test]
fn bad_date_is_reported() {
    let err = TimeLog::parse(&file_with(&[b"banana,09:02:00,,,"])).unwrap_err();
    match err {
        ClockerError::FileParseError(rows) => {
            assert_eq!(rows.len(), 1);
            assert_eq!(rows[0].line, 2);
            assert_eq!(rows[0].kind, RowErrorKind::BadDate);
        }
        other => panic!("expected FileParseError, got {other:?}"),
    }
}

#[test]
fn bad_time_is_reported() {
    let err = TimeLog::parse(&file_with(&[b"2025-03-14,25:00:00,,,"])).unwrap_err();
    match err {
        ClockerError::FileParseError(rows) => {
            assert_eq!(rows.len(), 1);
            assert_eq!(rows[0].kind, RowErrorKind::BadTime);
        }
        other => panic!("expected FileParseError, got {other:?}"),
    }
}

#[test]
fn too_many_cells_is_reported() {
    let err = TimeLog::parse(&file_with(&[b"2025-03-14,09:00:00,,,,extra"])).unwrap_err();
    match err {
        ClockerError::FileParseError(rows) => {
            assert_eq!(rows.len(), 1);
            assert_eq!(rows[0].kind, RowErrorKind::TooManyFields);
        }
        other => panic!("expected FileParseError, got {other:?}"),
    }
}

#[test]
fn every_malformed_row_is_reported_at_once() {
    let err = TimeLog::parse(&file_with(&[
        b"2025-03-10,08:00:00,,,",
        b"banana,08:00:00,,,",
        b"2025-03-12,08:00:00,,,",
        b"2025-03-13,99:00:00,,,",
    ]))
    .unwrap_err();
    match err {
        ClockerError::FileParseError(rows) => {
            assert_eq!(rows.len(), 2);
            assert_eq!(rows[0].line, 3);
            assert_eq!(rows[0].kind, RowErrorKind::BadDate);
            assert_eq!(rows[1].line, 5);
            assert_eq!(rows[1].kind, RowErrorKind::BadTime);
        }
        other => panic!("expected FileParseError, got {other:?}"),
    }
}

#[test]
fn leap_year_dates_are_checked() {
    assert!(TimeLog::parse(&file_with(&[b"2024-02-29"])).is_ok());
    assert!(TimeLog::parse(&file_with(&[b"2023-02-29"])).is_err());
    assert!(TimeLog::parse(&file_with(&[b"2000-02-29"])).is_ok());
    assert!(TimeLog::parse(&file_with(&[b"1900-02-29"])).is_err());
    assert!(TimeLog::parse(&file_with(&[b"2025-04-31"])).is_err());
    assert!(TimeLog::parse(&file_with(&[b"2025-00-10"])).is_err());
    assert!(TimeLog::parse(&file_with(&[b"2025-13-10"])).is_err());
    assert!(TimeLog::parse(&file_with(&[b"2025-12-00"])).is_err());
}

#[test]
fn malformed_times_are_rejected() {
    assert!(TimeLog::parse(&file_with(&[b"2025-03-14,09:60:00,,,"])).is_err());
    assert!(TimeLog::parse(&file_with(&[b"2025-03-14,09:00:60,,,"])).is_err());
    assert!(TimeLog::parse(&file_with(&[b"2025-03-14,9:00:00,,,"])).is_err());
    assert!(TimeLog::parse(&file_with(&[b"2025-03-14,09:00,,,"])).is_err());
    assert!(TimeLog::parse(&file_with(&[b"2025-03-14,0900:00,,,"])).is_err());
}

#[test]
fn error_messages_are_fixed() {
    let err = TimeLog::parse(&file_with(&[b"banana"])).unwrap_err();
    assert_eq!(err.message(), "Malformed lines in the input file:");
    let io = ClockerError::Io {
        operation: String::from("read"),
        path: String::from("timelog.csv"),
    };
    assert_eq!(io.message(), "IO error.");
}
