//! The wire form: entries as flat five-column comma-separated records.
//!
//! Dates travel as `YYYY-MM-DD`, times as `HH:MM:SS` with the seconds cell
//! always zero, and the four optional time cells of a record are populated
//! by the longest-prefix rule. Everything here works on plain bytes.

use vstd::prelude::*;

verus! {

use vstd::arithmetic::div_mod::{
    lemma_fundamental_div_mod,
    lemma_fundamental_div_mod_converse,
    lemma_mod_bound,
    lemma_mod_multiples_vanish,
    lemma_small_mod,
};
use crate::error::RowErrorKind;
use crate::timelog::timelogentry::{Date, DayState, Time, TimeLogEntry, days_in_month, state_of_slots};

pub const COMMA: u8 = 44;
pub const NEWLINE: u8 = 10;
pub const CARRIAGE_RETURN: u8 = 13;
pub const DASH: u8 = 45;
pub const COLON: u8 = 58;
pub const ZERO_DIGIT: u8 = 48;

/// An ASCII decimal digit.
pub open spec fn is_digit(b: u8) -> bool {
    48 <= b <= 57
}

/// The value of an ASCII decimal digit.
pub open spec fn digit_val(b: u8) -> int {
    b - 48
}

/// The ASCII digit showing `n`, for `0 <= n <= 9`.
pub open spec fn digit_byte(n: int) -> u8 {
    (48 + n) as u8
}

/// `s` contains no occurrence of the byte `b`.
pub open spec fn has_no_byte(s: Seq<u8>, b: u8) -> bool {
    forall|i: int| 0 <= i < s.len() ==> s[i] != b
}

/// Splits `0 <= n <= 99` into its two decimal digits.
proof fn lemma_two_digits(n: int)
    requires
        0 <= n <= 99,
    ensures
        n == 10 * (n / 10) + n % 10,
        0 <= n / 10 <= 9,
        0 <= n % 10 <= 9,
{
    lemma_fundamental_div_mod(n, 10);
    lemma_mod_bound(n, 10);
}

/// Splits `0 <= y <= 9999` into its four decimal digits.
proof fn lemma_four_digits(y: int)
    requires
        0 <= y <= 9999,
    ensures
        y == 1000 * (y / 1000) + 100 * ((y / 100) % 10) + 10 * ((y / 10) % 10) + y % 10,
        0 <= y / 1000 <= 9,
        0 <= (y / 100) % 10 <= 9,
        0 <= (y / 10) % 10 <= 9,
        0 <= y % 10 <= 9,
{
    let a = y / 1000;
    let r3 = y % 1000;
    lemma_fundamental_div_mod(y, 1000);
    lemma_mod_bound(y, 1000);
    let b = r3 / 100;
    let r2 = r3 % 100;
    lemma_fundamental_div_mod(r3, 100);
    lemma_mod_bound(r3, 100);
    let c = r2 / 10;
    let d0 = r2 % 10;
    lemma_fundamental_div_mod(r2, 10);
    lemma_mod_bound(r2, 10);
    assert(y == 100 * (10 * a + b) + r2);
    lemma_fundamental_div_mod_converse(y, 100, 10 * a + b, r2);
    lemma_mod_multiples_vanish(a, b, 10);
    lemma_small_mod(b as nat, 10);
    assert((y / 100) % 10 == b);
    assert(y == 10 * (100 * a + 10 * b + c) + d0);
    lemma_fundamental_div_mod_converse(y, 10, 100 * a + 10 * b + c, d0);
    lemma_mod_multiples_vanish(10 * a + b, c, 10);
    lemma_small_mod(c as nat, 10);
    assert((y / 10) % 10 == c);
    lemma_fundamental_div_mod_converse(y, 1000, a, 100 * b + 10 * c + d0);
}

// ---------------------------------------------------------------------------
// Dates: `YYYY-MM-DD`
// ---------------------------------------------------------------------------

/// The cell has the shape of an ISO-8601 date: four digits, dash, two
/// digits, dash, two digits.
pub open spec fn date_shape_ok(s: Seq<u8>) -> bool {
    &&& s.len() == 10
    &&& is_digit(s[0]) && is_digit(s[1]) && is_digit(s[2]) && is_digit(s[3])
    &&& s[4] == DASH
    &&& is_digit(s[5]) && is_digit(s[6])
    &&& s[7] == DASH
    &&& is_digit(s[8]) && is_digit(s[9])
}

pub open spec fn date_year(s: Seq<u8>) -> int {
    digit_val(s[0]) * 1000 + digit_val(s[1]) * 100 + digit_val(s[2]) * 10 + digit_val(s[3])
}

pub open spec fn date_month(s: Seq<u8>) -> int {
    digit_val(s[5]) * 10 + digit_val(s[6])
}

pub open spec fn date_day(s: Seq<u8>) -> int {
    digit_val(s[8]) * 10 + digit_val(s[9])
}

/// What a date cell means: a well-shaped cell naming a real calendar date,
/// or nothing.
pub open spec fn parse_date_spec(s: Seq<u8>) -> Option<Date> {
    if date_shape_ok(s) && 1 <= date_month(s) <= 12 && 1 <= date_day(s) <= days_in_month(
        date_year(s),
        date_month(s),
    ) {
        Some(
            Date {
                year: date_year(s) as u16,
                month: date_month(s) as u8,
                day: date_day(s) as u8,
            },
        )
    } else {
        None
    }
}

/// The ten bytes `YYYY-MM-DD` showing `d`.
pub open spec fn encode_date_spec(d: Date) -> Seq<u8> {
    seq![
        digit_byte(d.year as int / 1000),
        digit_byte((d.year as int / 100) % 10),
        digit_byte((d.year as int / 10) % 10),
        digit_byte(d.year as int % 10),
        DASH,
        digit_byte(d.month as int / 10),
        digit_byte(d.month as int % 10),
        DASH,
        digit_byte(d.day as int / 10),
        digit_byte(d.day as int % 10),
    ]
}

/// An ASCII decimal digit, decided in executable code.
fn is_digit_b(b: u8) -> (r: bool)
    ensures
        r == is_digit(b),
{
    48 <= b && b <= 57
}

/// Number of days of month `m` of year `y`.
pub fn days_in_month_x(y: u16, m: u8) -> (n: u8)
    requires
        1 <= m <= 12,
    ensures
        n as int == days_in_month(y as int, m as int),
{
    if m == 2 {
        if y % 4 == 0 && (y % 100 != 0 || y % 400 == 0) {
            29
        } else {
            28
        }
    } else if m == 4 || m == 6 || m == 9 || m == 11 {
        30
    } else {
        31
    }
}

/// Reads a `YYYY-MM-DD` cell.
pub fn parse_date(s: &[u8]) -> (r: Option<Date>)
    ensures
        r == parse_date_spec(s@),
{
    if s.len() != 10 {
        return None;
    }
    let shape = is_digit_b(s[0]) && is_digit_b(s[1]) && is_digit_b(s[2]) && is_digit_b(s[3])
        && s[4] == DASH && is_digit_b(s[5]) && is_digit_b(s[6]) && s[7] == DASH && is_digit_b(s[8])
        && is_digit_b(s[9]);
    if !shape {
        return None;
    }
    let year: u16 = (s[0] - 48) as u16 * 1000 + (s[1] - 48) as u16 * 100 + (s[2] - 48) as u16 * 10
        + (s[3] - 48) as u16;
    let month: u8 = (s[5] - 48) * 10 + (s[6] - 48);
    let day: u8 = (s[8] - 48) * 10 + (s[9] - 48);
    if month < 1 || month > 12 {
        return None;
    }
    if day < 1 || day > days_in_month_x(year, month) {
        return None;
    }
    Some(Date { year, month, day })
}

/// Appends the `YYYY-MM-DD` form of `d`.
pub fn push_date(out: &mut Vec<u8>, d: Date)
    requires
        d.wf(),
    ensures
        final(out)@ == old(out)@ + encode_date_spec(d),
{
    out.push(48 + (d.year / 1000) as u8);
    out.push(48 + ((d.year / 100) % 10) as u8);
    out.push(48 + ((d.year / 10) % 10) as u8);
    out.push(48 + (d.year % 10) as u8);
    out.push(DASH);
    out.push(48 + d.month / 10);
    out.push(48 + d.month % 10);
    out.push(DASH);
    out.push(48 + d.day / 10);
    out.push(48 + d.day % 10);
    proof {
        assert(out@ =~= old(out)@ + encode_date_spec(d));
    }
}

/// A well-formed date survives the round trip through its wire form.
pub proof fn lemma_date_round_trip(d: Date)
    requires
        d.wf(),
    ensures
        parse_date_spec(encode_date_spec(d)) == Some(d),
{
    let s = encode_date_spec(d);
    lemma_four_digits(d.year as int);
    lemma_two_digits(d.month as int);
    lemma_two_digits(d.day as int);
    assert(date_shape_ok(s));
    assert(date_year(s) == d.year);
    assert(date_month(s) == d.month);
    assert(date_day(s) == d.day);
}

/// The wire form of a date holds neither separators nor line breaks.
pub proof fn lemma_date_bytes_benign(d: Date)
    requires
        d.wf(),
    ensures
        has_no_byte(encode_date_spec(d), COMMA),
        has_no_byte(encode_date_spec(d), NEWLINE),
        has_no_byte(encode_date_spec(d), CARRIAGE_RETURN),
{
    let s = encode_date_spec(d);
    lemma_four_digits(d.year as int);
    lemma_two_digits(d.month as int);
    lemma_two_digits(d.day as int);
    assert forall|i: int| 0 <= i < s.len() implies s[i] != COMMA && s[i] != NEWLINE && s[i]
        != CARRIAGE_RETURN by {
        assert(s.len() == 10);
    }
}

// ---------------------------------------------------------------------------
// Times: `HH:MM:SS`
// ---------------------------------------------------------------------------

/// The cell has the shape of a clock time: two digits, colon, two digits,
/// colon, two digits.
pub open spec fn time_shape_ok(s: Seq<u8>) -> bool {
    &&& s.len() == 8
    &&& is_digit(s[0]) && is_digit(s[1])
    &&& s[2] == COLON
    &&& is_digit(s[3]) && is_digit(s[4])
    &&& s[5] == COLON
    &&& is_digit(s[6]) && is_digit(s[7])
}

pub open spec fn time_hour(s: Seq<u8>) -> int {
    digit_val(s[0]) * 10 + digit_val(s[1])
}

pub open spec fn time_minute(s: Seq<u8>) -> int {
    digit_val(s[3]) * 10 + digit_val(s[4])
}

pub open spec fn time_second(s: Seq<u8>) -> int {
    digit_val(s[6]) * 10 + digit_val(s[7])
}

/// What a time cell means. The seconds must name a real clock time but are
/// then discarded: the model is truncated to whole minutes.
pub open spec fn parse_time_spec(s: Seq<u8>) -> Option<Time> {
    if time_shape_ok(s) && time_hour(s) < 24 && time_minute(s) < 60 && time_second(s) < 60 {
        Some(Time { hour: time_hour(s) as u8, minute: time_minute(s) as u8 })
    } else {
        None
    }
}

/// The eight bytes `HH:MM:00` showing `t`: seconds are forced to zero.
pub open spec fn encode_time_spec(t: Time) -> Seq<u8> {
    seq![
        digit_byte(t.hour as int / 10),
        digit_byte(t.hour as int % 10),
        COLON,
        digit_byte(t.minute as int / 10),
        digit_byte(t.minute as int % 10),
        COLON,
        ZERO_DIGIT,
        ZERO_DIGIT,
    ]
}

/// Reads an `HH:MM:SS` cell.
pub fn parse_time(s: &[u8]) -> (r: Option<Time>)
    ensures
        r == parse_time_spec(s@),
{
    if s.len() != 8 {
        return None;
    }
    let shape = is_digit_b(s[0]) && is_digit_b(s[1]) && s[2] == COLON && is_digit_b(s[3])
        && is_digit_b(s[4]) && s[5] == COLON && is_digit_b(s[6]) && is_digit_b(s[7]);
    if !shape {
        return None;
    }
    let hour: u8 = (s[0] - 48) * 10 + (s[1] - 48);
    let minute: u8 = (s[3] - 48) * 10 + (s[4] - 48);
    let second: u8 = (s[6] - 48) * 10 + (s[7] - 48);
    if hour >= 24 || minute >= 60 || second >= 60 {
        return None;
    }
    Some(Time { hour, minute })
}

/// Appends the `HH:MM:00` form of `t`.
pub fn push_time(out: &mut Vec<u8>, t: Time)
    requires
        t.wf(),
    ensures
        final(out)@ == old(out)@ + encode_time_spec(t),
{
    out.push(48 + t.hour / 10);
    out.push(48 + t.hour % 10);
    out.push(COLON);
    out.push(48 + t.minute / 10);
    out.push(48 + t.minute % 10);
    out.push(COLON);
    out.push(ZERO_DIGIT);
    out.push(ZERO_DIGIT);
    proof {
        assert(out@ =~= old(out)@ + encode_time_spec(t));
    }
}

/// A well-formed time survives the round trip through its wire form.
pub proof fn lemma_time_round_trip(t: Time)
    requires
        t.wf(),
    ensures
        parse_time_spec(encode_time_spec(t)) == Some(t),
{
    let s = encode_time_spec(t);
    lemma_two_digits(t.hour as int);
    lemma_two_digits(t.minute as int);
    assert(time_shape_ok(s));
    assert(time_hour(s) == t.hour);
    assert(time_minute(s) == t.minute);
    assert(time_second(s) == 0);
}

/// The wire form of a time holds neither separators nor line breaks.
pub proof fn lemma_time_bytes_benign(t: Time)
    requires
        t.wf(),
    ensures
        has_no_byte(encode_time_spec(t), COMMA),
        has_no_byte(encode_time_spec(t), NEWLINE),
        has_no_byte(encode_time_spec(t), CARRIAGE_RETURN),
{
    let s = encode_time_spec(t);
    lemma_two_digits(t.hour as int);
    lemma_two_digits(t.minute as int);
    assert forall|i: int| 0 <= i < s.len() implies s[i] != COMMA && s[i] != NEWLINE && s[i]
        != CARRIAGE_RETURN by {
        assert(s.len() == 8);
    }
}

// ---------------------------------------------------------------------------
// Splitting on a separator byte
// ---------------------------------------------------------------------------

/// Index of the first occurrence of `b` in `s`, or `s.len()` if there is none.
pub open spec fn find_byte(s: Seq<u8>, b: u8) -> int
    decreases s.len(),
{
    if s.len() == 0 {
        0
    } else if s[0] == b {
        0
    } else {
        1 + find_byte(s.skip(1), b)
    }
}

pub proof fn lemma_find_byte(s: Seq<u8>, b: u8)
    ensures
        0 <= find_byte(s, b) <= s.len(),
        forall|j: int| 0 <= j < find_byte(s, b) ==> s[j] != b,
        find_byte(s, b) < s.len() ==> s[find_byte(s, b)] == b,
    decreases s.len(),
{
    if s.len() == 0 {
    } else if s[0] == b {
    } else {
        lemma_find_byte(s.skip(1), b);
        let i = find_byte(s, b);
        assert(i == 1 + find_byte(s.skip(1), b));
        assert forall|j: int| 0 <= j < i implies s[j] != b by {
            if j > 0 {
                assert(s.skip(1)[j - 1] == s[j]);
            }
        }
        if i < s.len() {
            assert(s.skip(1)[i - 1] == s[i]);
        }
    }
}

/// `find_byte` is the one index whose prefix is clean of `b`.
pub proof fn lemma_find_byte_is(s: Seq<u8>, b: u8, i: int)
    requires
        0 <= i <= s.len(),
        forall|j: int| 0 <= j < i ==> s[j] != b,
        i < s.len() ==> s[i] == b,
    ensures
        find_byte(s, b) == i,
    decreases s.len(),
{
    if s.len() == 0 {
    } else if s[0] == b {
        if i > 0 {
            assert(s[0] != b);
        }
    } else {
        assert(i >= 1) by {
            if i == 0 {
                assert(s[i] == b);
            }
        }
        assert forall|j: int| 0 <= j < i - 1 implies s.skip(1)[j] != b by {
            assert(s.skip(1)[j] == s[j + 1]);
        }
        if i - 1 < s.skip(1).len() {
            assert(s.skip(1)[i - 1] == s[i]);
        }
        lemma_find_byte_is(s.skip(1), b, i - 1);
    }
}

/// The segments of `s` between occurrences of `sep`: one more segment than
/// separators, in order, separators not included.
pub open spec fn split_bytes_spec(s: Seq<u8>, sep: u8) -> Seq<Seq<u8>>
    decreases s.len(),
{
    let i = find_byte(s, sep);
    if i < 0 || i >= s.len() {
        seq![s]
    } else {
        seq![s.take(i)] + split_bytes_spec(s.skip(i + 1), sep)
    }
}

/// A separator-free sequence is one single segment.
pub proof fn lemma_split_no_sep(s: Seq<u8>, sep: u8)
    requires
        has_no_byte(s, sep),
    ensures
        split_bytes_spec(s, sep) == seq![s],
{
    lemma_find_byte(s, sep);
}

/// Splitting takes a separator-free head segment off the front.
pub proof fn lemma_split_prepend(a: Seq<u8>, rest: Seq<u8>, sep: u8)
    requires
        has_no_byte(a, sep),
    ensures
        split_bytes_spec(a + seq![sep] + rest, sep) == seq![a] + split_bytes_spec(rest, sep),
{
    let s = a + seq![sep] + rest;
    assert forall|j: int| 0 <= j < a.len() implies s[j] != sep by {
        assert(s[j] == a[j]);
    }
    assert(s[a.len() as int] == sep);
    lemma_find_byte_is(s, sep, a.len() as int);
    assert(s.take(a.len() as int) =~= a);
    assert(s.skip(a.len() as int + 1) =~= rest);
}

/// A concatenation of clean pieces is clean.
pub proof fn lemma_no_byte_concat(a: Seq<u8>, b: Seq<u8>, x: u8)
    requires
        has_no_byte(a, x),
        has_no_byte(b, x),
    ensures
        has_no_byte(a + b, x),
{
    assert forall|i: int| 0 <= i < (a + b).len() implies (a + b)[i] != x by {
        if i < a.len() {
            assert((a + b)[i] == a[i]);
        } else {
            assert((a + b)[i] == b[i - a.len()]);
        }
    }
}

/// Index of the first occurrence of `b` in `s`, or `s.len()` if none.
pub fn find_byte_x(s: &[u8], b: u8) -> (i: usize)
    ensures
        i as int == find_byte(s@, b),
{
    let mut k: usize = 0;
    while k < s.len()
        invariant
            0 <= k <= s@.len(),
            forall|j: int| 0 <= j < k ==> s@[j] != b,
        decreases s@.len() - k,
    {
        if s[k] == b {
            proof {
                lemma_find_byte_is(s@, b, k as int);
            }
            return k;
        }
        k = k + 1;
    }
    proof {
        lemma_find_byte_is(s@, b, k as int);
    }
    k
}

/// Splits `s` at every occurrence of `sep`.
pub fn split_bytes(s: &[u8], sep: u8) -> (parts: Vec<Vec<u8>>)
    ensures
        parts.deep_view() == split_bytes_spec(s@, sep),
    decreases s@.len(),
{
    let i = find_byte_x(s, sep);
    proof {
        lemma_find_byte(s@, sep);
    }
    if i >= s.len() {
        let mut parts: Vec<Vec<u8>> = Vec::new();
        parts.push(vstd::slice::slice_to_vec(s));
        proof {
            assert(parts.deep_view() =~~= seq![s@]);
        }
        parts
    } else {
        let head = vstd::slice::slice_to_vec(vstd::slice::slice_subrange(s, 0, i));
        let rest = vstd::slice::slice_subrange(s, i + 1, s.len());
        let mut parts = split_bytes(rest, sep);
        parts.insert(0, head);
        proof {
            assert(parts.deep_view() =~~= seq![s@.take(i as int)] + split_bytes_spec(
                s@.skip(i as int + 1),
                sep,
            ));
        }
        parts
    }
}

// ---------------------------------------------------------------------------
// Records: `date,start_am,end_am,start_pm,end_pm`
// ---------------------------------------------------------------------------

/// A line with its trailing carriage return, if any, taken off.
pub open spec fn strip_cr(line: Seq<u8>) -> Seq<u8> {
    if line.len() > 0 && line[line.len() - 1] == CARRIAGE_RETURN {
        line.drop_last()
    } else {
        line
    }
}

/// A line that holds no record at all.
pub open spec fn line_blank(line: Seq<u8>) -> bool {
    strip_cr(line).len() == 0
}

/// The cell at position `i`; a record may omit trailing cells, and an
/// omitted cell reads as empty.
pub open spec fn field_at(fields: Seq<Seq<u8>>, i: int) -> Seq<u8> {
    if 0 <= i < fields.len() {
        fields[i]
    } else {
        seq![]
    }
}

/// What an optional time cell means: empty is absent, otherwise it must be
/// a valid time.
pub open spec fn parse_cell_spec(f: Seq<u8>) -> Option<Option<Time>> {
    if f.len() == 0 {
        Some(None)
    } else {
        match parse_time_spec(f) {
            Some(t) => Some(Some(t)),
            None => None,
        }
    }
}

/// What a split record means: a date cell and up to four optional time
/// cells, the day state given by the longest filled prefix.
pub open spec fn decode_fields_spec(fields: Seq<Seq<u8>>) -> Result<TimeLogEntry, RowErrorKind> {
    if fields.len() > 5 {
        Err(RowErrorKind::TooManyFields)
    } else {
        match parse_date_spec(field_at(fields, 0)) {
            None => Err(RowErrorKind::BadDate),
            Some(date) => match (
                parse_cell_spec(field_at(fields, 1)),
                parse_cell_spec(field_at(fields, 2)),
                parse_cell_spec(field_at(fields, 3)),
                parse_cell_spec(field_at(fields, 4)),
            ) {
                (Some(a), Some(b), Some(c), Some(d)) => Ok(
                    TimeLogEntry { date, state: state_of_slots(a, b, c, d) },
                ),
                _ => Err(RowErrorKind::BadTime),
            },
        }
    }
}

/// What one line of the file means.
pub open spec fn decode_line_spec(line: Seq<u8>) -> Result<TimeLogEntry, RowErrorKind> {
    decode_fields_spec(split_bytes_spec(strip_cr(line), COMMA))
}

/// Reads an optional time cell.
pub fn parse_cell(f: &[u8]) -> (r: Option<Option<Time>>)
    ensures
        r == parse_cell_spec(f@),
{
    if f.len() == 0 {
        Some(None)
    } else {
        match parse_time(f) {
            Some(t) => Some(Some(t)),
            None => None,
        }
    }
}

/// The day state named by four optional cells, decided in executable code.
pub fn state_from_slots(
    a: Option<Time>,
    b: Option<Time>,
    c: Option<Time>,
    d: Option<Time>,
) -> (s: DayState)
    ensures
        s == state_of_slots(a, b, c, d),
{
    match (a, b, c, d) {
        (None, _, _, _) => DayState::FreshDay,
        (Some(x), None, _, _) => DayState::MorningStarted(x),
        (Some(x), Some(y), None, _) => DayState::MorningFinished(x, y),
        (Some(x), Some(y), Some(z), None) => DayState::AfternoonStarted(x, y, z),
        (Some(x), Some(y), Some(z), Some(w)) => DayState::DayFinished(x, y, z, w),
    }
}

/// Decodes one record already split into cells.
pub fn decode_fields(fields: &Vec<Vec<u8>>) -> (r: Result<TimeLogEntry, RowErrorKind>)
    ensures
        r == decode_fields_spec(fields.deep_view()),
{
    let ghost fd = fields.deep_view();
    if fields.len() > 5 {
        return Err(RowErrorKind::TooManyFields);
    }
    if fields.len() == 0 {
        proof {
            assert(field_at(fd, 0) =~= seq![]);
        }
        return Err(RowErrorKind::BadDate);
    }
    proof {
        assert forall|k: int| 0 <= k < fields@.len() implies fd[k] =~= fields@[k]@ by {}
    }
    let date = match parse_date(fields[0].as_slice()) {
        Some(d) => d,
        None => {
            return Err(RowErrorKind::BadDate);
        },
    };
    let c1 = if fields.len() > 1 {
        parse_cell(fields[1].as_slice())
    } else {
        Some(None)
    };
    let c2 = if fields.len() > 2 {
        parse_cell(fields[2].as_slice())
    } else {
        Some(None)
    };
    let c3 = if fields.len() > 3 {
        parse_cell(fields[3].as_slice())
    } else {
        Some(None)
    };
    let c4 = if fields.len() > 4 {
        parse_cell(fields[4].as_slice())
    } else {
        Some(None)
    };
    proof {
        assert(fields@.len() <= 1 ==> field_at(fd, 1) =~= seq![]);
        assert(fields@.len() <= 2 ==> field_at(fd, 2) =~= seq![]);
        assert(fields@.len() <= 3 ==> field_at(fd, 3) =~= seq![]);
        assert(fields@.len() <= 4 ==> field_at(fd, 4) =~= seq![]);
    }
    match (c1, c2, c3, c4) {
        (Some(a), Some(b), Some(c), Some(d)) => Ok(
            TimeLogEntry { date, state: state_from_slots(a, b, c, d) },
        ),
        _ => Err(RowErrorKind::BadTime),
    }
}

/// An optional cell travels as an empty cell or as a time.
pub open spec fn encode_cell_spec(o: Option<Time>) -> Seq<u8> {
    match o {
        None => seq![],
        Some(t) => encode_time_spec(t),
    }
}

/// An optional cell whose time, if any, a clock can show.
pub open spec fn cell_wf(o: Option<Time>) -> bool {
    o matches Some(t) ==> t.wf()
}

/// The record line showing `e`: five cells, all present, the time cells
/// populated by the longest-prefix rule. No line break is included.
pub open spec fn encode_record_spec(e: TimeLogEntry) -> Seq<u8> {
    encode_date_spec(e.date) + seq![COMMA] + encode_cell_spec(e.state.slots()[0]) + seq![COMMA]
        + encode_cell_spec(e.state.slots()[1]) + seq![COMMA] + encode_cell_spec(e.state.slots()[2])
        + seq![COMMA] + encode_cell_spec(e.state.slots()[3])
}

/// A well-formed day state fills its slots with well-formed times.
pub proof fn lemma_slots_wf(s: DayState)
    requires
        s.wf(),
    ensures
        cell_wf(s.slots()[0]),
        cell_wf(s.slots()[1]),
        cell_wf(s.slots()[2]),
        cell_wf(s.slots()[3]),
{
    match s {
        DayState::FreshDay => {},
        DayState::MorningStarted(a) => {
            assert(s.slots()[0] == Some(a));
        },
        DayState::MorningFinished(a, b) => {
            assert(s.slots()[0] == Some(a) && s.slots()[1] == Some(b));
        },
        DayState::AfternoonStarted(a, b, c) => {
            assert(s.slots()[0] == Some(a) && s.slots()[1] == Some(b) && s.slots()[2] == Some(c));
        },
        DayState::DayFinished(a, b, c, d) => {
            assert(s.slots()[0] == Some(a) && s.slots()[1] == Some(b) && s.slots()[2] == Some(c)
                && s.slots()[3] == Some(d));
        },
    }
}

/// Appends the wire form of one optional cell.
pub fn push_cell(out: &mut Vec<u8>, o: Option<Time>)
    requires
        cell_wf(o),
    ensures
        final(out)@ == old(out)@ + encode_cell_spec(o),
{
    match o {
        None => {
            proof {
                assert(out@ =~= old(out)@ + encode_cell_spec(o));
            }
        },
        Some(t) => {
            push_time(out, t);
        },
    }
}

/// Exec mirror of `DayState::slots`.
pub fn slots_x(s: DayState) -> (r: (Option<Time>, Option<Time>, Option<Time>, Option<Time>))
    ensures
        r.0 == s.slots()[0],
        r.1 == s.slots()[1],
        r.2 == s.slots()[2],
        r.3 == s.slots()[3],
{
    match s {
        DayState::FreshDay => (None, None, None, None),
        DayState::MorningStarted(a) => (Some(a), None, None, None),
        DayState::MorningFinished(a, b) => (Some(a), Some(b), None, None),
        DayState::AfternoonStarted(a, b, c) => (Some(a), Some(b), Some(c), None),
        DayState::DayFinished(a, b, c, d) => (Some(a), Some(b), Some(c), Some(d)),
    }
}

/// Appends the record line showing `e` (without a line break).
#[verifier::rlimit(50)]
pub fn push_record(out: &mut Vec<u8>, e: &TimeLogEntry)
    requires
        e.wf(),
    ensures
        final(out)@ == old(out)@ + encode_record_spec(*e),
{
    proof {
        lemma_slots_wf(e.state);
    }
    push_date(out, e.date);
    out.push(COMMA);
    let (a, b, c, d) = slots_x(e.state);
    push_cell(out, a);
    out.push(COMMA);
    push_cell(out, b);
    out.push(COMMA);
    push_cell(out, c);
    out.push(COMMA);
    push_cell(out, d);
    proof {
        assert(out@ =~= old(out)@ + encode_record_spec(*e));
    }
}

/// The wire form of a cell holds neither separators nor line breaks.
pub proof fn lemma_cell_bytes_benign(o: Option<Time>)
    requires
        cell_wf(o),
    ensures
        has_no_byte(encode_cell_spec(o), COMMA),
        has_no_byte(encode_cell_spec(o), NEWLINE),
        has_no_byte(encode_cell_spec(o), CARRIAGE_RETURN),
{
    match o {
        None => {},
        Some(t) => {
            lemma_time_bytes_benign(t);
        },
    }
}

/// A record line is never empty and holds no line break.
pub proof fn lemma_record_bytes_benign(e: TimeLogEntry)
    requires
        e.wf(),
    ensures
        has_no_byte(encode_record_spec(e), NEWLINE),
        has_no_byte(encode_record_spec(e), CARRIAGE_RETURN),
        encode_record_spec(e).len() > 0,
{
    lemma_slots_wf(e.state);
    lemma_date_bytes_benign(e.date);
    lemma_cell_bytes_benign(e.state.slots()[0]);
    lemma_cell_bytes_benign(e.state.slots()[1]);
    lemma_cell_bytes_benign(e.state.slots()[2]);
    lemma_cell_bytes_benign(e.state.slots()[3]);
    let comma = seq![COMMA];
    assert(has_no_byte(comma, NEWLINE) && has_no_byte(comma, CARRIAGE_RETURN));
    let p0 = encode_date_spec(e.date) + comma;
    let p1 = p0 + encode_cell_spec(e.state.slots()[0]) + comma;
    let p2 = p1 + encode_cell_spec(e.state.slots()[1]) + comma;
    let p3 = p2 + encode_cell_spec(e.state.slots()[2]) + comma;
    lemma_no_byte_concat(encode_date_spec(e.date), comma, NEWLINE);
    lemma_no_byte_concat(encode_date_spec(e.date), comma, CARRIAGE_RETURN);
    lemma_no_byte_concat(p0, encode_cell_spec(e.state.slots()[0]), NEWLINE);
    lemma_no_byte_concat(p0, encode_cell_spec(e.state.slots()[0]), CARRIAGE_RETURN);
    lemma_no_byte_concat(p0 + encode_cell_spec(e.state.slots()[0]), comma, NEWLINE);
    lemma_no_byte_concat(p0 + encode_cell_spec(e.state.slots()[0]), comma, CARRIAGE_RETURN);
    lemma_no_byte_concat(p1, encode_cell_spec(e.state.slots()[1]), NEWLINE);
    lemma_no_byte_concat(p1, encode_cell_spec(e.state.slots()[1]), CARRIAGE_RETURN);
    lemma_no_byte_concat(p1 + encode_cell_spec(e.state.slots()[1]), comma, NEWLINE);
    lemma_no_byte_concat(p1 + encode_cell_spec(e.state.slots()[1]), comma, CARRIAGE_RETURN);
    lemma_no_byte_concat(p2, encode_cell_spec(e.state.slots()[2]), NEWLINE);
    lemma_no_byte_concat(p2, encode_cell_spec(e.state.slots()[2]), CARRIAGE_RETURN);
    lemma_no_byte_concat(p2 + encode_cell_spec(e.state.slots()[2]), comma, NEWLINE);
    lemma_no_byte_concat(p2 + encode_cell_spec(e.state.slots()[2]), comma, CARRIAGE_RETURN);
    lemma_no_byte_concat(p3, encode_cell_spec(e.state.slots()[3]), NEWLINE);
    lemma_no_byte_concat(p3, encode_cell_spec(e.state.slots()[3]), CARRIAGE_RETURN);
    assert(encode_record_spec(e) =~= p3 + encode_cell_spec(e.state.slots()[3]));
}

/// The wire form of a record splits back into its five cells.
#[verifier::rlimit(50)]
pub proof fn lemma_record_fields(e: TimeLogEntry)
    requires
        e.wf(),
    ensures
        split_bytes_spec(encode_record_spec(e), COMMA) == seq![
            encode_date_spec(e.date),
            encode_cell_spec(e.state.slots()[0]),
            encode_cell_spec(e.state.slots()[1]),
            encode_cell_spec(e.state.slots()[2]),
            encode_cell_spec(e.state.slots()[3]),
        ],
{
    lemma_slots_wf(e.state);
    lemma_date_bytes_benign(e.date);
    let s0 = encode_date_spec(e.date);
    let c1 = encode_cell_spec(e.state.slots()[0]);
    let c2 = encode_cell_spec(e.state.slots()[1]);
    let c3 = encode_cell_spec(e.state.slots()[2]);
    let c4 = encode_cell_spec(e.state.slots()[3]);
    lemma_cell_bytes_benign(e.state.slots()[0]);
    lemma_cell_bytes_benign(e.state.slots()[1]);
    lemma_cell_bytes_benign(e.state.slots()[2]);
    lemma_cell_bytes_benign(e.state.slots()[3]);
    lemma_split_no_sep(c4, COMMA);
    let r3 = c3 + seq![COMMA] + c4;
    lemma_split_prepend(c3, c4, COMMA);
    assert(split_bytes_spec(r3, COMMA) == seq![c3, c4]) by {
        assert(seq![c3] + seq![c4] =~= seq![c3, c4]);
    }
    let r2 = c2 + seq![COMMA] + r3;
    lemma_split_prepend(c2, r3, COMMA);
    assert(split_bytes_spec(r2, COMMA) == seq![c2, c3, c4]) by {
        assert(seq![c2] + seq![c3, c4] =~= seq![c2, c3, c4]);
    }
    let r1 = c1 + seq![COMMA] + r2;
    lemma_split_prepend(c1, r2, COMMA);
    assert(split_bytes_spec(r1, COMMA) == seq![c1, c2, c3, c4]) by {
        assert(seq![c1] + seq![c2, c3, c4] =~= seq![c1, c2, c3, c4]);
    }
    let r0 = s0 + seq![COMMA] + r1;
    lemma_split_prepend(s0, r1, COMMA);
    assert(split_bytes_spec(r0, COMMA) == seq![s0, c1, c2, c3, c4]) by {
        assert(seq![s0] + seq![c1, c2, c3, c4] =~= seq![s0, c1, c2, c3, c4]);
    }
    assert(encode_record_spec(e) =~= r0);
}

/// A well-formed entry survives the round trip through its record line.
pub proof fn lemma_record_round_trip(e: TimeLogEntry)
    requires
        e.wf(),
    ensures
        decode_line_spec(encode_record_spec(e)) == Ok::<TimeLogEntry, RowErrorKind>(e),
{
    lemma_slots_wf(e.state);
    let rec = encode_record_spec(e);
    let s0 = encode_date_spec(e.date);
    let c1 = encode_cell_spec(e.state.slots()[0]);
    let c2 = encode_cell_spec(e.state.slots()[1]);
    let c3 = encode_cell_spec(e.state.slots()[2]);
    let c4 = encode_cell_spec(e.state.slots()[3]);
    lemma_record_bytes_benign(e);
    assert(rec[rec.len() - 1] != CARRIAGE_RETURN);
    assert(strip_cr(rec) == rec);
    lemma_record_fields(e);
    let fields = seq![s0, c1, c2, c3, c4];
    lemma_date_round_trip(e.date);
    assert(field_at(fields, 0) == s0);
    assert(parse_cell_spec(field_at(fields, 1)) == Some(e.state.slots()[0])) by {
        match e.state.slots()[0] {
            None => {},
            Some(t) => {
                lemma_time_round_trip(t);
            },
        }
    }
    assert(parse_cell_spec(field_at(fields, 2)) == Some(e.state.slots()[1])) by {
        match e.state.slots()[1] {
            None => {},
            Some(t) => {
                lemma_time_round_trip(t);
            },
        }
    }
    assert(parse_cell_spec(field_at(fields, 3)) == Some(e.state.slots()[2])) by {
        match e.state.slots()[2] {
            None => {},
            Some(t) => {
                lemma_time_round_trip(t);
            },
        }
    }
    assert(parse_cell_spec(field_at(fields, 4)) == Some(e.state.slots()[3])) by {
        match e.state.slots()[3] {
            None => {},
            Some(t) => {
                lemma_time_round_trip(t);
            },
        }
    }
    assert(state_of_slots(
        e.state.slots()[0],
        e.state.slots()[1],
        e.state.slots()[2],
        e.state.slots()[3],
    ) == e.state) by {
        match e.state {
            DayState::FreshDay => {},
            DayState::MorningStarted(_) => {},
            DayState::MorningFinished(_, _) => {},
            DayState::AfternoonStarted(_, _, _) => {},
            DayState::DayFinished(_, _, _, _) => {},
        }
    }
}

/// A date a cell decodes to is a real calendar date.
pub proof fn lemma_parse_date_wf(s: Seq<u8>)
    ensures
        parse_date_spec(s) matches Some(d) ==> d.wf(),
{
    if parse_date_spec(s) is Some {
        assert(0 <= date_year(s) <= 9999);
        assert(0 <= date_month(s) <= 99);
        assert(0 <= date_day(s) <= 99);
    }
}

/// A time a cell decodes to can be shown by a 24-hour clock.
pub proof fn lemma_parse_time_wf(s: Seq<u8>)
    ensures
        parse_time_spec(s) matches Some(t) ==> t.wf(),
{
    if parse_time_spec(s) is Some {
        assert(0 <= time_hour(s) < 24);
        assert(0 <= time_minute(s) < 60);
    }
}

/// Well-formed cells name a well-formed day state.
pub proof fn lemma_state_of_slots_wf(
    a: Option<Time>,
    b: Option<Time>,
    c: Option<Time>,
    d: Option<Time>,
)
    requires
        cell_wf(a),
        cell_wf(b),
        cell_wf(c),
        cell_wf(d),
    ensures
        state_of_slots(a, b, c, d).wf(),
{
}

/// Whatever a line decodes to is well-formed.
pub proof fn lemma_decode_line_wf(line: Seq<u8>)
    ensures
        decode_line_spec(line) matches Ok(e) ==> e.wf(),
{
    let fields = split_bytes_spec(strip_cr(line), COMMA);
    lemma_parse_date_wf(field_at(fields, 0));
    lemma_parse_time_wf(field_at(fields, 1));
    lemma_parse_time_wf(field_at(fields, 2));
    lemma_parse_time_wf(field_at(fields, 3));
    lemma_parse_time_wf(field_at(fields, 4));
    if decode_fields_spec(fields) is Ok {
        match (
            parse_cell_spec(field_at(fields, 1)),
            parse_cell_spec(field_at(fields, 2)),
            parse_cell_spec(field_at(fields, 3)),
            parse_cell_spec(field_at(fields, 4)),
        ) {
            (Some(a), Some(b), Some(c), Some(d)) => {
                lemma_state_of_slots_wf(a, b, c, d);
            },
            _ => {},
        }
    }
}

// ---------------------------------------------------------------------------
// Files: a header line, then one record line per entry
// ---------------------------------------------------------------------------

/// The fixed header row `date,start_am,end_am,start_pm,end_pm`.
pub open spec fn header_spec() -> Seq<u8> {
    seq![
        100u8, 97, 116, 101, 44, 115, 116, 97, 114, 116, 95, 97, 109, 44, 101, 110, 100, 95, 97,
        109, 44, 115, 116, 97, 114, 116, 95, 112, 109, 44, 101, 110, 100, 95, 112, 109,
    ]
}

/// Appends the header row (without a line break).
pub fn push_header(out: &mut Vec<u8>)
    ensures
        final(out)@ == old(out)@ + header_spec(),
{
    out.push(100);
    out.push(97);
    out.push(116);
    out.push(101);
    out.push(44);
    out.push(115);
    out.push(116);
    out.push(97);
    out.push(114);
    out.push(116);
    out.push(95);
    out.push(97);
    out.push(109);
    out.push(44);
    out.push(101);
    out.push(110);
    out.push(100);
    out.push(95);
    out.push(97);
    out.push(109);
    out.push(44);
    out.push(115);
    out.push(116);
    out.push(97);
    out.push(114);
    out.push(116);
    out.push(95);
    out.push(112);
    out.push(109);
    out.push(44);
    out.push(101);
    out.push(110);
    out.push(100);
    out.push(95);
    out.push(112);
    out.push(109);
    proof {
        assert(out@ =~= old(out)@ + header_spec());
    }
}

/// The lines of a file: segments between line breaks, a final line break
/// producing no extra line.
pub open spec fn lines_of(data: Seq<u8>) -> Seq<Seq<u8>> {
    let raw = split_bytes_spec(data, NEWLINE);
    if raw.len() > 0 && raw.last().len() == 0 {
        raw.drop_last()
    } else {
        raw
    }
}

/// The record lines of the entries `entries[i..]`, each ended by a line
/// break.
pub open spec fn encode_entries_spec(entries: Seq<TimeLogEntry>, i: int) -> Seq<u8>
    decreases entries.len() - i,
{
    if !(0 <= i < entries.len()) {
        seq![]
    } else {
        encode_record_spec(entries[i]) + seq![NEWLINE] + encode_entries_spec(entries, i + 1)
    }
}

/// A whole file: the header line, then one record line per entry, every
/// line ended by a line break.
pub open spec fn encode_log_spec(entries: Seq<TimeLogEntry>) -> Seq<u8> {
    header_spec() + seq![NEWLINE] + encode_entries_spec(entries, 0)
}

/// Slot-prefix invariant: in the wire form of any entry the populated time
/// cells are a gap-free prefix of the four cells, in slot order; a cell is
/// populated exactly when its slot is filled.
pub proof fn lemma_slot_prefix(e: TimeLogEntry)
    ensures
        forall|i: int, j: int|
            0 <= i < j < 4 && e.state.slots()[j] is Some ==> e.state.slots()[i] is Some,
        forall|i: int|
            0 <= i < 4 ==> (encode_cell_spec(e.state.slots()[i]).len() > 0 <==> e.state.slots()[i]
                is Some),
{
    assert forall|i: int, j: int|
        0 <= i < j < 4 && e.state.slots()[j] is Some implies e.state.slots()[i] is Some by {
        match e.state {
            DayState::FreshDay => {},
            DayState::MorningStarted(_) => {},
            DayState::MorningFinished(_, _) => {},
            DayState::AfternoonStarted(_, _, _) => {},
            DayState::DayFinished(_, _, _, _) => {},
        }
    }
    assert forall|i: int|
        0 <= i < 4 implies (encode_cell_spec(e.state.slots()[i]).len() > 0 <==> e.state.slots()[i]
        is Some) by {
        match e.state.slots()[i] {
            None => {},
            Some(t) => {
                assert(encode_cell_spec(Some(t)).len() == 8);
            },
        }
    }
}

/// The record lines of a sequence of entries, one line per entry, without
/// line breaks.
pub open spec fn records_of(entries: Seq<TimeLogEntry>) -> Seq<Seq<u8>> {
    Seq::new(entries.len(), |k: int| encode_record_spec(entries[k]))
}

/// The header row holds no line break or carriage return.
pub proof fn lemma_header_benign()
    ensures
        has_no_byte(header_spec(), NEWLINE),
        has_no_byte(header_spec(), CARRIAGE_RETURN),
        header_spec().len() == 36,
{
    assert forall|i: int| 0 <= i < header_spec().len() implies header_spec()[i] != NEWLINE
        && header_spec()[i] != CARRIAGE_RETURN by {
        assert(header_spec().len() == 36);
    }
}

/// The encoded entries split at line breaks into one segment per record,
/// plus the empty segment after the final line break.
pub proof fn lemma_split_encoded(entries: Seq<TimeLogEntry>, i: int)
    requires
        0 <= i <= entries.len(),
        forall|k: int| 0 <= k < entries.len() ==> entries[k].wf(),
    ensures
        split_bytes_spec(encode_entries_spec(entries, i), NEWLINE) == records_of(entries).skip(i)
            + seq![Seq::<u8>::empty()],
    decreases entries.len() - i,
{
    if i >= entries.len() {
        assert(encode_entries_spec(entries, i) =~= Seq::<u8>::empty());
        assert(records_of(entries).skip(i) + seq![Seq::<u8>::empty()] =~= seq![
            Seq::<u8>::empty(),
        ]);
        assert(split_bytes_spec(Seq::<u8>::empty(), NEWLINE) == seq![Seq::<u8>::empty()]);
    } else {
        lemma_split_encoded(entries, i + 1);
        lemma_record_bytes_benign(entries[i]);
        lemma_split_prepend(
            encode_record_spec(entries[i]),
            encode_entries_spec(entries, i + 1),
            NEWLINE,
        );
        assert(encode_entries_spec(entries, i) == encode_record_spec(entries[i]) + seq![NEWLINE]
            + encode_entries_spec(entries, i + 1));
        assert(split_bytes_spec(encode_entries_spec(entries, i), NEWLINE) =~= records_of(
            entries,
        ).skip(i) + seq![Seq::<u8>::empty()]);
    }
}

/// The lines of an encoded file are the header line followed by one line
/// per record.
pub proof fn lemma_encoded_lines(entries: Seq<TimeLogEntry>)
    requires
        forall|k: int| 0 <= k < entries.len() ==> entries[k].wf(),
    ensures
        lines_of(encode_log_spec(entries)) == seq![header_spec()] + records_of(entries),
{
    lemma_header_benign();
    lemma_split_encoded(entries, 0);
    lemma_split_prepend(header_spec(), encode_entries_spec(entries, 0), NEWLINE);
    assert(encode_log_spec(entries) == header_spec() + seq![NEWLINE] + encode_entries_spec(
        entries,
        0,
    ));
    let raw = split_bytes_spec(encode_log_spec(entries), NEWLINE);
    assert(raw =~= seq![header_spec()] + records_of(entries).skip(0) + seq![Seq::<u8>::empty()]);
    assert(records_of(entries).skip(0) =~= records_of(entries));
    assert(raw.last() =~= Seq::<u8>::empty());
    assert(raw.drop_last() =~= seq![header_spec()] + records_of(entries));
}

/// Splits a file into its lines.
pub fn split_lines(data: &[u8]) -> (lines: Vec<Vec<u8>>)
    ensures
        lines.deep_view() == lines_of(data@),
{
    let mut lines = split_bytes(data, NEWLINE);
    let ghost raw = lines.deep_view();
    if lines.len() > 0 && lines[lines.len() - 1].len() == 0 {
        proof {
            assert(raw.last() =~= lines@.last()@);
        }
        lines.pop();
        proof {
            assert(lines.deep_view() =~~= raw.drop_last());
        }
    } else {
        proof {
            if lines@.len() > 0 {
                assert(raw.last() =~= lines@.last()@);
            }
        }
    }
    lines
}

} // verus!
