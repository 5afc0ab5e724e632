//! The ordered day log: decoding and encoding whole files, and the update
//! engine that advances the log by one step per invocation.

use vstd::prelude::*;

pub mod timelogentry;

verus! {

use crate::codec::{
    COMMA,
    NEWLINE,
    decode_line_spec,
    decode_fields,
    split_bytes,
    split_lines,
    strip_cr,
    line_blank,
    lines_of,
    encode_entries_spec,
    encode_log_spec,
    encode_record_spec,
    header_spec,
    records_of,
    push_record,
    push_header,
    lemma_decode_line_wf,
    lemma_encoded_lines,
    lemma_record_bytes_benign,
    lemma_record_round_trip,
    CARRIAGE_RETURN,
};
use crate::error::{ClockerError, RowError};
use crate::timelog::timelogentry::{Date, DayState, Time, TimeLogEntry};

// ---------------------------------------------------------------------------
// What a whole file means
// ---------------------------------------------------------------------------

/// The entries decoded from the lines `ls[i..]` of a file, in file order.
/// Blank lines and malformed lines contribute no entry.
pub open spec fn entries_from(ls: Seq<Seq<u8>>, i: int) -> Seq<TimeLogEntry>
    decreases ls.len() - i,
{
    if !(0 <= i < ls.len()) {
        seq![]
    } else if line_blank(ls[i]) {
        entries_from(ls, i + 1)
    } else {
        match decode_line_spec(ls[i]) {
            Ok(e) => seq![e] + entries_from(ls, i + 1),
            Err(_) => entries_from(ls, i + 1),
        }
    }
}

/// One `RowError` per malformed line among `ls[i..]`, in file order, with
/// 1-based file line numbers.
pub open spec fn errors_from(ls: Seq<Seq<u8>>, i: int) -> Seq<RowError>
    decreases ls.len() - i,
{
    if !(0 <= i < ls.len()) {
        seq![]
    } else if line_blank(ls[i]) {
        errors_from(ls, i + 1)
    } else {
        match decode_line_spec(ls[i]) {
            Ok(_) => errors_from(ls, i + 1),
            Err(k) => seq![RowError { line: (i + 1) as usize, kind: k }] + errors_from(ls, i + 1),
        }
    }
}

/// A line that holds a record that fails to decode.
pub open spec fn line_malformed(l: Seq<u8>) -> bool {
    !line_blank(l) && decode_line_spec(l) is Err
}

/// How many of the lines `ls[i..]` are malformed.
pub open spec fn malformed_count(ls: Seq<Seq<u8>>, i: int) -> int
    decreases ls.len() - i,
{
    if !(0 <= i < ls.len()) {
        0
    } else {
        (if line_malformed(ls[i]) {
            1int
        } else {
            0int
        }) + malformed_count(ls, i + 1)
    }
}

/// Error aggregation: a load reports exactly one error per malformed line,
/// so `k` malformed lines among `n` always surface as a list of length `k`.
pub proof fn lemma_error_aggregation(ls: Seq<Seq<u8>>, i: int)
    ensures
        errors_from(ls, i).len() == malformed_count(ls, i),
    decreases ls.len() - i,
{
    if !(0 <= i < ls.len()) {
    } else {
        lemma_error_aggregation(ls, i + 1);
    }
}

/// Every entry a file decodes to is well-formed.
pub proof fn lemma_entries_from_wf(ls: Seq<Seq<u8>>, i: int)
    ensures
        forall|k: int| 0 <= k < entries_from(ls, i).len() ==> entries_from(ls, i)[k].wf(),
    decreases ls.len() - i,
{
    if !(0 <= i < ls.len()) {
    } else {
        lemma_entries_from_wf(ls, i + 1);
        if line_blank(ls[i]) {
            assert(entries_from(ls, i) == entries_from(ls, i + 1));
        } else {
            match decode_line_spec(ls[i]) {
                Ok(e) => {
                    lemma_decode_line_wf(ls[i]);
                    assert(entries_from(ls, i) == seq![e] + entries_from(ls, i + 1));
                    assert forall|k: int|
                        0 <= k < entries_from(ls, i).len() implies entries_from(ls, i)[k].wf() by {
                        if k == 0 {
                            assert(entries_from(ls, i)[0] == e);
                        } else {
                            assert(entries_from(ls, i)[k] == entries_from(ls, i + 1)[k - 1]);
                        }
                    }
                },
                Err(_) => {
                    assert(entries_from(ls, i) == entries_from(ls, i + 1));
                },
            }
        }
    }
}

/// Lines that are exactly the record lines of `entries[j..]` decode back
/// to those entries, with no error.
proof fn lemma_decode_record_lines(entries: Seq<TimeLogEntry>, ls: Seq<Seq<u8>>, i: int, j: int)
    requires
        forall|k: int| 0 <= k < entries.len() ==> entries[k].wf(),
        0 <= i <= ls.len(),
        0 <= j <= entries.len(),
        ls.len() - i == entries.len() - j,
        forall|k: int| 0 <= k < entries.len() - j ==> #[trigger] ls[i + k] == encode_record_spec(
            entries[j + k],
        ),
    ensures
        entries_from(ls, i) == entries.skip(j),
        errors_from(ls, i) == Seq::<RowError>::empty(),
    decreases entries.len() - j,
{
    if j >= entries.len() {
        assert(entries.skip(j) =~= seq![]);
    } else {
        assert(ls[i + 0] == encode_record_spec(entries[j + 0]));
        assert(ls[i] == encode_record_spec(entries[j]));
        lemma_record_bytes_benign(entries[j]);
        assert(strip_cr(ls[i]) == ls[i]);
        assert(!line_blank(ls[i]));
        lemma_record_round_trip(entries[j]);
        assert forall|k: int| 0 <= k < entries.len() - (j + 1) implies #[trigger] ls[i + 1 + k]
            == encode_record_spec(entries[j + 1 + k]) by {
            assert(ls[i + (k + 1)] == encode_record_spec(entries[j + (k + 1)]));
        }
        lemma_decode_record_lines(entries, ls, i + 1, j + 1);
        assert(entries_from(ls, i) == seq![entries[j]] + entries.skip(j + 1));
        assert(seq![entries[j]] + entries.skip(j + 1) =~= entries.skip(j));
        assert(errors_from(ls, i) == errors_from(ls, i + 1));
    }
}

/// A whole well-formed log survives the round trip through its file form:
/// the encoded file decodes without error, to the same entries.
pub proof fn lemma_log_round_trip(entries: Seq<TimeLogEntry>)
    requires
        forall|k: int| 0 <= k < entries.len() ==> entries[k].wf(),
    ensures
        errors_from(lines_of(encode_log_spec(entries)), 1) == Seq::<RowError>::empty(),
        entries_from(lines_of(encode_log_spec(entries)), 1) == entries,
{
    lemma_encoded_lines(entries);
    let ls = seq![header_spec()] + records_of(entries);
    assert forall|k: int| 0 <= k < entries.len() - 0 implies #[trigger] ls[1 + k]
        == encode_record_spec(entries[0 + k]) by {
        assert(ls[1 + k] == records_of(entries)[k]);
    }
    lemma_decode_record_lines(entries, ls, 1, 0);
    assert(entries.skip(0) =~= entries);
}

/// Missing-file round trip: a missing file loads as the empty log, the
/// empty log saves as a header-only file, and that file loads back as the
/// empty log without error.
pub proof fn lemma_missing_file_round_trip()
    ensures
        encode_log_spec(Seq::<TimeLogEntry>::empty()) == header_spec() + seq![NEWLINE],
        entries_from(lines_of(header_spec() + seq![NEWLINE]), 1) == Seq::<TimeLogEntry>::empty(),
        errors_from(lines_of(header_spec() + seq![NEWLINE]), 1) == Seq::<RowError>::empty(),
{
    let none: Seq<TimeLogEntry> = Seq::empty();
    assert(encode_entries_spec(none, 0) =~= Seq::<u8>::empty());
    assert(encode_log_spec(none) =~= header_spec() + seq![NEWLINE]);
    lemma_log_round_trip(none);
}

// ---------------------------------------------------------------------------
// The update engine, as a mathematical function
// ---------------------------------------------------------------------------

/// The engine refuses to act: today's entry is already finished.
pub open spec fn update_blocked(entries: Seq<TimeLogEntry>, today: Date) -> bool {
    entries.len() > 0 && entries.last().date == today && entries.last().state is DayFinished
}

/// The log after one unblocked update step: a fresh morning-started entry
/// is appended when the log is empty or its last entry is not today's;
/// otherwise today's entry advances by one slot.
pub open spec fn updated_entries(entries: Seq<TimeLogEntry>, today: Date, now: Time) -> Seq<
    TimeLogEntry,
> {
    if entries.len() == 0 || entries.last().date != today {
        entries.push(TimeLogEntry { date: today, state: DayState::MorningStarted(now) })
    } else {
        entries.update(
            entries.len() - 1,
            TimeLogEntry { date: today, state: entries.last().state.advanced(now) },
        )
    }
}

/// Dates are strictly increasing along the log.
pub open spec fn dates_increasing(s: Seq<TimeLogEntry>) -> bool {
    forall|i: int, j: int| 0 <= i < j < s.len() ==> s[i].date.before(s[j].date)
}

/// Monotone date order: an unblocked update of a date-ordered log whose
/// last entry is not in the future keeps the dates strictly increasing,
/// and the new last entry carries today's date. Applied step by step, any
/// sequence of updates under a non-decreasing clock keeps the log ordered.
pub proof fn lemma_update_keeps_dates_increasing(
    entries: Seq<TimeLogEntry>,
    today: Date,
    now: Time,
)
    requires
        dates_increasing(entries),
        entries.len() > 0 ==> entries.last().date.on_or_before(today),
        !update_blocked(entries, today),
    ensures
        dates_increasing(updated_entries(entries, today, now)),
        updated_entries(entries, today, now).len() > 0,
        updated_entries(entries, today, now).last().date == today,
{
    let u = updated_entries(entries, today, now);
    if entries.len() == 0 || entries.last().date != today {
        assert forall|i: int, j: int| 0 <= i < j < u.len() implies u[i].date.before(u[j].date) by {
            if j < entries.len() {
            } else {
                assert(u[j].date == today);
                assert(u[i] == entries[i]);
                if i < entries.len() - 1 {
                    assert(entries[i].date.before(entries.last().date));
                }
                assert(entries.last().date.before(today) || entries.last().date == today);
            }
        }
    } else {
        assert forall|i: int, j: int| 0 <= i < j < u.len() implies u[i].date.before(u[j].date) by {
            assert(u[i].date == entries[i].date);
            assert(u[j].date == entries[j].date);
        }
    }
}

/// The log left after a whole sequence of invocations, each handing the
/// engine the clock reading `calls[k]`. A blocked invocation (today
/// already finished) surfaces its error and leaves the log as it was.
pub open spec fn run_updates(entries: Seq<TimeLogEntry>, calls: Seq<(Date, Time)>) -> Seq<
    TimeLogEntry,
>
    decreases calls.len(),
{
    if calls.len() == 0 {
        entries
    } else {
        let step = if update_blocked(entries, calls[0].0) {
            entries
        } else {
            updated_entries(entries, calls[0].0, calls[0].1)
        };
        run_updates(step, calls.skip(1))
    }
}

/// The injected dates never go backwards along the calls.
pub open spec fn calls_non_decreasing(calls: Seq<(Date, Time)>) -> bool {
    forall|i: int, j: int| 0 <= i < j < calls.len() ==> calls[i].0.on_or_before(calls[j].0)
}

/// Monotone date order over whole runs: after any sequence of update
/// calls with non-decreasing `today`, starting from a date-ordered log
/// not ahead of the clock, the dates of the resulting log are strictly
/// increasing.
pub proof fn lemma_run_updates_dates_increasing(
    entries: Seq<TimeLogEntry>,
    calls: Seq<(Date, Time)>,
)
    requires
        dates_increasing(entries),
        entries.len() > 0 && calls.len() > 0 ==> entries.last().date.on_or_before(calls[0].0),
        calls_non_decreasing(calls),
    ensures
        dates_increasing(run_updates(entries, calls)),
        calls.len() == 0 ==> run_updates(entries, calls) == entries,
        calls.len() > 0 ==> run_updates(entries, calls).len() > 0 && run_updates(
            entries,
            calls,
        ).last().date == calls.last().0,
    decreases calls.len(),
{
    if calls.len() == 0 {
    } else {
        let today = calls[0].0;
        let step = if update_blocked(entries, today) {
            entries
        } else {
            updated_entries(entries, today, calls[0].1)
        };
        if update_blocked(entries, today) {
            assert(step.last().date == today);
        } else {
            lemma_update_keeps_dates_increasing(entries, today, calls[0].1);
        }
        let rest = calls.skip(1);
        assert forall|i: int, j: int| 0 <= i < j < rest.len() implies rest[i].0.on_or_before(
            rest[j].0,
        ) by {
            assert(calls[i + 1].0.on_or_before(calls[j + 1].0));
        }
        if rest.len() > 0 {
            assert(calls[0].0.on_or_before(calls[1].0));
            assert(rest[0] == calls[1]);
        }
        lemma_run_updates_dates_increasing(step, rest);
        if rest.len() > 0 {
            assert(rest.last() == calls.last());
        }
    }
}

/// Closed days are frozen: when the last entry is today's and is finished,
/// the engine is blocked, and `TimeLog::update` then returns
/// `ShiftComplete` and builds no new log.
pub proof fn lemma_closed_day_frozen(entries: Seq<TimeLogEntry>, today: Date)
    requires
        entries.len() > 0,
        entries.last().date == today,
        entries.last().state is DayFinished,
    ensures
        update_blocked(entries, today),
{
}

/// An unblocked update keeps every entry well-formed, provided the clock
/// hands it a well-formed date and time.
pub proof fn lemma_update_keeps_wf(entries: Seq<TimeLogEntry>, today: Date, now: Time)
    requires
        forall|k: int| 0 <= k < entries.len() ==> entries[k].wf(),
        today.wf(),
        now.wf(),
    ensures
        forall|k: int|
            0 <= k < updated_entries(entries, today, now).len() ==> updated_entries(
                entries,
                today,
                now,
            )[k].wf(),
{
    let u = updated_entries(entries, today, now);
    if entries.len() == 0 || entries.last().date != today {
    } else {
        crate::timelog::timelogentry::lemma_advanced_wf(entries.last().state, now);
    }
}

// ---------------------------------------------------------------------------
// The log itself
// ---------------------------------------------------------------------------

/// What one invocation should do to the log.
enum UpdateAction {
    NewDay(Date, Time),
    FillSlot(Time),
    AlreadyComplete,
}

/// An ordered collection of day entries.
#[derive(Debug)]
pub struct TimeLog {
    entries: Vec<TimeLogEntry>,
}

impl View for TimeLog {
    type V = Seq<TimeLogEntry>;

    closed spec fn view(&self) -> Seq<TimeLogEntry> {
        self.entries@
    }
}

impl TimeLog {
    /// Every entry can be written to the wire form.
    pub open spec fn wf(self) -> bool {
        forall|k: int| 0 <= k < self@.len() ==> self@[k].wf()
    }

    /// A log with no entries.
    pub fn empty() -> (log: TimeLog)
        ensures
            log@ == Seq::<TimeLogEntry>::empty(),
    {
        TimeLog { entries: Vec::new() }
    }

    /// A log holding exactly `entries`, oldest first.
    pub fn new(entries: Vec<TimeLogEntry>) -> (log: TimeLog)
        ensures
            log@ == entries@,
    {
        TimeLog { entries }
    }

    /// The most recent entry, if any.
    pub fn latest(&self) -> (r: Option<TimeLogEntry>)
        ensures
            r == (if self@.len() == 0 {
                None::<TimeLogEntry>
            } else {
                Some(self@.last())
            }),
    {
        if self.entries.len() == 0 {
            None
        } else {
            Some(self.entries[self.entries.len() - 1])
        }
    }

    /// All entries, oldest first.
    pub fn entries(&self) -> (r: &Vec<TimeLogEntry>)
        ensures
            r@ == self@,
    {
        &self.entries
    }

    /// Decodes a whole file; a missing file should be handed in as an
    /// empty slice and decodes to the empty log. If any record line is
    /// malformed the whole load fails and reports every malformed line at
    /// once; no partial log is returned.
    pub fn parse(data: &[u8]) -> (r: Result<TimeLog, ClockerError>)
        ensures
            errors_from(lines_of(data@), 1).len() == 0 ==> (r matches Ok(log) && log@
                == entries_from(lines_of(data@), 1) && log.wf()),
            errors_from(lines_of(data@), 1).len() > 0 ==> (r matches Err(e) && (e matches
            ClockerError::FileParseError(v) && v@ == errors_from(lines_of(data@), 1))),
    {
        let lines = split_lines(data);
        let ghost ld = lines.deep_view();
        let mut entries: Vec<TimeLogEntry> = Vec::new();
        let mut errors: Vec<RowError> = Vec::new();
        let mut idx: usize = 1;
        proof {
            assert(ld.len() == lines@.len());
            if ld.len() < 1 {
                assert(entries_from(ld, 1) =~= seq![]);
                assert(errors_from(ld, 1) =~= seq![]);
            }
        }
        while idx < lines.len()
            invariant
                1 <= idx,
                idx <= lines@.len() || idx == 1,
                ld == lines.deep_view(),
                ld.len() == lines@.len(),
                entries_from(ld, 1) == entries@ + entries_from(ld, idx as int),
                errors_from(ld, 1) == errors@ + errors_from(ld, idx as int),
            decreases lines@.len() - idx,
        {
            proof {
                assert(ld[idx as int] =~= lines@[idx as int]@);
            }
            let line_len = lines[idx].len();
            let has_cr = line_len > 0 && lines[idx][line_len - 1] == CARRIAGE_RETURN;
            let eff_len = if has_cr {
                line_len - 1
            } else {
                line_len
            };
            let eff = vstd::slice::slice_subrange(lines[idx].as_slice(), 0, eff_len);
            proof {
                assert(eff@ =~= strip_cr(ld[idx as int]));
            }
            if eff.len() == 0 {
                proof {
                    assert(line_blank(ld[idx as int]));
                    assert(entries_from(ld, idx as int) == entries_from(ld, idx as int + 1));
                    assert(errors_from(ld, idx as int) == errors_from(ld, idx as int + 1));
                }
            } else {
                let fields = split_bytes(eff, COMMA);
                match decode_fields(&fields) {
                    Ok(e) => {
                        entries.push(e);
                        proof {
                            assert(entries_from(ld, idx as int) == seq![e] + entries_from(
                                ld,
                                idx as int + 1,
                            ));
                            assert(entries@ + entries_from(ld, idx as int + 1) =~= entries_from(
                                ld,
                                1,
                            ));
                            assert(errors_from(ld, idx as int) == errors_from(ld, idx as int + 1));
                        }
                    },
                    Err(k) => {
                        let re = RowError { line: idx + 1, kind: k };
                        errors.push(re);
                        proof {
                            assert(errors_from(ld, idx as int) == seq![re] + errors_from(
                                ld,
                                idx as int + 1,
                            ));
                            assert(errors@ + errors_from(ld, idx as int + 1) =~= errors_from(
                                ld,
                                1,
                            ));
                            assert(entries_from(ld, idx as int) == entries_from(ld, idx as int + 1));
                        }
                    },
                }
            }
            idx = idx + 1;
        }
        proof {
            assert(entries_from(ld, idx as int) =~= seq![]);
            assert(errors_from(ld, idx as int) =~= seq![]);
            assert(entries@ =~= entries_from(ld, 1));
            assert(errors@ =~= errors_from(ld, 1));
            lemma_entries_from_wf(ld, 1);
        }
        if errors.len() == 0 {
            Ok(TimeLog { entries })
        } else {
            Err(ClockerError::FileParseError(errors))
        }
    }

    /// Encodes the log: the header row, then one record line per entry,
    /// every line ended by a line break.
    pub fn encode(&self) -> (out: Vec<u8>)
        requires
            self.wf(),
        ensures
            out@ == encode_log_spec(self@),
    {
        let mut out: Vec<u8> = Vec::new();
        push_header(&mut out);
        out.push(NEWLINE);
        let mut i: usize = 0;
        while i < self.entries.len()
            invariant
                0 <= i <= self@.len(),
                self.wf(),
                out@ + encode_entries_spec(self@, i as int) == encode_log_spec(self@),
            decreases self@.len() - i,
        {
            push_record(&mut out, &self.entries[i]);
            out.push(NEWLINE);
            proof {
                assert(out@ + encode_entries_spec(self@, i as int + 1) =~= encode_log_spec(self@));
            }
            i = i + 1;
        }
        proof {
            assert(encode_entries_spec(self@, i as int) =~= seq![]);
            assert(out@ =~= encode_log_spec(self@));
        }
        out
    }

    /// Decides what this invocation should do, from the last entry and the
    /// injected date.
    fn determine_action(&self, today: Date, now: Time) -> (a: UpdateAction)
        ensures
            update_blocked(self@, today) ==> a is AlreadyComplete,
            !update_blocked(self@, today) && (self@.len() == 0 || self@.last().date != today)
                ==> a == UpdateAction::NewDay(today, now),
            !update_blocked(self@, today) && !(self@.len() == 0 || self@.last().date != today)
                ==> a == UpdateAction::FillSlot(now),
    {
        if self.entries.len() == 0 {
            return UpdateAction::NewDay(today, now);
        }
        let last = self.entries[self.entries.len() - 1];
        if last.date != today {
            UpdateAction::NewDay(today, now)
        } else {
            match last.state {
                DayState::DayFinished(_, _, _, _) => UpdateAction::AlreadyComplete,
                _ => UpdateAction::FillSlot(now),
            }
        }
    }

    /// Carries out the decided action on a copy of the log.
    fn apply_action(&self, action: UpdateAction) -> (r: Result<TimeLog, ClockerError>)
        requires
            action is FillSlot ==> self@.len() > 0,
        ensures
            action is AlreadyComplete ==> (r matches Err(e) && e is ShiftComplete),
            action matches UpdateAction::NewDay(d, t) ==> (r matches Ok(l) && l@ == self@.push(
                TimeLogEntry { date: d, state: DayState::MorningStarted(t) },
            )),
            action matches UpdateAction::FillSlot(t) ==> (r matches Ok(l) && l@ == self@.update(
                self@.len() - 1,
                TimeLogEntry {
                    date: self@.last().date,
                    state: self@.last().state.advanced(t),
                },
            )),
    {
        match action {
            UpdateAction::AlreadyComplete => Err(ClockerError::ShiftComplete),
            UpdateAction::NewDay(d, t) => {
                let mut entries = vstd::slice::slice_to_vec(self.entries.as_slice());
                entries.push(TimeLogEntry::new(d, t));
                Ok(TimeLog { entries })
            },
            UpdateAction::FillSlot(t) => {
                let mut entries = vstd::slice::slice_to_vec(self.entries.as_slice());
                let i = entries.len() - 1;
                let mut e = entries[i];
                e.transition(t);
                entries.set(i, e);
                Ok(TimeLog { entries })
            },
        }
    }

    /// The log a file's contents stand for, a missing file standing for
    /// the empty log.
    pub fn load(input: Option<&[u8]>) -> (r: Result<TimeLog, ClockerError>)
        ensures
            load_error_list(input).len() == 0 ==> (r matches Ok(log) && log@ == loaded_entries(
                input,
            ) && log.wf()),
            load_error_list(input).len() > 0 ==> (r matches Err(e) && (e matches
            ClockerError::FileParseError(v) && v@ == load_error_list(input))),
    {
        match input {
            None => Ok(TimeLog::empty()),
            Some(d) => TimeLog::parse(d),
        }
    }

    /// One invocation of the update engine, a pure function of the log and
    /// the injected clock readings. Appends a fresh entry when the log is
    /// empty or its last entry is not today's; otherwise fills today's
    /// next slot; refuses with `ShiftComplete` when today is already
    /// finished, leaving the log untouched.
    pub fn update(&self, today: Date, now: Time) -> (r: Result<TimeLog, ClockerError>)
        ensures
            update_blocked(self@, today) ==> (r matches Err(e) && e is ShiftComplete),
            !update_blocked(self@, today) ==> (r matches Ok(l) && l@ == updated_entries(
                self@,
                today,
                now,
            )),
            !update_blocked(self@, today) && self.wf() && today.wf() && now.wf() ==> (r matches
            Ok(l) && l.wf()),
    {
        let action = self.determine_action(today, now);
        let r = self.apply_action(action);
        proof {
            if !update_blocked(self@, today) && self.wf() && today.wf() && now.wf() {
                lemma_update_keeps_wf(self@, today, now);
            }
        }
        r
    }
}

// ---------------------------------------------------------------------------
// The command surface, minus the file system
// ---------------------------------------------------------------------------

/// What a possibly missing input file decodes to.
pub open spec fn loaded_entries(input: Option<&[u8]>) -> Seq<TimeLogEntry> {
    match input {
        None => seq![],
        Some(d) => entries_from(lines_of(d@), 1),
    }
}

/// The decode failures of a possibly missing input file.
pub open spec fn load_error_list(input: Option<&[u8]>) -> Seq<RowError> {
    match input {
        None => seq![],
        Some(d) => errors_from(lines_of(d@), 1),
    }
}

/// The default command: load, update, and hand back the bytes to save.
/// `input` is the input file's contents, or `None` when the file is
/// missing.
pub fn run_log(input: Option<&[u8]>, today: Date, now: Time) -> (r: Result<Vec<u8>, ClockerError>)
    requires
        today.wf(),
        now.wf(),
    ensures
        load_error_list(input).len() > 0 ==> (r matches Err(e) && (e matches
        ClockerError::FileParseError(v) && v@ == load_error_list(input))),
        load_error_list(input).len() == 0 && update_blocked(loaded_entries(input), today) ==> (
        r matches Err(e) && e is ShiftComplete),
        load_error_list(input).len() == 0 && !update_blocked(loaded_entries(input), today) ==> (
        r matches Ok(out) && out@ == encode_log_spec(
            updated_entries(loaded_entries(input), today, now),
        )),
{
    let log = match TimeLog::load(input) {
        Ok(l) => l,
        Err(e) => {
            return Err(e);
        },
    };
    let updated = match log.update(today, now) {
        Ok(l) => l,
        Err(e) => {
            return Err(e);
        },
    };
    Ok(updated.encode())
}

/// The archive command: load and update, hand back the updated log's bytes
/// for the backup file and a header-only file for the output.
pub fn run_archive(input: Option<&[u8]>, today: Date, now: Time) -> (r: Result<
    (Vec<u8>, Vec<u8>),
    ClockerError,
>)
    requires
        today.wf(),
        now.wf(),
    ensures
        load_error_list(input).len() > 0 ==> (r matches Err(e) && (e matches
        ClockerError::FileParseError(v) && v@ == load_error_list(input))),
        load_error_list(input).len() == 0 && update_blocked(loaded_entries(input), today) ==> (
        r matches Err(e) && e is ShiftComplete),
        load_error_list(input).len() == 0 && !update_blocked(loaded_entries(input), today) ==> (
        r matches Ok(p) && p.0@ == encode_log_spec(
            updated_entries(loaded_entries(input), today, now),
        ) && p.1@ == encode_log_spec(Seq::<TimeLogEntry>::empty())),
{
    let log = match TimeLog::load(input) {
        Ok(l) => l,
        Err(e) => {
            return Err(e);
        },
    };
    let updated = match log.update(today, now) {
        Ok(l) => l,
        Err(e) => {
            return Err(e);
        },
    };
    let backup = updated.encode();
    let output = TimeLog::empty().encode();
    Ok((backup, output))
}

/// The new-month command: hand back the loaded log's bytes for the backup
/// file, and a fresh log holding only today's first stamp for the output.
pub fn run_new_month(input: Option<&[u8]>, today: Date, now: Time) -> (r: Result<
    (Vec<u8>, Vec<u8>),
    ClockerError,
>)
    requires
        today.wf(),
        now.wf(),
    ensures
        load_error_list(input).len() > 0 ==> (r matches Err(e) && (e matches
        ClockerError::FileParseError(v) && v@ == load_error_list(input))),
        load_error_list(input).len() == 0 ==> (r matches Ok(p) && p.0@ == encode_log_spec(
            loaded_entries(input),
        ) && p.1@ == encode_log_spec(
            updated_entries(Seq::<TimeLogEntry>::empty(), today, now),
        )),
{
    let log = match TimeLog::load(input) {
        Ok(l) => l,
        Err(e) => {
            return Err(e);
        },
    };
    let backup = log.encode();
    let started = match TimeLog::empty().update(today, now) {
        Ok(l) => l,
        Err(e) => {
            return Err(e);
        },
    };
    Ok((backup, started.encode()))
}

/// The snapshot command: hand back the loaded log's bytes for the backup
/// file; nothing else is written.
pub fn run_snapshot(input: Option<&[u8]>) -> (r: Result<Vec<u8>, ClockerError>)
    ensures
        load_error_list(input).len() > 0 ==> (r matches Err(e) && (e matches
        ClockerError::FileParseError(v) && v@ == load_error_list(input))),
        load_error_list(input).len() == 0 ==> (r matches Ok(b) && b@ == encode_log_spec(
            loaded_entries(input),
        )),
{
    let log = match TimeLog::load(input) {
        Ok(l) => l,
        Err(e) => {
            return Err(e);
        },
    };
    Ok(log.encode())
}

} // verus!
