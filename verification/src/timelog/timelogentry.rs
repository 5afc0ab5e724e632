//! One day's record: a calendar date and a four-slot day state.

use vstd::prelude::*;

verus! {

/// A calendar date in the host's local time zone, precision one day.
///
/// Well-formed dates (`wf`) are real calendar dates with a four-digit year,
/// which is exactly what the `YYYY-MM-DD` wire form can carry.
#[derive(Clone, Copy, Debug, PartialEq, Eq, Structural)]
pub struct Date {
    pub year: u16,
    pub month: u8,
    pub day: u8,
}

/// The Gregorian leap-year rule.
pub open spec fn is_leap_year(y: int) -> bool {
    y % 4 == 0 && (y % 100 != 0 || y % 400 == 0)
}

/// Number of days of month `m` of year `y`, for `1 <= m <= 12`.
pub open spec fn days_in_month(y: int, m: int) -> int {
    if m == 2 {
        if is_leap_year(y) {
            29
        } else {
            28
        }
    } else if m == 4 || m == 6 || m == 9 || m == 11 {
        30
    } else {
        31
    }
}

impl Date {
    /// A real calendar date with a four-digit year.
    pub open spec fn wf(self) -> bool {
        &&& self.year <= 9999
        &&& 1 <= self.month <= 12
        &&& 1 <= self.day <= days_in_month(self.year as int, self.month as int)
    }

    /// Strict calendar order: `self` falls on an earlier day than `other`.
    pub open spec fn before(self, other: Date) -> bool {
        ||| self.year < other.year
        ||| (self.year == other.year && self.month < other.month)
        ||| (self.year == other.year && self.month == other.month && self.day < other.day)
    }

    /// `self` falls on the same day as `other` or earlier.
    pub open spec fn on_or_before(self, other: Date) -> bool {
        self == other || self.before(other)
    }
}

/// A wall-clock time of day truncated to whole minutes.
#[derive(Clone, Copy, Debug, PartialEq, Eq, Structural)]
pub struct Time {
    pub hour: u8,
    pub minute: u8,
}

impl Time {
    /// A time that a 24-hour clock can show.
    pub open spec fn wf(self) -> bool {
        self.hour < 24 && self.minute < 60
    }
}

/// Which leading slots of the day have been filled, and with what times.
///
/// The sum type makes a gap unrepresentable: the end of the morning cannot
/// be recorded without its start, and so on.
#[derive(Clone, Copy, Debug, PartialEq, Eq, Structural)]
pub enum DayState {
    FreshDay,
    MorningStarted(Time),
    MorningFinished(Time, Time),
    AfternoonStarted(Time, Time, Time),
    DayFinished(Time, Time, Time, Time),
}

impl DayState {
    /// The four optional cells of the wire form, in slot order:
    /// morning start, morning end, afternoon start, afternoon end.
    pub open spec fn slots(self) -> Seq<Option<Time>> {
        match self {
            DayState::FreshDay => seq![None, None, None, None],
            DayState::MorningStarted(a) => seq![Some(a), None, None, None],
            DayState::MorningFinished(a, b) => seq![Some(a), Some(b), None, None],
            DayState::AfternoonStarted(a, b, c) => seq![Some(a), Some(b), Some(c), None],
            DayState::DayFinished(a, b, c, d) => seq![Some(a), Some(b), Some(c), Some(d)],
        }
    }

    /// All recorded times can be shown by a 24-hour clock.
    pub open spec fn wf(self) -> bool {
        match self {
            DayState::FreshDay => true,
            DayState::MorningStarted(a) => a.wf(),
            DayState::MorningFinished(a, b) => a.wf() && b.wf(),
            DayState::AfternoonStarted(a, b, c) => a.wf() && b.wf() && c.wf(),
            DayState::DayFinished(a, b, c, d) => a.wf() && b.wf() && c.wf() && d.wf(),
        }
    }

    /// The transition table: fill the next unfilled slot with `t`;
    /// a finished day stays as it is.
    pub open spec fn advanced(self, t: Time) -> DayState {
        match self {
            DayState::FreshDay => DayState::MorningStarted(t),
            DayState::MorningStarted(a) => DayState::MorningFinished(a, t),
            DayState::MorningFinished(a, b) => DayState::AfternoonStarted(a, b, t),
            DayState::AfternoonStarted(a, b, c) => DayState::DayFinished(a, b, c, t),
            DayState::DayFinished(a, b, c, d) => DayState::DayFinished(a, b, c, d),
        }
    }
}

/// Advancing a well-formed day state with a well-formed time keeps it
/// well-formed.
pub proof fn lemma_advanced_wf(s: DayState, t: Time)
    requires
        s.wf(),
        t.wf(),
    ensures
        s.advanced(t).wf(),
{
}

/// The day state named by the presence pattern of the four optional cells,
/// by the leftmost-gap rule: the variant is decided by the longest filled
/// prefix, and any cell after the first gap is ignored.
pub open spec fn state_of_slots(
    a: Option<Time>,
    b: Option<Time>,
    c: Option<Time>,
    d: Option<Time>,
) -> DayState {
    match (a, b, c, d) {
        (None, _, _, _) => DayState::FreshDay,
        (Some(x), None, _, _) => DayState::MorningStarted(x),
        (Some(x), Some(y), None, _) => DayState::MorningFinished(x, y),
        (Some(x), Some(y), Some(z), None) => DayState::AfternoonStarted(x, y, z),
        (Some(x), Some(y), Some(z), Some(w)) => DayState::DayFinished(x, y, z, w),
    }
}

/// One row of the log: a date and the day state recorded for it.
#[derive(Clone, Copy, Debug, PartialEq, Eq, Structural)]
pub struct TimeLogEntry {
    pub date: Date,
    pub state: DayState,
}

impl TimeLogEntry {
    /// The entry round-trips through the wire form.
    pub open spec fn wf(self) -> bool {
        self.date.wf() && self.state.wf()
    }

    /// A brand-new row: the morning of `date` has just started.
    pub fn new(date: Date, start_am: Time) -> (e: TimeLogEntry)
        ensures
            e == (TimeLogEntry { date, state: DayState::MorningStarted(start_am) }),
    {
        TimeLogEntry { date, state: DayState::MorningStarted(start_am) }
    }

    /// Fill the next unfilled slot of the day with `t`; a finished day is
    /// left unchanged.
    pub fn transition(&mut self, t: Time)
        ensures
            final(self).date == old(self).date,
            final(self).state == old(self).state.advanced(t),
    {
        self.state = match self.state {
            DayState::FreshDay => DayState::MorningStarted(t),
            DayState::MorningStarted(a) => DayState::MorningFinished(a, t),
            DayState::MorningFinished(a, b) => DayState::AfternoonStarted(a, b, t),
            DayState::AfternoonStarted(a, b, c) => DayState::DayFinished(a, b, c, t),
            DayState::DayFinished(a, b, c, d) => DayState::DayFinished(a, b, c, d),
        };
    }

    /// Record the end of the morning.
    pub fn set_end_am(&mut self, end_am: Time)
        requires
            old(self).state is MorningStarted,
        ensures
            final(self).date == old(self).date,
            final(self).state == old(self).state.advanced(end_am),
    {
        self.transition(end_am);
    }

    /// Record the start of the afternoon.
    pub fn set_start_pm(&mut self, start_pm: Time)
        requires
            old(self).state is MorningFinished,
        ensures
            final(self).date == old(self).date,
            final(self).state == old(self).state.advanced(start_pm),
    {
        self.transition(start_pm);
    }

    /// Record the end of the afternoon.
    pub fn set_end_pm(&mut self, end_pm: Time)
        requires
            old(self).state is AfternoonStarted,
        ensures
            final(self).date == old(self).date,
            final(self).state == old(self).state.advanced(end_pm),
    {
        self.transition(end_pm);
    }
}

} // verus!
