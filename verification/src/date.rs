//! Calendar dates and timestamps for partition keys.
//!
//! A partition is keyed by a calendar date; records carry a date plus a
//! second-of-day. Dates order chronologically, which here is the numeric
//! order of their zero-padded digit forms.

use vstd::prelude::*;

verus! {

/// Seconds in one day.
pub const SECS_PER_DAY: u32 = 86400;

/// A calendar date, proleptic Gregorian, within the four-digit-year range
/// of the partition filename format.
#[derive(Debug, Clone, Copy, PartialEq, Eq, Structural)]
pub struct Date {
    pub year: u32,
    pub month: u32,
    pub day: u32,
}

/// A point in time: a date plus a second of that day.
#[derive(Debug, Clone, Copy, PartialEq, Eq, Structural)]
pub struct Timestamp {
    pub date: Date,
    pub secs: u32,
}

pub open spec fn is_leap_year(y: int) -> bool {
    y % 4 == 0 && (y % 100 != 0 || y % 400 == 0)
}

pub open spec fn days_in_month(y: int, m: int) -> int {
    if m == 2 {
        if is_leap_year(y) {
            29
        } else {
            28
        }
    } else if m == 4 || m == 6 || m == 9 || m == 11 {
        30
    } else {
        31
    }
}

pub open spec fn date_valid(d: Date) -> bool {
    &&& d.year <= 9999
    &&& 1 <= d.month <= 12
    &&& 1 <= d.day <= days_in_month(d.year as int, d.month as int)
}

pub open spec fn ts_valid(t: Timestamp) -> bool {
    date_valid(t.date) && t.secs < SECS_PER_DAY
}

/// Chronological order of dates as a single number: later dates have larger
/// keys.
pub open spec fn date_key(d: Date) -> int {
    d.year * 10000 + d.month * 100 + d.day
}

pub open spec fn date_le(a: Date, b: Date) -> bool {
    date_key(a) <= date_key(b)
}

pub open spec fn date_lt(a: Date, b: Date) -> bool {
    date_key(a) < date_key(b)
}

/// The calendar day after `d`.
pub open spec fn spec_next_date(d: Date) -> Date {
    if d.day < days_in_month(d.year as int, d.month as int) {
        Date { year: d.year, month: d.month, day: (d.day + 1) as u32 }
    } else if d.month < 12 {
        Date { year: d.year, month: (d.month + 1) as u32, day: 1 }
    } else {
        Date { year: (d.year + 1) as u32, month: 1, day: 1 }
    }
}

/// The calendar day before `d`.
pub open spec fn spec_prev_date(d: Date) -> Date {
    if d.day > 1 {
        Date { year: d.year, month: d.month, day: (d.day - 1) as u32 }
    } else if d.month > 1 {
        Date {
            year: d.year,
            month: (d.month - 1) as u32,
            day: days_in_month(d.year as int, d.month as int - 1) as u32,
        }
    } else {
        Date { year: (d.year - 1) as u32, month: 12, day: 31 }
    }
}

/// The calendar date on which the instant `local minus offset` falls: the
/// UTC date of a wall-clock reading taken at a fixed offset east of UTC.
pub open spec fn spec_utc_date(t: Timestamp, offset_secs: int) -> Date {
    let total = t.secs - offset_secs;
    if total < 0 {
        spec_prev_date(t.date)
    } else if total >= SECS_PER_DAY {
        spec_next_date(t.date)
    } else {
        t.date
    }
}

/// Distinct valid dates have distinct chronological keys.
pub proof fn lemma_date_key_injective(a: Date, b: Date)
    requires
        date_valid(a),
        date_valid(b),
        date_key(a) == date_key(b),
    ensures
        a == b,
{
    assert(a.year == b.year && a.month == b.month && a.day == b.day);
}

impl Date {
    /// Whether the fields form a real calendar date in range.
    pub fn valid(&self) -> (r: bool)
        ensures
            r == date_valid(*self),
    {
        let dim = if self.month == 2 {
            let leap = self.year % 4 == 0 && (self.year % 100 != 0 || self.year % 400 == 0);
            if leap {
                29u32
            } else {
                28u32
            }
        } else if self.month == 4 || self.month == 6 || self.month == 9 || self.month == 11 {
            30u32
        } else {
            31u32
        };
        self.year <= 9999 && 1 <= self.month && self.month <= 12 && 1 <= self.day && self.day
            <= dim
    }

    /// Chronological comparison key.
    pub fn key(&self) -> (r: u32)
        requires
            date_valid(*self),
        ensures
            r == date_key(*self),
    {
        self.year * 10000 + self.month * 100 + self.day
    }

    /// Whether `self` is on or before `other`.
    pub fn le(&self, other: &Date) -> (r: bool)
        requires
            date_valid(*self),
            date_valid(*other),
        ensures
            r == date_le(*self, *other),
    {
        self.key() <= other.key()
    }

    /// Whether `self` is strictly before `other`.
    pub fn lt(&self, other: &Date) -> (r: bool)
        requires
            date_valid(*self),
            date_valid(*other),
        ensures
            r == date_lt(*self, *other),
    {
        self.key() < other.key()
    }

    /// The calendar day after this one.
    pub fn next_date(&self) -> (r: Date)
        requires
            date_valid(*self),
            self.year <= 9998,
        ensures
            r == spec_next_date(*self),
            date_valid(r),
    {
        let dim = if self.month == 2 {
            let leap = self.year % 4 == 0 && (self.year % 100 != 0 || self.year % 400 == 0);
            if leap {
                29u32
            } else {
                28u32
            }
        } else if self.month == 4 || self.month == 6 || self.month == 9 || self.month == 11 {
            30u32
        } else {
            31u32
        };
        if self.day < dim {
            Date { year: self.year, month: self.month, day: self.day + 1 }
        } else if self.month < 12 {
            Date { year: self.year, month: self.month + 1, day: 1 }
        } else {
            Date { year: self.year + 1, month: 1, day: 1 }
        }
    }

    /// The calendar day before this one.
    pub fn prev_date(&self) -> (r: Date)
        requires
            date_valid(*self),
            self.year >= 1,
        ensures
            r == spec_prev_date(*self),
            date_valid(r),
    {
        if self.day > 1 {
            Date { year: self.year, month: self.month, day: self.day - 1 }
        } else if self.month > 1 {
            let pm = self.month - 1;
            let dim = if pm == 2 {
                let leap = self.year % 4 == 0 && (self.year % 100 != 0 || self.year % 400 == 0);
                if leap {
                    29u32
                } else {
                    28u32
                }
            } else if pm == 4 || pm == 6 || pm == 9 || pm == 11 {
                30u32
            } else {
                31u32
            };
            Date { year: self.year, month: pm, day: dim }
        } else {
            Date { year: self.year - 1, month: 12, day: 31 }
        }
    }
}

impl Timestamp {
    /// The UTC calendar date of this wall-clock reading, taken at a fixed
    /// offset of `offset_secs` seconds east of UTC.
    pub fn utc_date(&self, offset_secs: i32) -> (r: Date)
        requires
            ts_valid(*self),
            -86400 < offset_secs < 86400,
            1 <= self.date.year <= 9998,
        ensures
            r == spec_utc_date(*self, offset_secs as int),
            date_valid(r),
    {
        let total: i64 = self.secs as i64 - offset_secs as i64;
        if total < 0 {
            self.date.prev_date()
        } else if total >= SECS_PER_DAY as i64 {
            self.date.next_date()
        } else {
            self.date
        }
    }
}

} // verus!
