//! Calendar dates: validity, ordering, successor, inclusive ranges, and
//! ISO-8601 parsing.
//!
//! A date is a plain year/month/day triple in the Gregorian calendar, valid
//! for years 1 through 9999. The historical engine enumerates every day of an
//! inclusive range and keys its series by these triples.

use vstd::prelude::*;
use vstd::string::*;

verus! {

/// A calendar date (Gregorian, years 1 through 9999).
#[derive(Debug, Clone, Copy, PartialEq, Eq, Structural)]
pub struct Date {
    pub year: i32,
    pub month: u8,
    pub day: u8,
}

pub open spec fn spec_is_leap_year(year: int) -> bool {
    year % 4 == 0 && (year % 100 != 0 || year % 400 == 0)
}

pub open spec fn spec_days_in_month(year: int, month: int) -> int {
    if month == 2 {
        if spec_is_leap_year(year) {
            29
        } else {
            28
        }
    } else if month == 4 || month == 6 || month == 9 || month == 11 {
        30
    } else {
        31
    }
}

/// The day after `d` in the calendar (meaningful for valid dates).
pub open spec fn spec_next(d: Date) -> Date {
    if d.day < spec_days_in_month(d.year as int, d.month as int) {
        Date { year: d.year, month: d.month, day: (d.day + 1) as u8 }
    } else if d.month < 12 {
        Date { year: d.year, month: (d.month + 1) as u8, day: 1 }
    } else {
        Date { year: (d.year + 1) as i32, month: 1, day: 1 }
    }
}

/// Calendar order, `a` on or before `b`.
pub open spec fn spec_le(a: Date, b: Date) -> bool {
    ||| a.year < b.year
    ||| (a.year == b.year && a.month < b.month)
    ||| (a.year == b.year && a.month == b.month && a.day <= b.day)
}

/// Calendar order, `a` strictly before `b`.
pub open spec fn spec_lt(a: Date, b: Date) -> bool {
    spec_le(a, b) && a != b
}

/// A linear stand-in for calendar order: strictly larger on each later date.
pub open spec fn date_idx(d: Date) -> int {
    d.year * 600 + d.month * 45 + d.day
}

impl Date {
    /// Within range and consistent with the month lengths of its year.
    pub open spec fn valid(&self) -> bool {
        &&& 1 <= self.year <= 9999
        &&& 1 <= self.month <= 12
        &&& 1 <= self.day <= spec_days_in_month(self.year as int, self.month as int)
    }

    /// Build a date, rejecting anything outside the calendar.
    pub fn from_calendar_date(year: i32, month: u8, day: u8) -> (r: Option<Date>)
        ensures
            match r {
                Some(d) => d == (Date { year, month, day }) && d.valid(),
                None => !(Date { year, month, day }).valid(),
            },
    {
        if 1 <= year && year <= 9999 && 1 <= month && month <= 12 && 1 <= day
            && day <= days_in_month(year, month) {
            Some(Date { year, month, day })
        } else {
            None
        }
    }

    /// The next calendar day; `None` only at the very end of the calendar.
    pub fn next_day(self) -> (r: Option<Date>)
        requires
            self.valid(),
        ensures
            match r {
                Some(n) => n == spec_next(self) && n.valid(),
                None => self == (Date { year: 9999, month: 12, day: 31 }),
            },
    {
        let dim = days_in_month(self.year, self.month);
        if self.day < dim {
            Some(Date { year: self.year, month: self.month, day: self.day + 1 })
        } else if self.month < 12 {
            Some(Date { year: self.year, month: self.month + 1, day: 1 })
        } else if self.year < 9999 {
            Some(Date { year: self.year + 1, month: 1, day: 1 })
        } else {
            None
        }
    }
}

pub fn is_leap_year(year: i32) -> (r: bool)
    requires
        year >= 1,
    ensures
        r == spec_is_leap_year(year as int),
{
    year % 4 == 0 && (year % 100 != 0 || year % 400 == 0)
}

pub fn days_in_month(year: i32, month: u8) -> (r: u8)
    requires
        year >= 1,
        1 <= month <= 12,
    ensures
        r == spec_days_in_month(year as int, month as int),
{
    if month == 2 {
        if is_leap_year(year) {
            29
        } else {
            28
        }
    } else if month == 4 || month == 6 || month == 9 || month == 11 {
        30
    } else {
        31
    }
}

/// Decide calendar order.
pub fn date_le(a: Date, b: Date) -> (r: bool)
    ensures
        r == spec_le(a, b),
{
    if a.year < b.year {
        true
    } else if a.year > b.year {
        false
    } else if a.month < b.month {
        true
    } else if a.month > b.month {
        false
    } else {
        a.day <= b.day
    }
}

/// Stepping to the next day raises the index.
pub proof fn lemma_next_idx(d: Date)
    requires
        d.valid(),
    ensures
        date_idx(spec_next(d)) > date_idx(d),
{
}

/// The successor of a valid date (short of the calendar's end) is valid.
pub proof fn lemma_next_valid(d: Date)
    requires
        d.valid(),
        d != (Date { year: 9999, month: 12, day: 31 }),
    ensures
        spec_next(d).valid(),
{
}

/// Nothing lies between a date and its successor: a strictly later date is
/// at or after the successor.
pub proof fn lemma_next_le(a: Date, b: Date)
    requires
        a.valid(),
        b.valid(),
        spec_lt(a, b),
    ensures
        spec_le(spec_next(a), b),
{
}

/// Every day of the inclusive range, in calendar order.
pub open spec fn date_range(from: Date, to: Date) -> Seq<Date>
    decreases (if from.valid() && spec_le(from, to) {
        date_idx(to) - date_idx(from) + 1
    } else {
        0
    }),
{
    if from.valid() && spec_le(from, to) {
        seq![from] + date_range(spec_next(from), to)
    } else {
        Seq::empty()
    }
}

/// Enumerate every day of the inclusive range `[from, to]`.
pub fn dates_between(from: Date, to: Date) -> (r: Vec<Date>)
    requires
        from.valid(),
    ensures
        r@ == date_range(from, to),
{
    let mut out: Vec<Date> = Vec::new();
    let mut cur = from;
    loop
        invariant_except_break
            cur.valid(),
            out@ + date_range(cur, to) == date_range(from, to),
        ensures
            out@ == date_range(from, to),
        decreases (if spec_le(cur, to) {
            date_idx(to) - date_idx(cur) + 1
        } else {
            0
        }),
    {
        if !date_le(cur, to) {
            proof {
                assert(out@ + date_range(cur, to) =~= out@);
            }
            break;
        }
        let ghost prev = cur;
        let ghost out_pre = out@;
        out.push(cur);
        proof {
            assert(out@ =~= out_pre + seq![prev]);
            assert(out@ + date_range(spec_next(prev), to) =~= out_pre + date_range(prev, to));
        }
        match cur.next_day() {
            Some(n) => {
                proof {
                    lemma_next_idx(prev);
                    lemma_idx_lt_of_le(spec_next(prev), to);
                }
                cur = n;
            },
            None => {
                proof {
                    assert(!spec_next(prev).valid());
                    assert(date_range(spec_next(prev), to) =~= Seq::empty());
                    assert(out@ + date_range(spec_next(prev), to) =~= out@);
                }
                break;
            },
        }
    }
    out
}

/// A valid date at or before another has an index at most as large.
proof fn lemma_idx_lt_of_le(a: Date, b: Date)
    ensures
        a.valid() && b.valid() && spec_le(a, b) ==> date_idx(a) <= date_idx(b),
{
}

/// Law: the inclusive range holds exactly the valid days between its ends.
pub proof fn lemma_date_range_mem(from: Date, to: Date, d: Date)
    ensures
        date_range(from, to).contains(d) <==> from.valid() && d.valid() && spec_le(from, d)
            && spec_le(d, to),
    decreases (if from.valid() && spec_le(from, to) {
        date_idx(to) - date_idx(from) + 1
    } else {
        0
    }),
{
    if from.valid() && spec_le(from, to) {
        let rest = date_range(spec_next(from), to);
        let s = seq![from] + rest;
        lemma_date_range_mem(spec_next(from), to, d);
        if s.contains(d) {
            let i = choose|i: int| 0 <= i < s.len() && s[i] == d;
            if i > 0 {
                assert(rest[i - 1] == d);
                assert(rest.contains(d));
                assert(spec_le(from, spec_next(from)));
            }
        }
        if from.valid() && d.valid() && spec_le(from, d) && spec_le(d, to) {
            if d == from {
                assert(s[0] == d);
                assert(s.contains(d));
            } else {
                lemma_next_le(from, d);
                assert(rest.contains(d));
                let i = choose|i: int| 0 <= i < rest.len() && rest[i] == d;
                assert(s[i + 1] == d);
                assert(s.contains(d));
            }
        }
    }
}

/// Law: the range is strictly increasing, so no day is listed twice, and
/// every listed day is a valid date between the ends.
pub proof fn lemma_date_range_increasing(from: Date, to: Date)
    ensures
        forall|i: int|
            0 <= i < date_range(from, to).len() ==> {
                &&& (#[trigger] date_range(from, to)[i]).valid()
                &&& spec_le(from, date_range(from, to)[i])
                &&& spec_le(date_range(from, to)[i], to)
            },
        forall|i: int, j: int|
            0 <= i < j < date_range(from, to).len() ==> spec_lt(
                date_range(from, to)[i],
                date_range(from, to)[j],
            ),
    decreases (if from.valid() && spec_le(from, to) {
        date_idx(to) - date_idx(from) + 1
    } else {
        0
    }),
{
    if from.valid() && spec_le(from, to) {
        let rest = date_range(spec_next(from), to);
        let s = date_range(from, to);
        lemma_date_range_increasing(spec_next(from), to);
        assert forall|i: int| 0 <= i < s.len() implies {
            &&& (#[trigger] s[i]).valid()
            &&& spec_le(from, s[i])
            &&& spec_le(s[i], to)
        } by {
            if i > 0 {
                assert(s[i] == rest[i - 1]);
                assert(spec_le(from, spec_next(from)));
            }
        }
        assert forall|i: int, j: int| 0 <= i < j < s.len() implies spec_lt(s[i], s[j]) by {
            if i == 0 {
                assert(s[j] == rest[j - 1]);
                assert(rest[j - 1].valid() && spec_le(spec_next(from), rest[j - 1]));
                lemma_next_idx(from);
                if spec_next(from).valid() {
                    lemma_idx_lt_of_le(spec_next(from), rest[j - 1]);
                    assert(date_idx(from) < date_idx(rest[j - 1]));
                } else {
                    assert(rest.len() == 0);
                }
            } else {
                assert(s[i] == rest[i - 1]);
                assert(s[j] == rest[j - 1]);
            }
        }
    }
}

/// Law: a day through its third successor spans exactly four days.
pub proof fn lemma_date_range_four_days(from: Date)
    requires
        from.valid(),
        from.year < 9999,
    ensures
        ({
            let d1 = spec_next(from);
            let d2 = spec_next(d1);
            let d3 = spec_next(d2);
            date_range(from, d3) == seq![from, d1, d2, d3] && date_range(from, d3).len() == 4
        }),
{
    let d1 = spec_next(from);
    let d2 = spec_next(d1);
    let d3 = spec_next(d2);
    lemma_next_valid(from);
    lemma_next_valid(d1);
    lemma_next_valid(d2);
    assert(spec_lt(from, d1) && spec_lt(d1, d2) && spec_lt(d2, d3));
    assert(!spec_le(spec_next(d3), d3));
    assert(date_range(spec_next(d3), d3) =~= Seq::empty());
    assert(date_range(d3, d3) =~= seq![d3]);
    assert(date_range(d2, d3) =~= seq![d2, d3]);
    assert(date_range(d1, d3) =~= seq![d1, d2, d3]);
    assert(date_range(from, d3) =~= seq![from, d1, d2, d3]);
}

pub open spec fn spec_digit(c: char) -> bool {
    48 <= c as u32 <= 57
}

pub open spec fn spec_digit_val(c: char) -> int {
    c as u32 - 48
}

/// The date meant by an ISO-8601 `YYYY-MM-DD` text, if it is well formed and
/// names a day on the calendar.
pub open spec fn iso_date_of(s: Seq<char>) -> Option<Date> {
    if s.len() == 10 && spec_digit(s[0]) && spec_digit(s[1]) && spec_digit(s[2]) && spec_digit(
        s[3],
    ) && s[4] == '-' && spec_digit(s[5]) && spec_digit(s[6]) && s[7] == '-' && spec_digit(s[8])
        && spec_digit(s[9]) {
        let y = 1000 * spec_digit_val(s[0]) + 100 * spec_digit_val(s[1]) + 10 * spec_digit_val(
            s[2],
        ) + spec_digit_val(s[3]);
        let m = 10 * spec_digit_val(s[5]) + spec_digit_val(s[6]);
        let d = 10 * spec_digit_val(s[8]) + spec_digit_val(s[9]);
        let date = Date { year: y as i32, month: m as u8, day: d as u8 };
        if date.valid() {
            Some(date)
        } else {
            None
        }
    } else {
        None
    }
}

/// The numeric value of an ASCII digit.
fn digit(c: char) -> (r: Option<u32>)
    ensures
        match r {
            Some(v) => spec_digit(c) && v == spec_digit_val(c),
            None => !spec_digit(c),
        },
{
    let v = c as u32;
    if 48 <= v && v <= 57 {
        Some(v - 48)
    } else {
        None
    }
}

/// Parse an ISO-8601 `YYYY-MM-DD` calendar date.
pub fn parse_iso_date(s: &str) -> (r: Option<Date>)
    ensures
        r == iso_date_of(s@),
{
    if s.unicode_len() != 10 {
        return None;
    }
    if s.get_char(4) != '-' || s.get_char(7) != '-' {
        return None;
    }
    let d0 = match digit(s.get_char(0)) {
        Some(v) => v,
        None => { return None; },
    };
    let d1 = match digit(s.get_char(1)) {
        Some(v) => v,
        None => { return None; },
    };
    let d2 = match digit(s.get_char(2)) {
        Some(v) => v,
        None => { return None; },
    };
    let d3 = match digit(s.get_char(3)) {
        Some(v) => v,
        None => { return None; },
    };
    let d5 = match digit(s.get_char(5)) {
        Some(v) => v,
        None => { return None; },
    };
    let d6 = match digit(s.get_char(6)) {
        Some(v) => v,
        None => { return None; },
    };
    let d8 = match digit(s.get_char(8)) {
        Some(v) => v,
        None => { return None; },
    };
    let d9 = match digit(s.get_char(9)) {
        Some(v) => v,
        None => { return None; },
    };
    let year = 1000 * d0 + 100 * d1 + 10 * d2 + d3;
    let month = 10 * d5 + d6;
    let day = 10 * d8 + d9;
    Date::from_calendar_date(year as i32, month as u8, day as u8)
}

} // verus!
