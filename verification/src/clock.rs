//! Wall-clock times as the transcript files show them. The conversion from a
//! UNIX timestamp to the machine's local calendar time is chrono's; the
//! textual layouts (`%Y-%m-%d %H%M`, `%-I:%M %p`, ...) are built here.
use vstd::prelude::*;
use chrono::{Datelike, Timelike};
use crate::text::{decimal, decimal_exec, extend_chars, zero_pad, zero_pad_exec};

verus! {

/// A local calendar time, to the minute.
pub struct LocalTime {
    pub year: i32,
    pub month: u32,
    pub day: u32,
    pub hour: u32,
    pub minute: u32,
}

impl LocalTime {
    pub open spec fn wf(&self) -> bool {
        &&& -262144 <= self.year <= 262143
        &&& 1 <= self.month <= 12
        &&& 1 <= self.day <= 31
        &&& self.hour < 24
        &&& self.minute < 60
    }
}

/// Milliseconds since the UNIX epoch below which chrono can represent the
/// instant in every time zone (a day short of its last supported year).
pub const MAX_LOCAL_MS: u64 = 8210266790400000;

/// Leap year of the proleptic Gregorian calendar.
pub open spec fn is_leap(y: int) -> bool {
    y % 4 == 0 && (y % 100 != 0 || y % 400 == 0)
}

pub open spec fn days_in_month(y: int, m: int) -> int {
    if m == 2 {
        if is_leap(y) {
            29int
        } else {
            28
        }
    } else if m == 4 || m == 6 || m == 9 || m == 11 {
        30
    } else {
        31
    }
}

/// Leap years before year `y`, counted from a fixed origin (only
/// differences matter).
pub open spec fn leaps_before(y: int) -> int {
    (y - 1) / 4 - (y - 1) / 100 + (y - 1) / 400
}

/// Days in the months of a year before month `m`.
pub open spec fn days_before_month(y: int, m: int) -> int {
    (if m == 1 {
        0int
    } else if m == 2 {
        31
    } else if m == 3 {
        59
    } else if m == 4 {
        90
    } else if m == 5 {
        120
    } else if m == 6 {
        151
    } else if m == 7 {
        181
    } else if m == 8 {
        212
    } else if m == 9 {
        243
    } else if m == 10 {
        273
    } else if m == 11 {
        304
    } else {
        334
    }) + if m > 2 && is_leap(y) {
        1int
    } else {
        0int
    }
}

/// Days from 1970-01-01 to the date `y-m-d` (negative before it).
pub open spec fn civil_day(y: int, m: int, d: int) -> int {
    365 * (y - 1970) + leaps_before(y) - leaps_before(1970) + days_before_month(y, m) + d - 1
}

/// Seconds from 1970-01-01 00:00 to the start of the minute `t`, both read
/// on the same clock.
pub open spec fn minute_start(t: LocalTime) -> int {
    civil_day(t.year as int, t.month as int, t.day as int) * 86400 + t.hour * 3600 + t.minute * 60
}

/// `t` is a real calendar minute, and the one that holds the instant `s`
/// seconds after 1970-01-01 00:00 on `t`'s clock.
pub open spec fn is_minute_of(t: LocalTime, s: int) -> bool {
    &&& t.wf()
    &&& t.day <= days_in_month(t.year as int, t.month as int)
    &&& minute_start(t) <= s < minute_start(t) + 60
}

/// `t` is the local minute of the instant `ms` milliseconds after the UNIX
/// epoch, on a clock `off` seconds ahead of UTC (less than a day either way).
pub open spec fn local_at(t: LocalTime, ms: int, off: int) -> bool {
    &&& -86400 < off < 86400
    &&& is_minute_of(t, ms / 1000 + off)
}

/// `t` is the minute that holds the instant `ms` in some time zone.
pub open spec fn local_time_of(t: LocalTime, ms: int) -> bool {
    exists|off: int| #[trigger] local_at(t, ms, off)
}

/// Local calendar time of `ms` milliseconds after the UNIX epoch, in the
/// machine's time zone, through chrono's `DateTime::<Utc>::from_timestamp_millis`
/// and `with_timezone(&Local)`. The contract says what holds in every time
/// zone: the result is the minute that holds the instant on a clock less
/// than a day ahead of or behind UTC (chrono's offsets are whole seconds
/// within that range). Which offset applies is the machine's zone data
/// (UTC when chrono cannot read it), so the contract does not name it.
#[verifier::external_body]
pub fn local_time_at(ms: u64) -> (t: LocalTime)
    requires
        ms < MAX_LOCAL_MS,
    ensures
        local_time_of(t, ms as int),
{
    let utc = chrono::DateTime::<chrono::Utc>::from_timestamp_millis(ms as i64).unwrap();
    let dt = utc.with_timezone(&chrono::Local);
    LocalTime { year: dt.year(), month: dt.month(), day: dt.day(), hour: dt.hour(), minute: dt.minute() }
}

/// A local time is a valid calendar time.
pub proof fn lemma_local_time_wf(t: LocalTime, ms: int)
    requires
        local_time_of(t, ms),
    ensures
        t.wf(),
{
    let off = choose|off: int| #[trigger] local_at(t, ms, off);
}

/// `%Y`: four digits for years 0..=9999, otherwise a sign and at least four
/// digits.
pub open spec fn year_text(y: int) -> Seq<char> {
    if 0 <= y <= 9999 {
        zero_pad(y as nat, 4)
    } else if y < 0 {
        seq!['-'] + zero_pad((-y) as nat, 4)
    } else {
        seq!['+'] + zero_pad(y as nat, 4)
    }
}

/// `%Y-%m-%d`
pub open spec fn date_text(t: LocalTime) -> Seq<char> {
    year_text(t.year as int) + seq!['-'] + zero_pad(t.month as nat, 2) + seq!['-'] + zero_pad(
        t.day as nat,
        2,
    )
}

/// `%Y-%m-%d %H%M`
pub open spec fn date_hm_text(t: LocalTime) -> Seq<char> {
    date_text(t) + seq![' '] + zero_pad(t.hour as nat, 2) + zero_pad(t.minute as nat, 2)
}

/// The hour on a 12-hour clock (1..=12).
pub open spec fn hour12(h: int) -> int {
    if h % 12 == 0 {
        12
    } else {
        h % 12
    }
}

/// `%-I:%M %p`
pub open spec fn clock_text(t: LocalTime) -> Seq<char> {
    decimal(hour12(t.hour as int) as nat) + seq![':'] + zero_pad(t.minute as nat, 2) + seq![' ']
        + if t.hour < 12 {
        seq!['A', 'M']
    } else {
        seq!['P', 'M']
    }
}

/// `%Y-%m-%d %-I:%M %p`
pub open spec fn date_clock_text(t: LocalTime) -> Seq<char> {
    date_text(t) + seq![' '] + clock_text(t)
}

pub fn year_chars(y: i32) -> (r: Vec<char>)
    ensures
        r@ == year_text(y as int),
{
    if 0 <= y && y <= 9999 {
        zero_pad_exec(y as u64, 4)
    } else if y < 0 {
        let m: u64 = if y == i32::MIN {
            2147483648u64
        } else {
            (-y) as u64
        };
        let mut r = vec!['-'];
        let d = zero_pad_exec(m, 4);
        extend_chars(&mut r, &d);
        r
    } else {
        let mut r = vec!['+'];
        let d = zero_pad_exec(y as u64, 4);
        extend_chars(&mut r, &d);
        r
    }
}

pub fn date_chars(t: &LocalTime) -> (r: Vec<char>)
    ensures
        r@ == date_text(*t),
{
    let mut r = year_chars(t.year);
    r.push('-');
    extend_chars(&mut r, &zero_pad_exec(t.month as u64, 2));
    r.push('-');
    extend_chars(&mut r, &zero_pad_exec(t.day as u64, 2));
    assert(r@ =~= date_text(*t));
    r
}

pub fn date_hm_chars(t: &LocalTime) -> (r: Vec<char>)
    ensures
        r@ == date_hm_text(*t),
{
    let mut r = date_chars(t);
    r.push(' ');
    extend_chars(&mut r, &zero_pad_exec(t.hour as u64, 2));
    extend_chars(&mut r, &zero_pad_exec(t.minute as u64, 2));
    assert(r@ =~= date_hm_text(*t));
    r
}

pub fn clock_chars(t: &LocalTime) -> (r: Vec<char>)
    ensures
        r@ == clock_text(*t),
{
    let h = t.hour % 12;
    let h12: u64 = if h == 0 {
        12
    } else {
        h as u64
    };
    let mut r = decimal_exec(h12);
    r.push(':');
    extend_chars(&mut r, &zero_pad_exec(t.minute as u64, 2));
    r.push(' ');
    if t.hour < 12 {
        r.push('A');
    } else {
        r.push('P');
    }
    r.push('M');
    assert(r@ =~= clock_text(*t));
    r
}

pub fn date_clock_chars(t: &LocalTime) -> (r: Vec<char>)
    ensures
        r@ == date_clock_text(*t),
{
    let mut r = date_chars(t);
    r.push(' ');
    extend_chars(&mut r, &clock_chars(t));
    assert(r@ =~= date_clock_text(*t));
    r
}

} // verus!
