//! Calendar arithmetic and date parsing.
//!
//! The proleptic Gregorian calendar is specified from first principles
//! (leap years, month lengths, days since the Unix epoch), and the task
//! store's `YYYYMMDDTHHMMSSZ` timestamp format is parsed against it.
//! Conversions that depend on the machine's local time zone, and ISO-8601
//! duration parsing, are delegated to an outside crate behind trusted
//! wrappers.

use crate::strutil::{all_digits, digits_val, is_digit, lemma_digits_val_bound, read_digits};
use chrono::Datelike;
use chrono::TimeZone;
use vstd::prelude::*;

verus! {

/// Whether `y` is a leap year in the proleptic Gregorian calendar.
pub open spec fn is_leap_year(y: int) -> bool {
    (y % 4 == 0 && y % 100 != 0) || y % 400 == 0
}

/// The number of days in year `y`.
pub open spec fn days_in_year(y: int) -> int {
    if is_leap_year(y) {
        366
    } else {
        365
    }
}

/// The number of days in month `m` (1-based) of year `y`.
pub open spec fn days_in_month(y: int, m: int) -> int {
    if m == 2 {
        if is_leap_year(y) {
            29
        } else {
            28
        }
    } else if m == 4 || m == 6 || m == 9 || m == 11 {
        30
    } else {
        31
    }
}

/// Days from the epoch date 1970-01-01 to the start of year `y`
/// (negative for earlier years).
pub open spec fn days_before_year(y: int) -> int
    decreases (if y >= 1970 { y - 1970 } else { 1970 - y }),
{
    if y == 1970 {
        0
    } else if y > 1970 {
        days_before_year(y - 1) + days_in_year(y - 1)
    } else {
        days_before_year(y + 1) - days_in_year(y)
    }
}

/// Days from the start of year `y` to the start of month `m` (1-based).
pub open spec fn days_before_month(y: int, m: int) -> int
    decreases m,
{
    if m <= 1 {
        0
    } else {
        days_before_month(y, m - 1) + days_in_month(y, m - 1)
    }
}

/// The day number of `y-m-d`, counted from the epoch date 1970-01-01.
pub open spec fn days_from_epoch(y: int, m: int, d: int) -> int {
    days_before_year(y) + days_before_month(y, m) + d - 1
}

/// The weekday of `y-m-d`, with Monday as `0` (the epoch date was a
/// Thursday).
pub open spec fn weekday_of(y: int, m: int, d: int) -> int {
    (days_from_epoch(y, m, d) + 3) % 7
}

/// Decides `is_leap_year` for non-negative years.
fn is_leap_year_x(y: u64) -> (r: bool)
    ensures
        r == is_leap_year(y as int),
{
    (y % 4 == 0 && y % 100 != 0) || y % 400 == 0
}

/// Computes `days_in_month` for non-negative years.
fn days_in_month_x(y: u64, m: u64) -> (r: u64)
    ensures
        r == days_in_month(y as int, m as int),
{
    if m == 2 {
        if is_leap_year_x(y) {
            29
        } else {
            28
        }
    } else if m == 4 || m == 6 || m == 9 || m == 11 {
        30
    } else {
        31
    }
}

/// Computes `days_before_year` for years between 0 and 400000.
fn days_before_year_x(y: u64) -> (r: i64)
    requires
        y <= 400_000,
    ensures
        r == days_before_year(y as int),
        -150_000_000 <= r <= 150_000_000,
{
    let mut cur: u64 = 1970;
    let mut acc: i64 = 0;
    if y >= 1970 {
        while cur < y
            invariant
                1970 <= cur <= y <= 400_000,
                acc == days_before_year(cur as int),
                0 <= acc <= 366 * (cur - 1970),
            decreases y - cur,
        {
            if is_leap_year_x(cur) {
                acc = acc + 366;
            } else {
                acc = acc + 365;
            }
            cur = cur + 1;
        }
    } else {
        while cur > y
            invariant
                y <= cur <= 1970,
                acc == days_before_year(cur as int),
                -366 * (1970 - cur) <= acc <= 0,
            decreases cur - y,
        {
            cur = cur - 1;
            if is_leap_year_x(cur) {
                acc = acc - 366;
            } else {
                acc = acc - 365;
            }
        }
    }
    acc
}

/// Computes `days_before_month` for non-negative years and months up to
/// twelve.
fn days_before_month_x(y: u64, m: u64) -> (r: u64)
    requires
        m <= 12,
    ensures
        r == days_before_month(y as int, m as int),
        r <= 372,
{
    let mut cur: u64 = 1;
    let mut acc: u64 = 0;
    while cur < m
        invariant
            1 <= cur,
            cur <= (if m >= 1 { m } else { 1 }),
            m <= 12,
            acc == days_before_month(y as int, cur as int),
            acc <= 31 * (cur - 1),
        decreases m as int - cur as int,
    {
        acc = acc + days_in_month_x(y, cur);
        cur = cur + 1;
    }
    proof {
        if m == 0 {
            assert(days_before_month(y as int, 0) == 0);
            assert(days_before_month(y as int, 1) == 0);
        }
    }
    acc
}

/// Computes `weekday_of` for years between 0 and 400000.
pub(crate) fn weekday_of_x(y: u64, m: u64, d: u64) -> (r: u8)
    requires
        y <= 400_000,
        1 <= m <= 12,
        d <= 31,
    ensures
        r == weekday_of(y as int, m as int, d as int),
        r < 7,
{
    let days = days_before_year_x(y) + days_before_month_x(y, m) as i64 + d as i64 - 1;
    let shifted = days + 3;
    match shifted.checked_rem_euclid(7) {
        Some(r) => {
            proof {
                vstd::arithmetic::div_mod::lemma_mod_division_less_than_divisor(
                    shifted as int,
                    7,
                );
            }
            r as u8
        },
        None => {
            proof {
                assert(false);
            }
            0
        },
    }
}

/// The instant denoted by a task-store timestamp `YYYYMMDDTHHMMSSZ`:
/// exactly sixteen characters, all-digit fields, a valid proleptic
/// Gregorian date and a valid time of day; `None` otherwise. The result
/// counts seconds since the Unix epoch.
pub open spec fn tw_datetime_spec(s: Seq<char>) -> Option<int> {
    if s.len() == 16 && s[8] == 'T' && s[15] == 'Z' && all_digits(s.subrange(0, 4)) && all_digits(
        s.subrange(4, 6),
    ) && all_digits(s.subrange(6, 8)) && all_digits(s.subrange(9, 11)) && all_digits(
        s.subrange(11, 13),
    ) && all_digits(s.subrange(13, 15)) {
        let y = digits_val(s.subrange(0, 4));
        let mo = digits_val(s.subrange(4, 6));
        let d = digits_val(s.subrange(6, 8));
        let h = digits_val(s.subrange(9, 11));
        let mi = digits_val(s.subrange(11, 13));
        let sec = digits_val(s.subrange(13, 15));
        if 1 <= mo <= 12 && 1 <= d <= days_in_month(y, mo) && h <= 23 && mi <= 59 && sec <= 59 {
            Some(days_from_epoch(y, mo, d) * 86400 + h * 3600 + mi * 60 + sec)
        } else {
            None
        }
    } else {
        None
    }
}

/// Parses a task-store timestamp `YYYYMMDDTHHMMSSZ` into seconds since the
/// Unix epoch.
pub fn tw_datetime(s: &str) -> (r: Option<i64>)
    ensures
        r matches Some(t) ==> tw_datetime_spec(s@) == Some(t as int),
        r is None ==> tw_datetime_spec(s@) is None,
{
    let len = s.unicode_len();
    if len != 16 {
        return None;
    }
    if s.get_char(8) != 'T' || s.get_char(15) != 'Z' {
        return None;
    }
    let y = match read_digits(s, 0, 4) {
        Some(v) => v,
        None => {
            return None;
        },
    };
    let mo = match read_digits(s, 4, 6) {
        Some(v) => v,
        None => {
            return None;
        },
    };
    let d = match read_digits(s, 6, 8) {
        Some(v) => v,
        None => {
            return None;
        },
    };
    let h = match read_digits(s, 9, 11) {
        Some(v) => v,
        None => {
            return None;
        },
    };
    let mi = match read_digits(s, 11, 13) {
        Some(v) => v,
        None => {
            return None;
        },
    };
    let sec = match read_digits(s, 13, 15) {
        Some(v) => v,
        None => {
            return None;
        },
    };
    proof {
        lemma_digits_val_bound(s@.subrange(0, 4));
        lemma_digits_val_bound(s@.subrange(4, 6));
        lemma_digits_val_bound(s@.subrange(6, 8));
        lemma_digits_val_bound(s@.subrange(9, 11));
        lemma_digits_val_bound(s@.subrange(11, 13));
        lemma_digits_val_bound(s@.subrange(13, 15));
        crate::strutil::lemma_pow10_le(2, 4);
        assert(crate::strutil::pow10(4) == 10000 && crate::strutil::pow10(2) == 100) by {
            reveal_with_fuel(crate::strutil::pow10, 6);
        }
    }
    if mo < 1 || mo > 12 {
        return None;
    }
    if d < 1 || d > days_in_month_x(y, mo) {
        return None;
    }
    if h > 23 || mi > 59 || sec > 59 {
        return None;
    }
    let days = days_before_year_x(y) + days_before_month_x(y, mo) as i64 + d as i64 - 1;
    Some(days * 86400 + h as i64 * 3600 + mi as i64 * 60 + sec as i64)
}

/// The characters an ISO-8601 duration may use: digits, the decimal
/// separators, and the period and time designators.
pub open spec fn is_iso_duration_char(c: char) -> bool {
    ||| is_digit(c)
    ||| c == '.'
    ||| c == ','
    ||| c == 'P'
    ||| c == 'T'
    ||| c == 'Y'
    ||| c == 'M'
    ||| c == 'W'
    ||| c == 'D'
    ||| c == 'H'
    ||| c == 'S'
}

/// Whether a string is a safe ISO-8601 duration candidate: only duration
/// characters, and no run of nine or more digits. This keeps every numeric
/// component below one hundred million, so the outside crate's conversion
/// to seconds stays far inside its panic-free range.
pub open spec fn iso_input_ok(s: Seq<char>) -> bool {
    &&& forall|i: int| 0 <= i < s.len() ==> is_iso_duration_char(#[trigger] s[i])
    &&& forall|i: int| 0 <= i && i + 9 <= s.len() ==> !all_digits(#[trigger] s.subrange(i, i + 9))
}

/// Decides `iso_input_ok`.
fn iso_input_ok_x(s: &str) -> (r: bool)
    ensures
        r == iso_input_ok(s@),
{
    let len = s.unicode_len();
    let mut i: usize = 0;
    let mut run: usize = 0;
    while i < len
        invariant
            i <= len,
            len == s@.len(),
            run <= 8,
            run <= i,
            forall|j: int| 0 <= j < i ==> is_iso_duration_char(#[trigger] s@[j]),
            forall|j: int| i - run <= j < i ==> is_digit(s@[j]),
            run < i ==> !is_digit(s@[i - run - 1]),
            forall|w: int| 0 <= w && w + 9 <= i ==> !all_digits(#[trigger] s@.subrange(w, w + 9)),
        decreases len - i,
    {
        let c = s.get_char(i);
        let cv = c as u32;
        if cv >= 48 && cv <= 57 {
            if run == 8 {
                proof {
                    let w = i - 8;
                    assert(all_digits(s@.subrange(w, w + 9))) by {
                        assert(forall|j: int|
                            0 <= j < 9 ==> #[trigger] s@.subrange(w, w + 9)[j] == s@[w + j]);
                    }
                    assert(!iso_input_ok(s@));
                }
                return false;
            }
            run = run + 1;
        } else {
            if !(c == '.' || c == ',' || c == 'P' || c == 'T' || c == 'Y' || c == 'M' || c == 'W'
                || c == 'D' || c == 'H' || c == 'S') {
                proof {
                    assert(!is_iso_duration_char(s@[i as int]));
                }
                return false;
            }
            run = 0;
        }
        i = i + 1;
        proof {
            assert forall|w: int| 0 <= w && w + 9 <= i implies !all_digits(
                #[trigger] s@.subrange(w, w + 9),
            ) by {
                if w + 9 == i {
                    if is_digit(s@[i - 1]) {
                        assert(!is_digit(s@[i - 1 - run]));
                        assert(s@.subrange(w, w + 9)[i - 1 - run - w] == s@[i - 1 - run]);
                    } else {
                        assert(s@.subrange(w, w + 9)[8] == s@[i - 1]);
                    }
                }
            }
        }
    }
    true
}

/// What `iso8601_duration::Duration::parse` followed by its `to_chrono`
/// conversion yields for a string: `None` when the string is not an
/// ISO-8601 duration, `Some(None)` when it has year or month components
/// (which have no fixed length in seconds), and otherwise the duration's
/// whole number of seconds.
pub uninterp spec fn iso_duration_seconds(s: Seq<char>) -> Option<Option<i64>>;

/// Relies on `iso8601_duration::Duration::parse` and its `to_chrono`
/// conversion: the result is a function of the string alone. The screen
/// `iso_input_ok` is required because the outside conversion builds a
/// `chrono` duration, which panics when a parsed component is enormous;
/// screened strings keep every component below one hundred million.
#[verifier::external_body]
fn duration_checked(s: &str) -> (r: Option<Option<i64>>)
    requires
        iso_input_ok(s@),
    ensures
        r == iso_duration_seconds(s@),
{
    match iso8601_duration::Duration::parse(s) {
        Ok(d) => match d.to_chrono() {
            Some(cd) => Some(Some(cd.num_seconds())),
            None => Some(None),
        },
        Err(_) => None,
    }
}

/// Parses an ISO-8601 duration: `None` when the string is malformed or
/// outside the safe screen, `Some(None)` for durations with year or month
/// components, and otherwise the whole number of seconds.
pub fn duration(s: &str) -> (r: Option<Option<i64>>)
    ensures
        r == (if iso_input_ok(s@) {
            iso_duration_seconds(s@)
        } else {
            None::<Option<i64>>
        }),
{
    if iso_input_ok_x(s) {
        duration_checked(s)
    } else {
        None
    }
}

/// Relies on chrono's `TimeZone::with_ymd_and_hms` for `Local`/// Relies on chrono's `TimeZone::with_ymd_and_hms` for `Local`: the local
/// instant, as a Unix timestamp, of the given wall-clock time, or `None`
/// when the calendar data is invalid or the local time does not exist
/// uniquely. The result depends on the machine's time zone, so nothing is
/// assumed of it.
#[verifier::external_body]
pub(crate) fn local_instant(y: i32, mo: u32, d: u32, h: u32, mi: u32) -> (r: Option<i64>) {
    match chrono::Local.with_ymd_and_hms(y, mo, d, h, mi, 0).single() {
        Some(t) => Some(t.timestamp()),
        None => None,
    }
}

/// Relies on chrono's `TimeZone::timestamp_opt` for `Local` and the
/// `Datelike` accessors: the local calendar date of a Unix timestamp, or
/// `None` for an out-of-range timestamp. `Datelike` documents months in
/// `1..=12` and days in `1..=31`; beyond that the result depends on the
/// machine's time zone, so nothing more is assumed of it.
#[verifier::external_body]
pub(crate) fn local_ymd(t: i64) -> (r: Option<(i32, u32, u32)>)
    ensures
        r matches Some(ymd) ==> 1 <= ymd.1 <= 12 && 1 <= ymd.2 <= 31,
{
    match chrono::Local.timestamp_opt(t, 0).single() {
        Some(dt) => Some((dt.year(), dt.month(), dt.day())),
        None => None,
    }
}

} // verus!
