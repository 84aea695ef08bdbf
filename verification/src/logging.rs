//! Dates and times of log lines, and which log files are too old to keep.
//!
//! Log files are named `<stem>.<yyyyMMdd>.log` by the UTC date.

use vstd::prelude::*;

use crate::addr::{decimal_text, find_last_char, read_plain_number};
use crate::text::{chars_of, join, string_of};
use crate::addr;

verus! {

/// Whether a year of the Gregorian calendar has 366 days.
pub open spec fn is_leap(y: int) -> bool {
    y % 4 == 0 && (y % 100 != 0 || y % 400 == 0)
}

/// Days of a month.
pub open spec fn month_len(y: int, m: int) -> int {
    if m == 2 {
        if is_leap(y) {
            29
        } else {
            28
        }
    } else if m == 4 || m == 6 || m == 9 || m == 11 {
        30
    } else {
        31
    }
}

/// Whether a date exists.
pub open spec fn valid_date(y: int, m: int, d: int) -> bool {
    1 <= m <= 12 && 1 <= d <= month_len(y, m)
}

/// Days from the first day of the year 1 to the first day of year `y`.
pub open spec fn days_before_year(y: int) -> int {
    365 * (y - 1) + (y - 1) / 4 - (y - 1) / 100 + (y - 1) / 400
}

/// Days of a year before its month `m`.
pub open spec fn days_before_month(y: int, m: int) -> int
    decreases m,
{
    if m <= 1 {
        0
    } else {
        days_before_month(y, m - 1) + month_len(y, m - 1)
    }
}

/// Days from 1970-01-01 to a date.
pub open spec fn day_number(y: int, m: int, d: int) -> int {
    days_before_year(y) + days_before_month(y, m) + d - 1 - 719_162
}

/// Days before the month that lies `mp` months after March, counted from March.
pub open spec fn days_from_march(mp: int) -> int {
    (153 * mp + 2) / 5
}

/// Days from 1970-01-01 to the first of March of year `y`.
pub open spec fn march_first(y: int) -> int {
    365 * y + y / 4 - y / 100 + y / 400 + 60 - 719_528
}

proof fn lemma_months(y: int)
    ensures
        days_before_month(y, 1) == 0,
        days_before_month(y, 2) == 31,
        forall|mp: int|
            0 <= mp <= 9 ==> #[trigger] days_from_march(mp) + 59 + (if is_leap(y) {
                1int
            } else {
                0int
            }) == days_before_month(y, mp + 3),
        days_from_march(10) == 306,
        days_from_march(11) == 337,
        days_from_march(12) == 367,
{
    reveal_with_fuel(days_before_month, 13);
    assert forall|mp: int| 0 <= mp <= 9 implies #[trigger] days_from_march(mp) + 59 + (if is_leap(
        y,
    ) {
        1int
    } else {
        0int
    }) == days_before_month(y, mp + 3) by {
        if mp == 0 {
        } else if mp == 1 {
        } else if mp == 2 {
        } else if mp == 3 {
        } else if mp == 4 {
        } else if mp == 5 {
        } else if mp == 6 {
        } else if mp == 7 {
        } else if mp == 8 {
        } else {
        }
    }
}

proof fn lemma_march(y: int)
    ensures
        march_first(y) == days_before_year(y) + 59 + (if is_leap(y) {
            1int
        } else {
            0int
        }) - 719_162,
        march_first(y) + 306 == days_before_year(y + 1) - 719_162,
{
    assert(y / 4 == (y - 1) / 4 + (if y % 4 == 0 {
        1int
    } else {
        0int
    }));
    assert(y / 100 == (y - 1) / 100 + (if y % 100 == 0 {
        1int
    } else {
        0int
    }));
    assert(y / 400 == (y - 1) / 400 + (if y % 400 == 0 {
        1int
    } else {
        0int
    }));
    lemma_multiples(y);
}

/// A multiple of 400 is one of 100, and a multiple of 100 is one of 4.
proof fn lemma_multiples(y: int)
    ensures
        y % 400 == 0 ==> y % 100 == 0,
        y % 100 == 0 ==> y % 4 == 0,
{
}

proof fn lemma_march_of_era(era: int, yoe: int)
    requires
        0 <= yoe < 400,
    ensures
        march_first(400 * era + yoe) == 146_097 * era + 365 * yoe + yoe / 4 - yoe / 100 + 60
            - 719_528,
{
}

/// The month that holds day `doy` of a year that starts in March.
proof fn lemma_month_of_day(doy: int, mp: int)
    requires
        0 <= doy <= 365,
        mp == (5 * doy + 2) / 153,
    ensures
        0 <= mp <= 11,
        days_from_march(mp) <= doy < days_from_march(mp + 1),
{
}

/// Every date of the years that start in March belongs to one day number.
proof fn lemma_civil(y: int, mp: int, doy: int)
    requires
        0 <= mp <= 11,
        days_from_march(mp) <= doy < days_from_march(mp + 1),
        doy <= 365,
        doy == 365 ==> is_leap(y + 1),
    ensures
        mp < 10 ==> valid_date(y, mp + 3, doy - days_from_march(mp) + 1) && day_number(
            y,
            mp + 3,
            doy - days_from_march(mp) + 1,
        ) == march_first(y) + doy,
        mp >= 10 ==> valid_date(y + 1, mp - 9, doy - days_from_march(mp) + 1) && day_number(
            y + 1,
            mp - 9,
            doy - days_from_march(mp) + 1,
        ) == march_first(y) + doy,
{
    lemma_months(y);
    lemma_months(y + 1);
    lemma_march(y);
    if mp < 10 {
        assert(days_from_march(mp) + 59 + (if is_leap(y) {
            1int
        } else {
            0int
        }) == days_before_month(y, mp + 3));
        if mp == 0 {
        } else if mp == 1 {
        } else if mp == 2 {
        } else if mp == 3 {
        } else if mp == 4 {
        } else if mp == 5 {
        } else if mp == 6 {
        } else if mp == 7 {
        } else if mp == 8 {
        } else {
        }
    } else if mp == 10 {
    } else {
    }
}

proof fn lemma_era_parts(c: int, k: int, n: int)
    requires
        0 <= c <= 3,
        0 <= k <= 24,
        0 <= n <= 3,
    ensures
        (100 * c + 4 * k + n) / 4 == 25 * c + k,
        (100 * c + 4 * k + n) / 100 == c,
        n == 3 && (k < 24 || c == 3) ==> forall|era: int|
            is_leap(#[trigger] (400 * era) + (100 * c + 4 * k + n) + 1),
{
    if n == 3 && (k < 24 || c == 3) {
        assert forall|era: int| is_leap(#[trigger] (400 * era) + (100 * c + 4 * k + n) + 1) by {
            let y = 400 * era + 100 * c + 4 * k + 4;
            assert(y % 4 == 0) by {
                assert(y == 4 * (100 * era + 25 * c + k + 1));
            }
            if k < 24 {
                assert(y == 100 * (4 * era + c) + (4 * k + 4));
                assert(y % 100 == 4 * k + 4);
            } else {
                assert(y == 400 * (era + 1));
            }
        }
    }
}

/// The date that is `z` days after 1970-01-01.
pub fn civil_from_days(z: i64) -> (date: (i64, u32, u32))
    requires
        z <= i64::MAX - 719_468,
    ensures
        valid_date(date.0 as int, date.1 as int, date.2 as int),
        day_number(date.0 as int, date.1 as int, date.2 as int) == z,
{
    let shifted: i64 = z + 719_468;
    let era: i64 = if shifted >= 0 {
        (shifted as u64 / 146_097) as i64
    } else {
        let back: u64 = (-(shifted + 1)) as u64;
        -((back / 146_097) as i64) - 1
    };
    assert(0 <= shifted - era * 146_097 < 146_097);
    let doe: u32 = (shifted - era * 146_097) as u32;
    let c: u32 = if doe / 36_524 > 3 {
        3
    } else {
        doe / 36_524
    };
    let in_century: u32 = doe - 36_524 * c;
    let k: u32 = in_century / 1461;
    let in_cycle: u32 = in_century - 1461 * k;
    let n: u32 = if in_cycle / 365 > 3 {
        3
    } else {
        in_cycle / 365
    };
    let doy: u32 = in_cycle - 365 * n;
    let yoe: u32 = 100 * c + 4 * k + n;
    let mp: u32 = (5 * doy + 2) / 153;
    proof {
        lemma_era_parts(c as int, k as int, n as int);
        lemma_month_of_day(doy as int, mp as int);
        lemma_march_of_era(era as int, yoe as int);
        let y = era * 400 + yoe;
        assert(z == march_first(y) + doy);
        assert(doy == 365 ==> n == 3 && (k < 24 || c == 3));
        assert(doy == 365 ==> is_leap(400 * era + yoe + 1));
        lemma_civil(y, mp as int, doy as int);
    }
    let y: i64 = yoe as i64 + era * 400;
    let d: u32 = doy - (153 * mp + 2) / 5 + 1;
    if mp < 10 {
        (y, mp + 3, d)
    } else {
        (y + 1, mp - 9, d)
    }
}

/// The day number of a year, a month and a day, whether or not they make a
/// date that exists.
pub open spec fn loose_day_number(y: int, m: int, d: int) -> int {
    let (march_year, mp) = if m <= 2 {
        (y - 1, m + 9)
    } else {
        (y, m - 3)
    };
    march_first(march_year) + days_from_march(mp) + d - 1
}

/// Days from 1970-01-01 to a date.
pub fn days_from_civil(y: i64, m: u32, d: u32) -> (days: i64)
    requires
        i64::MIN <= loose_day_number(y as int, m as int, d as int) <= i64::MAX,
    ensures
        days == loose_day_number(y as int, m as int, d as int),
        valid_date(y as int, m as int, d as int) ==> days == day_number(
            y as int,
            m as int,
            d as int,
        ),
{
    let march_year: i128 = if m <= 2 {
        y as i128 - 1
    } else {
        y as i128
    };
    let era: i128 = if march_year >= 0 {
        (march_year as u128 / 400) as i128
    } else {
        let back: u128 = (-(march_year + 1)) as u128;
        -((back / 400) as i128) - 1
    };
    assert(0 <= march_year - era * 400 < 400);
    let yoe: i128 = march_year - era * 400;
    let yoe_part: i128 = (yoe as u128 / 4) as i128 - (yoe as u128 / 100) as i128;
    let mp: u64 = if m > 2 {
        m as u64 - 3
    } else {
        m as u64 + 9
    };
    let month_part: i128 = ((153 * mp + 2) / 5) as i128;
    proof {
        lemma_march_of_era(era as int, yoe as int);
        if valid_date(y as int, m as int, d as int) {
            lemma_date_in_march_year(y as int, m as int, d as int);
        }
    }
    let days: i128 = era * 146_097 + yoe * 365 + yoe_part + month_part + d as i128 - 1 - 719_468;
    days as i64
}

proof fn lemma_date_in_march_year(y: int, m: int, d: int)
    requires
        valid_date(y, m, d),
    ensures
        loose_day_number(y, m, d) == day_number(y, m, d),
{
    lemma_months(y);
    lemma_march(y);
    lemma_march(y - 1);
    if m > 2 {
        assert(days_from_march(m - 3) + 59 + (if is_leap(y) {
            1int
        } else {
            0int
        }) == days_before_month(y, m));
    }
}

/// No two dates have the same day number.
pub proof fn lemma_day_number_injective(y1: int, m1: int, d1: int, y2: int, m2: int, d2: int)
    requires
        valid_date(y1, m1, d1),
        valid_date(y2, m2, d2),
        day_number(y1, m1, d1) == day_number(y2, m2, d2),
    ensures
        y1 == y2 && m1 == m2 && d1 == d2,
{
    lemma_day_in_year(y1, m1, d1);
    lemma_day_in_year(y2, m2, d2);
    if y1 < y2 {
        lemma_years_ordered(y1, y2);
    } else if y2 < y1 {
        lemma_years_ordered(y2, y1);
    } else {
        if m1 < m2 {
            lemma_months_ordered(y1, m1, m2);
        } else if m2 < m1 {
            lemma_months_ordered(y1, m2, m1);
        }
    }
}

proof fn lemma_day_in_year(y: int, m: int, d: int)
    requires
        valid_date(y, m, d),
    ensures
        0 <= days_before_month(y, m) + d - 1 < days_before_year(y + 1) - days_before_year(y),
{
    reveal_with_fuel(days_before_month, 13);
    if m == 1 {
    } else if m == 2 {
    } else if m == 3 {
    } else if m == 4 {
    } else if m == 5 {
    } else if m == 6 {
    } else if m == 7 {
    } else if m == 8 {
    } else if m == 9 {
    } else if m == 10 {
    } else if m == 11 {
    } else {
    }
}

proof fn lemma_years_ordered(a: int, b: int)
    requires
        a < b,
    ensures
        days_before_year(a + 1) <= days_before_year(b),
{
}

proof fn lemma_months_ordered(y: int, a: int, b: int)
    requires
        1 <= a < b,
    ensures
        days_before_month(y, a) + month_len(y, a) <= days_before_month(y, b),
    decreases b,
{
    if a + 1 < b {
        lemma_months_ordered(y, a, b - 1);
    }
}

/// `n` in decimal, with zeros in front up to `width` characters.
pub open spec fn padded(n: nat, width: nat) -> Seq<char> {
    let digits = addr::decimal(n);
    if digits.len() >= width {
        digits
    } else {
        Seq::new((width - digits.len()) as nat, |i: int| '0') + digits
    }
}

fn padded_text(n: u64, width: usize) -> (text: String)
    ensures
        text@ == padded(n as nat, width as nat),
{
    let digits = decimal_text(n);
    let len = chars_of(digits.as_str()).len();
    let mut text = String::new();
    let mut i: usize = len;
    while i < width
        invariant
            len <= i,
            len < width ==> i <= width,
            len >= width ==> i == len,
            text@ == Seq::new((i - len) as nat, |j: int| '0'),
        decreases width - i,
    {
        text.push('0');
        i += 1;
        assert(text@ =~= Seq::new((i - len) as nat, |j: int| '0'));
    }
    text.append(digits.as_str());
    assert(text@ =~= padded(n as nat, width as nat));
    text
}

/// A date as `yyyyMMdd`.
pub open spec fn date_text(y: int, m: int, d: int) -> Seq<char> {
    padded(y as nat, 4) + padded(m as nat, 2) + padded(d as nat, 2)
}

/// The UTC date, as `yyyyMMdd`, of a moment in seconds since 1970.
pub fn utc_date_string(unix_secs: u64) -> (text: String)
    ensures
        exists|y: int, m: int, d: int|
            valid_date(y, m, d) && day_number(y, m, d) == unix_secs / 86_400 && text@
                == #[trigger] date_text(y, m, d),
{
    let days: i64 = (unix_secs / 86_400) as i64;
    let (y, m, d) = civil_from_days(days);
    proof {
        lemma_day_in_year(y as int, m as int, d as int);
        if y < 1970 {
            lemma_years_ordered(y as int, 1970);
        }
    }
    let mut text = padded_text(y as u64, 4);
    text.append(padded_text(m as u64, 2).as_str());
    text.append(padded_text(d as u64, 2).as_str());
    assert(text@ =~= date_text(y as int, m as int, d as int));
    text
}

/// The time of day as `[HH:mm:ss]`.
pub open spec fn time_text(unix_secs: nat) -> Seq<char> {
    let tod = unix_secs % 86_400;
    seq!['['] + padded(tod / 3600, 2) + seq![':'] + padded(tod % 3600 / 60, 2) + seq![':'] + padded(
        tod % 60,
        2,
    ) + seq![']']
}

/// The UTC time of day, as `[HH:mm:ss]`, of a moment in seconds since 1970.
pub fn time_prefix(unix_secs: u64) -> (text: String)
    ensures
        text@ == time_text(unix_secs as nat),
{
    let tod: u64 = unix_secs % 86_400;
    let mut text = String::new();
    text.push('[');
    text.append(padded_text(tod / 3600, 2).as_str());
    text.push(':');
    text.append(padded_text(tod % 3600 / 60, 2).as_str());
    text.push(':');
    text.append(padded_text(tod % 60, 2).as_str());
    text.push(']');
    assert(text@ =~= time_text(unix_secs as nat));
    text
}

/// A moment of the system's clock.
#[verifier::external_type_specification]
#[verifier::external_body]
pub struct ExSystemTime(std::time::SystemTime);

/// `SystemTime::now`. What the clock says is left open.
#[verifier::external_body]
fn system_now() -> (now: std::time::SystemTime) {
    std::time::SystemTime::now()
}

/// `SystemTime::duration_since`, from the beginning of 1970: whole seconds and the
/// nanoseconds of the current one, or nothing if the moment lies before that.
///
/// Believed: the nanoseconds are less than a second. Which moment it is stays open.
#[verifier::external_body]
fn since_epoch(now: &std::time::SystemTime) -> (since: Option<(u64, u32)>)
    ensures
        since matches Some((_, nanos)) ==> nanos < 1_000_000_000,
{
    let since = now.duration_since(std::time::UNIX_EPOCH);
    since.ok().map(|d| (d.as_secs(), d.subsec_nanos()))
}

/// What the clock says: seconds since 1970 and nanoseconds.
fn clock() -> (since: Option<(u64, u32)>)
    ensures
        since matches Some((_, nanos)) ==> nanos < 1_000_000_000,
{
    since_epoch(&system_now())
}

/// The UTC time of day, as `[HH:mm:ss]`.
pub fn utc_time_prefix() -> (text: String)
    ensures
        exists|secs: u64| text@ == #[trigger] time_text(secs as nat),
{
    let secs: u64 = match clock() {
        Some((secs, _)) => secs,
        None => 0,
    };
    time_prefix(secs)
}

/// Milliseconds, out of seconds and nanoseconds, as a signed number; what does
/// not fit is cut off.
pub open spec fn millis(secs: u64, nanos: u32) -> i64 {
    ((secs * 1000 + nanos as int / 1_000_000) as u128) as i64
}

/// Milliseconds, out of seconds and nanoseconds.
pub fn millis_of(secs: u64, nanos: u32) -> (ms: i64)
    ensures
        ms == millis(secs, nanos),
        secs <= 0x10_0000_0000_0000 ==> ms == secs * 1000 + nanos as int
            / 1_000_000,
{
    let ms: u128 = secs as u128 * 1000 + (nanos / 1_000_000) as u128;
    ms as i64
}

/// Milliseconds since 1970 by a clock; zero if it stands before that.
pub open spec fn clock_millis(since: Option<(u64, u32)>) -> i64 {
    match since {
        Some((secs, nanos)) => millis(secs, nanos),
        None => 0,
    }
}

/// Milliseconds since 1970, out of what a clock says.
pub fn clock_ms(since: Option<(u64, u32)>) -> (ms: i64)
    ensures
        ms == clock_millis(since),
{
    match since {
        Some((secs, nanos)) => millis_of(secs, nanos),
        None => 0,
    }
}

/// Milliseconds since 1970. What the clock says is left open.
pub fn unix_ms() -> (ms: i64)
    ensures
        exists|since: Option<(u64, u32)>| (since matches Some((_, nanos)) ==> nanos < 1_000_000_000)
            && ms == #[trigger] clock_millis(since),
{
    clock_ms(clock())
}

/// What follows the stem in the name of the log file of a date.
pub fn log_file_suffix(date: &str) -> (suffix: String)
    ensures
        suffix@ == "."@ + date@ + ".log"@,
{
    join(join(".", date).as_str(), ".log")
}

/// Where the name of a file begins in its path.
pub open spec fn name_start(path: Seq<char>) -> int {
    let slash = addr::last_of(path, '/');
    let backslash = addr::last_of(path, '\\');
    if slash > backslash {
        slash + 1
    } else {
        backslash + 1
    }
}

/// A path without the extension of the file. A name that begins with its only dot
/// has none.
pub open spec fn log_stem(path: Seq<char>) -> Seq<char> {
    let dot = addr::last_of(path, '.');
    if dot > name_start(path) {
        path.take(dot)
    } else {
        path
    }
}

/// The log file of a day: the date goes before the extension.
pub open spec fn day_log(path: Seq<char>, date: Seq<char>) -> Seq<char> {
    log_stem(path) + ("."@ + date + ".log"@)
}

/// What the names of the log files of all days begin with.
pub open spec fn day_log_prefix(path: Seq<char>) -> Seq<char> {
    log_stem(path).skip(name_start(path)) + "."@
}

fn find_name(chars: &[char]) -> (start: usize)
    ensures
        start == name_start(chars@),
        start <= chars@.len(),
{
    let ghost length: usize = chars.len();
    proof {
        lemma_last_of_bound(chars@, '/');
        lemma_last_of_bound(chars@, '\\');
        assert(length == chars@.len());
    }
    match (find_last_char(chars, '/'), find_last_char(chars, '\\')) {
        (Some(a), Some(b)) => if a > b {
            a + 1
        } else {
            b + 1
        },
        (Some(a), None) => a + 1,
        (None, Some(b)) => b + 1,
        (None, None) => 0,
    }
}

/// Where the extension of the file begins in a path, or the end of the path.
fn find_extension(chars: &[char]) -> (end: usize)
    ensures
        name_start(chars@) <= end <= chars@.len(),
        chars@.take(end as int) == log_stem(chars@),
{
    let start = find_name(chars);
    assert(chars@.take(chars@.len() as int) =~= chars@);
    match find_last_char(chars, '.') {
        Some(dot) => if dot > start {
            dot
        } else {
            chars.len()
        },
        None => chars.len(),
    }
}

/// The log file of a day, out of the path that was asked for.
pub fn log_file_for(path: &str, date: &str) -> (file: String)
    ensures
        file@ == day_log(path@, date@),
{
    let chars = chars_of(path);
    let end = find_extension(chars.as_slice());
    let stem = string_of(chars.as_slice(), 0, end);
    assert(stem@ =~= log_stem(path@));
    join(stem.as_str(), log_file_suffix(date).as_str())
}

/// What the names of the log files of all days begin with.
pub fn log_file_prefix(path: &str) -> (prefix: String)
    ensures
        prefix@ == day_log_prefix(path@),
{
    let chars = chars_of(path);
    let start = find_name(chars.as_slice());
    let end = find_extension(chars.as_slice());
    let name = string_of(chars.as_slice(), start, end);
    assert(name@ =~= log_stem(path@).skip(name_start(path@)));
    join(name.as_str(), ".")
}

/// The log file of a day is found again by its name, with the date.
pub proof fn lemma_day_log_is_found(path: Seq<char>, date: Seq<char>)
    requires
        date.len() == 8,
        addr::all_digits(date),
    ensures
        log_name_date(day_log(path, date).skip(name_start(path)), day_log_prefix(path)) == Some(
            addr::digits_value(date),
        ),
{
    reveal_strlit(".");
    reveal_strlit(".log");
    lemma_name_start(path);
    let start = name_start(path);
    let name = day_log(path, date).skip(start);
    let prefix = day_log_prefix(path);
    let p = prefix.len() as int;
    assert(name =~= prefix + date + ".log"@);
    assert(name.take(p) =~= prefix);
    assert(name.skip(p + 8) =~= ".log"@);
    assert(name.subrange(p, p + 8) =~= date);
}

proof fn lemma_name_start(path: Seq<char>)
    ensures
        0 <= name_start(path) <= log_stem(path).len(),
{
    lemma_last_of_bound(path, '/');
    lemma_last_of_bound(path, '\\');
    lemma_last_of_bound(path, '.');
}

proof fn lemma_last_of_bound(s: Seq<char>, c: char)
    ensures
        -1 <= addr::last_of(s, c) < s.len(),
    decreases s.len(),
{
    if s.len() > 0 {
        lemma_last_of_bound(s.drop_last(), c);
    }
}

/// The date in the name of a log file: the eight digits between `prefix` and
/// `.log`, as a number.
pub open spec fn log_name_date(name: Seq<char>, prefix: Seq<char>) -> Option<nat> {
    let tail = ".log"@;
    if name.len() == prefix.len() + 8 + tail.len() && name.take(prefix.len() as int) == prefix
        && name.skip(prefix.len() as int + 8) == tail && addr::all_digits(
        name.subrange(prefix.len() as int, prefix.len() as int + 8),
    ) {
        Some(addr::digits_value(name.subrange(prefix.len() as int, prefix.len() as int + 8)))
    } else {
        None
    }
}

/// Whether a log file is of a date before the day `cutoff_days`.
pub open spec fn log_is_stale(name: Seq<char>, prefix: Seq<char>, cutoff_days: int) -> bool {
    match log_name_date(name, prefix) {
        Some(n) => loose_day_number(n as int / 10_000, n as int / 100 % 100, n as int % 100)
            < cutoff_days,
        None => false,
    }
}

fn matches_at(chars: &[char], at: usize, part: &[char]) -> (matches: bool)
    requires
        at + part@.len() <= chars@.len(),
    ensures
        matches == (chars@.subrange(at as int, at + part@.len()) == part@),
{
    assert(at + part@.len() <= chars.len());
    let mut i: usize = 0;
    while i < part.len()
        invariant
            i <= part@.len(),
            at + part@.len() <= chars@.len(),
            chars@.len() <= usize::MAX,
            forall|j: int| 0 <= j < i ==> chars@[at + j] == part@[j],
        decreases part@.len() - i,
    {
        if chars[at + i] != part[i] {
            assert(chars@.subrange(at as int, at + part@.len())[i as int] != part@[i as int]);
            return false;
        }
        i += 1;
    }
    assert(chars@.subrange(at as int, at + part@.len()) =~= part@);
    true
}

/// Whether the file `name` is a log file (its name starts with `prefix`) that is
/// older than the day `cutoff_days`. Files of other names are never stale.
pub fn log_file_is_stale(name: &str, prefix: &str, cutoff_days: i64) -> (stale: bool)
    ensures
        stale == log_is_stale(name@, prefix@, cutoff_days as int),
{
    let chars = chars_of(name);
    let front = chars_of(prefix);
    let back = chars_of(".log");
    proof {
        reveal_strlit(".log");
    }
    let p = front.len();
    if chars.len() < 12 || chars.len() - 12 != p {
        return false;
    }
    assert(chars@.subrange(0, p as int) =~= chars@.take(p as int));
    assert(chars@.subrange(p + 8, p + 12) =~= chars@.skip(p + 8));
    if !matches_at(chars.as_slice(), 0, front.as_slice()) || !matches_at(
        chars.as_slice(),
        p + 8,
        back.as_slice(),
    ) {
        return false;
    }
    proof {
        lemma_digits_bound(chars@.subrange(p as int, p + 8));
    }
    match read_plain_number(chars.as_slice(), p, p + 8, 99_999_999) {
        Some(n) => {
            let days = days_from_civil((n / 10_000) as i64, n / 100 % 100, n % 100);
            days < cutoff_days
        },
        None => false,
    }
}

proof fn lemma_digits_bound(s: Seq<char>)
    requires
        s.len() == 8,
    ensures
        addr::all_digits(s) ==> addr::digits_value(s) <= 99_999_999,
{
    if addr::all_digits(s) {
        reveal_with_fuel(addr::digits_value, 9);
        let a = s.drop_last();
        let b = a.drop_last();
        let c = b.drop_last();
        let d = c.drop_last();
        let e = d.drop_last();
        let f = e.drop_last();
        let g = f.drop_last();
        let h = g.drop_last();
        assert(h.len() == 0);
        assert(addr::is_digit(s[7]) && addr::is_digit(s[6]) && addr::is_digit(s[5])
            && addr::is_digit(s[4]) && addr::is_digit(s[3]) && addr::is_digit(s[2])
            && addr::is_digit(s[1]) && addr::is_digit(s[0]));
        assert(a.last() == s[6] && b.last() == s[5] && c.last() == s[4] && d.last() == s[3]
            && e.last() == s[2] && f.last() == s[1] && g.last() == s[0]);
    }
}

/// The day before which log files are deleted.
pub fn log_cutoff_days(unix_secs: u64, keep_days: u32) -> (days: i64)
    ensures
        days == unix_secs as int / 86_400 - keep_days,
{
    (unix_secs / 86_400) as i64 - keep_days as i64
}

/// Days and dates are two names of the same thing.
pub proof fn lemma_date_round_trip(z: int, y: int, m: int, d: int)
    requires
        valid_date(y, m, d),
        day_number(y, m, d) == z,
    ensures
        loose_day_number(y, m, d) == z,
{
    lemma_date_in_march_year(y, m, d);
}

/// The Gregorian calendar: a year that four divides has a day more, except a hundredth
/// year that four hundred does not divide.
pub proof fn lemma_length_of_months(y: int)
    ensures
        month_len(y, 1) == 31 && month_len(y, 3) == 31 && month_len(y, 4) == 30 && month_len(y, 5) == 31
            && month_len(y, 6) == 30 && month_len(y, 7) == 31 && month_len(y, 8) == 31 && month_len(y, 9) == 30
            && month_len(y, 10) == 31 && month_len(y, 11) == 30 && month_len(y, 12) == 31,
        y % 4 != 0 ==> month_len(y, 2) == 28,
        y % 4 == 0 && y % 100 != 0 ==> month_len(y, 2) == 29,
        y % 100 == 0 && y % 400 != 0 ==> month_len(y, 2) == 28,
        y % 400 == 0 ==> month_len(y, 2) == 29,
{
}

/// Days are counted from the beginning of 1970, one after the other: within a month,
/// from one month to the next, and from one year to the next.
pub proof fn lemma_days_follow_each_other(y: int, m: int, d: int)
    requires
        valid_date(y, m, d),
    ensures
        day_number(1970, 1, 1) == 0,
        d < month_len(y, m) ==> day_number(y, m, d + 1) == day_number(y, m, d) + 1,
        d == month_len(y, m) && m < 12 ==> day_number(y, m + 1, 1) == day_number(y, m, d) + 1,
        d == month_len(y, m) && m == 12 ==> day_number(y + 1, 1, 1) == day_number(y, m, d) + 1,
{
    reveal_with_fuel(days_before_month, 14);
    if m == 12 && d == 31 {
        lemma_day_in_year(y, 12, 31);
        assert(days_before_year(y + 1) - days_before_year(y) == (if is_leap(y) {
            366int
        } else {
            365int
        }));
    }
}

proof fn lemma_digits_joined(a: Seq<char>, b: Seq<char>)
    requires
        addr::all_digits(a),
        addr::all_digits(b),
        b.len() == 2,
    ensures
        addr::all_digits(a + b),
        addr::digits_value(a + b) == addr::digits_value(a) * 100 + addr::digits_value(b),
{
    let s = a + b;
    assert forall|i: int| 0 <= i < s.len() implies addr::is_digit(#[trigger] s[i]) by {
        if i < a.len() {
            assert(s[i] == a[i]);
        } else {
            assert(s[i] == b[i - a.len()]);
        }
    }
    assert(s.drop_last().drop_last() =~= a);
    assert(s.drop_last().last() == b[0]);
    assert(s.last() == b[1]);
    assert(b.drop_last().drop_last() =~= Seq::empty());
    assert(b.drop_last().last() == b[0]);
    assert(addr::is_digit(b[0]) && addr::is_digit(b[1]));
    assert(addr::digits_value(s) == 10 * addr::digits_value(s.drop_last()) + (b[1] as int - 48) as nat);
    assert(addr::digits_value(s.drop_last()) == 10 * addr::digits_value(a) + (b[0] as int - 48) as nat);
    assert(addr::digits_value(b) == 10 * addr::digits_value(b.drop_last()) + (b[1] as int - 48) as nat);
    assert(addr::digits_value(b.drop_last()) == 10 * addr::digits_value(Seq::empty()) + (b[0] as int - 48) as nat);
}

/// Zeros in front leave a number what it is, and fill it up to its width.
pub proof fn lemma_padding_keeps_the_number(n: nat, width: nat)
    ensures
        addr::all_digits(padded(n, width)),
        addr::digits_value(padded(n, width)) == n,
        padded(n, width).len() >= width,
        n < 100 && width == 2 ==> padded(n, width).len() == 2,
        n < 10_000 && width == 4 ==> padded(n, width).len() == 4,
{
    addr::lemma_decimal_value(n);
    let digits = addr::decimal(n);
    reveal_with_fuel(addr::decimal, 6);
    if digits.len() < width {
        let zeros = Seq::new((width - digits.len()) as nat, |i: int| '0');
        lemma_zeros_in_front(zeros, digits);
    }
}

proof fn lemma_zeros_in_front(zeros: Seq<char>, digits: Seq<char>)
    requires
        forall|i: int| 0 <= i < zeros.len() ==> zeros[i] == '0',
        addr::all_digits(digits),
    ensures
        addr::all_digits(zeros + digits),
        addr::digits_value(zeros + digits) == addr::digits_value(digits),
    decreases digits.len(),
{
    let s = zeros + digits;
    assert forall|i: int| 0 <= i < s.len() implies addr::is_digit(#[trigger] s[i]) by {
        if i < zeros.len() {
            assert(s[i] == zeros[i]);
        } else {
            assert(s[i] == digits[i - zeros.len()]);
        }
    }
    assert(s.drop_last() =~= zeros + digits.drop_last());
    assert(s.last() == digits.last());
    assert(addr::digits_value(s) == 10 * addr::digits_value(s.drop_last()) + (s.last() as int - 48) as nat);
    assert(addr::digits_value(digits) == 10 * addr::digits_value(digits.drop_last()) + (digits.last() as int
        - 48) as nat);
    if digits.len() == 1 {
        assert(s.drop_last() =~= zeros);
        assert(addr::digits_value(Seq::empty()) == 0);
        assert(digits.drop_last() =~= Seq::empty());
        lemma_zeros_are_nothing(zeros);
    } else {
        assert forall|i: int| 0 <= i < digits.drop_last().len() implies addr::is_digit(
            #[trigger] digits.drop_last()[i],
        ) by {
            assert(digits.drop_last()[i] == digits[i]);
        }
        lemma_zeros_in_front(zeros, digits.drop_last());
    }
}

proof fn lemma_zeros_are_nothing(zeros: Seq<char>)
    requires
        forall|i: int| 0 <= i < zeros.len() ==> zeros[i] == '0',
    ensures
        addr::digits_value(zeros) == 0,
    decreases zeros.len(),
{
    if zeros.len() > 0 {
        assert(zeros.last() == '0');
        lemma_zeros_are_nothing(zeros.drop_last());
    }
}

/// A date is written as eight digits: four for the year, two for the month, and two for
/// the day.
pub proof fn lemma_date_is_eight_digits(y: int, m: int, d: int)
    requires
        0 <= y <= 9999,
        valid_date(y, m, d),
    ensures
        date_text(y, m, d).len() == 8,
        addr::all_digits(date_text(y, m, d)),
        addr::digits_value(date_text(y, m, d)) == y * 10_000 + m * 100 + d,
{
    lemma_padding_keeps_the_number(y as nat, 4);
    lemma_padding_keeps_the_number(m as nat, 2);
    lemma_padding_keeps_the_number(d as nat, 2);
    lemma_digits_joined(padded(y as nat, 4), padded(m as nat, 2));
    lemma_digits_joined(padded(y as nat, 4) + padded(m as nat, 2), padded(d as nat, 2));
}

/// The log of a day is too old if and only if the day lies before the first that is kept.
pub proof fn lemma_old_logs_are_told(path: Seq<char>, y: int, m: int, d: int, first_kept: int)
    requires
        0 <= y <= 9999,
        valid_date(y, m, d),
    ensures
        log_is_stale(
            day_log(path, date_text(y, m, d)).skip(name_start(path)),
            day_log_prefix(path),
            first_kept,
        ) <==> day_number(y, m, d) < first_kept,
{
    let date = date_text(y, m, d);
    lemma_date_is_eight_digits(y, m, d);
    lemma_day_log_is_found(path, date);
    lemma_date_in_march_year(y, m, d);
    let name = day_log(path, date).skip(name_start(path));
    lemma_stale_by_its_date(name, day_log_prefix(path), y, m, d, first_kept);
}

proof fn lemma_fields_of_a_date(y: int, m: int, d: int, n: int)
    requires
        n == y * 10_000 + m * 100 + d,
        0 <= y,
        1 <= m <= 12,
        1 <= d <= 31,
    ensures
        n / 10_000 == y,
        n / 100 % 100 == m,
        n % 100 == d,
{
}

proof fn lemma_stale_by_its_date(name: Seq<char>, prefix: Seq<char>, y: int, m: int, d: int, first_kept: int)
    requires
        log_name_date(name, prefix) == Some((y * 10_000 + m * 100 + d) as nat),
        0 <= y,
        1 <= m <= 12,
        1 <= d <= 31,
        loose_day_number(y, m, d) == day_number(y, m, d),
    ensures
        log_is_stale(name, prefix, first_kept) <==> day_number(y, m, d) < first_kept,
{
    lemma_fields_of_a_date(y, m, d, y * 10_000 + m * 100 + d);
}

/// A file that is not named like the log of a day is never too old.
pub proof fn lemma_other_files_are_kept(name: Seq<char>, prefix: Seq<char>, first_kept: int)
    requires
        name.len() != prefix.len() + 12 || name.take(prefix.len() as int) != prefix || name.skip(
            prefix.len() as int + 8,
        ) != ".log"@ || exists|i: int|
            prefix.len() <= i < prefix.len() + 8 && !('0' <= #[trigger] name[i] <= '9'),
    ensures
        !log_is_stale(name, prefix, first_kept),
{
    reveal_strlit(".log");
    if log_name_date(name, prefix) is Some {
        let p = prefix.len() as int;
        let date = name.subrange(p, p + 8);
        assert forall|i: int| p <= i < p + 8 implies '0' <= #[trigger] name[i] <= '9' by {
            assert(addr::is_digit(date[i - p]));
        }
    }
}

/// The time of day is written in brackets as hours, minutes and seconds, two digits each.
pub proof fn lemma_time_of_day(secs: nat, h: nat, m: nat, s: nat)
    requires
        h < 24,
        m < 60,
        s < 60,
        secs % 86_400 == h * 3600 + m * 60 + s,
    ensures
        time_text(secs).len() == 10,
        time_text(secs) == seq!['['] + padded(h, 2) + seq![':'] + padded(m, 2) + seq![':'] + padded(s, 2)
            + seq![']'],
{
    let tod = secs % 86_400;
    assert(tod / 3600 == h && tod % 3600 / 60 == m && tod % 60 == s);
    lemma_padding_keeps_the_number(h, 2);
    lemma_padding_keeps_the_number(m, 2);
    lemma_padding_keeps_the_number(s, 2);
}

/// The name of a file is what follows the last slash of either kind, and its stem is what
/// precedes the last dot in the name. A name that has no dot behind its first character
/// is its own stem.
pub proof fn lemma_stem_of_a_path(dir: Seq<char>, stem: Seq<char>, ext: Seq<char>, date: Seq<char>)
    requires
        dir.len() == 0 || dir.last() == '/' || dir.last() == '\\',
        stem.len() > 0,
        forall|i: int| 0 <= i < stem.len() ==> #[trigger] stem[i] != '/' && stem[i] != '\\',
        forall|i: int| 0 <= i < ext.len() ==> #[trigger] ext[i] != '/' && ext[i] != '\\' && ext[i] != '.',
    ensures
        name_start(dir + stem + seq!['.'] + ext) == dir.len(),
        log_stem(dir + stem + seq!['.'] + ext) == dir + stem,
        day_log(dir + stem + seq!['.'] + ext, date) == dir + stem + "."@ + date + ".log"@,
        day_log_prefix(dir + stem + seq!['.'] + ext) == stem + "."@,
        (forall|i: int| 1 <= i < stem.len() ==> stem[i] != '.') ==> log_stem(dir + stem) == dir + stem,
{
    let p = dir + stem + seq!['.'] + ext;
    let n = dir.len() as int;
    let dot = n + stem.len();
    assert forall|j: int| n <= j < p.len() implies p[j] != '/' && p[j] != '\\' by {
        if j < dot {
            assert(p[j] == stem[j - n]);
        } else if j > dot {
            assert(p[j] == ext[j - dot - 1]);
        }
    }
    assert forall|j: int| dot < j < p.len() implies p[j] != '.' by {
        assert(p[j] == ext[j - dot - 1]);
    }
    assert(p[dot] == '.');
    addr::lemma_last_of(p, '.', dot);
    assert(p.take(n) =~= dir);
    lemma_name_behind(p, n, dir);
    assert(p.take(dot) =~= dir + stem);
    assert((dir + stem).skip(n) =~= stem);
    assert(day_log(p, date) =~= dir + stem + "."@ + date + ".log"@);
    if forall|i: int| 1 <= i < stem.len() ==> stem[i] != '.' {
        let q = dir + stem;
        assert forall|j: int| n <= j < q.len() implies q[j] != '/' && q[j] != '\\' by {
            assert(q[j] == stem[j - n]);
        }
        assert(q.take(n) =~= dir);
        lemma_name_behind(q, n, dir);
        lemma_last_of_bound(q, '.');
        lemma_last_of_is(q, '.');
        let k = addr::last_of(q, '.');
        if k > n {
            assert(q[k] == stem[k - n]);
        }
    }
}

proof fn lemma_last_of_is(s: Seq<char>, c: char)
    ensures
        addr::last_of(s, c) >= 0 ==> s[addr::last_of(s, c)] == c,
        -1 <= addr::last_of(s, c) < s.len(),
    decreases s.len(),
{
    if s.len() > 0 && s.last() != c {
        lemma_last_of_is(s.drop_last(), c);
    }
}

proof fn lemma_name_behind(p: Seq<char>, n: int, dir: Seq<char>)
    requires
        n == dir.len(),
        n <= p.len(),
        p.take(n) == dir,
        dir.len() == 0 || dir.last() == '/' || dir.last() == '\\',
        forall|j: int| n <= j < p.len() ==> p[j] != '/' && p[j] != '\\',
    ensures
        name_start(p) == n,
{
    lemma_last_of_is(p, '/');
    lemma_last_of_is(p, '\\');
    if n > 0 {
        assert(p[n - 1] == dir[n - 1]);
        addr::lemma_last_of(p, dir.last(), n - 1);
    }
}

/// Milliseconds count up with the clock, and a clock before 1970 counts as nothing.
pub proof fn lemma_clock_in_milliseconds(secs: u64, nanos: u32)
    requires
        secs <= 0x10_0000_0000_0000,
        nanos < 1_000_000_000,
    ensures
        clock_millis(Some((secs, nanos))) == secs * 1000 + nanos as int / 1_000_000,
        clock_millis(None) == 0,
{
}

} // verus!
