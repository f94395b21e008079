use vstd::prelude::*;
use vstd::arithmetic::div_mod::lemma_fundamental_div_mod_converse;
use crate::paths::{path_join, spec_join};
use crate::text::{zero_padded, push_char, push_zero_padded, pow10, lemma_decimal_len_bound};

verus! {

// ---------------------------------------------------------------------------
// Gregorian calendar model
// ---------------------------------------------------------------------------

/// Gregorian leap-year rule.
pub open spec fn is_leap_year(y: int) -> bool {
    (y % 4 == 0 && y % 100 != 0) || y % 400 == 0
}

/// Number of leap years among the years `1..=y` (for `y >= 0`).
pub open spec fn leap_years_through(y: int) -> int {
    y / 4 - y / 100 + y / 400
}

/// Length of month `m` (1-based) of year `y`.
pub open spec fn days_in_month(y: int, m: int) -> int {
    if m == 2 {
        if is_leap_year(y) { 29 } else { 28 }
    } else if m == 4 || m == 6 || m == 9 || m == 11 {
        30
    } else {
        31
    }
}

/// Days of year `y` that precede the first day of month `m`.
pub open spec fn days_before_month(y: int, m: int) -> int
    decreases m,
{
    if m <= 1 { 0 } else { days_before_month(y, m - 1) + days_in_month(y, m - 1) }
}

/// Days from 1970-01-01 to the first day of year `y`.
pub open spec fn days_before_year(y: int) -> int {
    365 * (y - 1970) + leap_years_through(y - 1) - leap_years_through(1969)
}

/// Number of days from 1970-01-01 to the date `y-m-d`.
pub open spec fn days_since_epoch(y: int, m: int, d: int) -> int {
    days_before_year(y) + days_before_month(y, m) + d - 1
}

/// `y-m-d` names an existing day of the Gregorian calendar.
pub open spec fn is_valid_date(y: int, m: int, d: int) -> bool {
    &&& 1 <= m <= 12
    &&& 1 <= d <= days_in_month(y, m)
}

/// Days from the start of a 400-year era (a 1st of March) to the 1st of
/// March of year `y` of that era.
spec fn era_year_start(y: int) -> int {
    365 * y + y / 4 - y / 100
}

/// Length of the year that starts on the 1st of March of year `y`.
spec fn march_year_len(y: int) -> int {
    if is_leap_year(y + 1) { 366 } else { 365 }
}

/// Year of era containing day-of-era `doe`, as the conversion computes it.
spec fn year_of_era(doe: int) -> int {
    (doe - doe / 1460 + doe / 36524 - doe / 146096) / 365
}

proof fn lemma_days_before_month_table(y: int)
    ensures
        days_before_month(y, 1) == 0,
        days_before_month(y, 2) == 31,
        days_before_month(y, 3) == 59 + (if is_leap_year(y) { 1int } else { 0int }),
        days_before_month(y, 4) == 90 + (if is_leap_year(y) { 1int } else { 0int }),
        days_before_month(y, 5) == 120 + (if is_leap_year(y) { 1int } else { 0int }),
        days_before_month(y, 6) == 151 + (if is_leap_year(y) { 1int } else { 0int }),
        days_before_month(y, 7) == 181 + (if is_leap_year(y) { 1int } else { 0int }),
        days_before_month(y, 8) == 212 + (if is_leap_year(y) { 1int } else { 0int }),
        days_before_month(y, 9) == 243 + (if is_leap_year(y) { 1int } else { 0int }),
        days_before_month(y, 10) == 273 + (if is_leap_year(y) { 1int } else { 0int }),
        days_before_month(y, 11) == 304 + (if is_leap_year(y) { 1int } else { 0int }),
        days_before_month(y, 12) == 334 + (if is_leap_year(y) { 1int } else { 0int }),
{
    reveal_with_fuel(days_before_month, 13);
}

/// Going from year `y - 1` to year `y` adds one leap year exactly when `y` is one.
proof fn lemma_leap_years_step(y: int)
    requires
        y >= 1,
    ensures
        leap_years_through(y) == leap_years_through(y - 1) + (if is_leap_year(y) { 1int } else { 0int }),
{
    let a4 = (y - 1) / 4;
    let b4 = (y - 1) % 4;
    let a100 = (y - 1) / 100;
    let b100 = (y - 1) % 100;
    let a400 = (y - 1) / 400;
    let b400 = (y - 1) % 400;
    if b4 == 3 {
        lemma_fundamental_div_mod_converse(y, 4, a4 + 1, 0);
    } else {
        lemma_fundamental_div_mod_converse(y, 4, a4, b4 + 1);
    }
    if b100 == 99 {
        lemma_fundamental_div_mod_converse(y, 100, a100 + 1, 0);
    } else {
        lemma_fundamental_div_mod_converse(y, 100, a100, b100 + 1);
    }
    if b400 == 399 {
        lemma_fundamental_div_mod_converse(y, 400, a400 + 1, 0);
    } else {
        lemma_fundamental_div_mod_converse(y, 400, a400, b400 + 1);
    }
}

/// The year-of-era formula finds the March-based year that contains `doe`.
proof fn lemma_year_of_era(doe: int)
    requires
        0 <= doe < 146097,
    ensures
        0 <= year_of_era(doe) < 400,
        era_year_start(year_of_era(doe)) <= doe,
        doe < era_year_start(year_of_era(doe)) + march_year_len(year_of_era(doe)),
{
    // Decompose doe into centuries, 4-year blocks, years and days.
    let c: int = if doe < 36524 { 0 } else if doe < 73048 { 1 } else if doe < 109572 { 2 } else { 3 };
    let e: int = doe - 36524 * c;
    assert(0 <= e <= 36524);
    let q0 = e / 1461;
    let q: int = if q0 > 24 { 24 } else { q0 };
    let h: int = e - 1461 * q;
    assert(0 <= h <= 1460) by {
        lemma_fundamental_div_mod_converse(e, 1461, e / 1461, e % 1461);
    }
    let r: int = if h < 365 { 0 } else if h < 730 { 1 } else if h < 1095 { 2 } else { 3 };
    let k: int = h - 365 * r;
    let y: int = 100 * c + 4 * q + r;
    assert(0 <= k <= 365);
    assert(k == 365 ==> r == 3 && h == 1460);
    assert(e == 36524 ==> c == 3);
    assert(h == 1460 && q == 24 ==> e == 36524);

    // era_year_start(y) in closed form
    lemma_fundamental_div_mod_converse(y, 4, 25 * c + q, r);
    lemma_fundamental_div_mod_converse(y, 100, c, 4 * q + r);
    assert(era_year_start(y) == 36524 * c + 1461 * q + 365 * r);
    assert(doe == era_year_start(y) + k);

    // leap status of the following January/February
    if r == 3 {
        lemma_fundamental_div_mod_converse(y + 1, 4, 25 * c + q + 1, 0);
        if q == 24 {
            lemma_fundamental_div_mod_converse(y + 1, 100, c + 1, 0);
            if c == 3 {
                lemma_fundamental_div_mod_converse(y + 1, 400, 1, 0);
            } else {
                lemma_fundamental_div_mod_converse(y + 1, 400, 0, y + 1);
            }
        } else {
            lemma_fundamental_div_mod_converse(y + 1, 100, c, 4 * q + 4);
        }
        assert(march_year_len(y) == (if q != 24 || c == 3 { 366int } else { 365int }));
    } else {
        lemma_fundamental_div_mod_converse(y + 1, 4, 25 * c + q, r + 1);
        assert(march_year_len(y) == 365);
    }
    assert(k < march_year_len(y));

    // evaluate the year-of-era formula
    let s: int = 24 * c + q + 365 * r + k;
    let es: int = if s >= 1460 { 1 } else { 0 };
    lemma_fundamental_div_mod_converse(doe, 1460, 25 * c + q + es, s - 1460 * es);
    let last: int = if doe == 146096 { 1 } else { 0 };
    if doe == 146096 {
        lemma_fundamental_div_mod_converse(doe, 36524, 4, 0);
        lemma_fundamental_div_mod_converse(doe, 146096, 1, 0);
    } else {
        lemma_fundamental_div_mod_converse(doe, 36524, c, 1461 * q + 365 * r + k);
        lemma_fundamental_div_mod_converse(doe, 146096, 0, doe);
    }
    let n: int = doe - doe / 1460 + doe / 36524 - doe / 146096;
    assert(n == 365 * y + k - es);
    assert(0 <= k - es < 365);
    lemma_fundamental_div_mod_converse(n, 365, y, k - es);
}

/// Splits a count of days since 0000-03-01 into a March-based year and a
/// day of that year, following the era / year-of-era decomposition.
proof fn lemma_march_year_split(z: int, era: int, doe: int, yoe: int, doy: int)
    requires
        z >= 0,
        era == z / 146097,
        doe == z - era * 146097,
        yoe == year_of_era(doe),
        doy == doe - era_year_start(yoe),
    ensures
        0 <= doe < 146097,
        0 <= yoe < 400,
        z == 365 * (yoe + era * 400) + leap_years_through(yoe + era * 400) + doy,
        0 <= doy < march_year_len(yoe + era * 400),
{
    lemma_fundamental_div_mod_converse(z, 146097, era, z % 146097);
    lemma_year_of_era(doe);
    let big_y: int = yoe + era * 400;
    lemma_fundamental_div_mod_converse(big_y, 4, 100 * era + yoe / 4, yoe % 4);
    lemma_fundamental_div_mod_converse(yoe, 4, yoe / 4, yoe % 4);
    lemma_fundamental_div_mod_converse(big_y, 100, 4 * era + yoe / 100, yoe % 100);
    lemma_fundamental_div_mod_converse(yoe, 100, yoe / 100, yoe % 100);
    lemma_fundamental_div_mod_converse(big_y, 400, era, yoe);
    assert(is_leap_year(big_y + 1) == is_leap_year(yoe + 1)) by {
        lemma_fundamental_div_mod_converse(big_y + 1, 4, 100 * era + (yoe + 1) / 4, (yoe + 1) % 4);
        lemma_fundamental_div_mod_converse(yoe + 1, 4, (yoe + 1) / 4, (yoe + 1) % 4);
        lemma_fundamental_div_mod_converse(big_y + 1, 100, 4 * era + (yoe + 1) / 100, (yoe + 1) % 100);
        lemma_fundamental_div_mod_converse(yoe + 1, 100, (yoe + 1) / 100, (yoe + 1) % 100);
        if yoe + 1 == 400 {
            lemma_fundamental_div_mod_converse(big_y + 1, 400, era + 1, 0);
            lemma_fundamental_div_mod_converse(yoe + 1, 400, 1, 0);
        } else {
            lemma_fundamental_div_mod_converse(big_y + 1, 400, era, yoe + 1);
            lemma_fundamental_div_mod_converse(yoe + 1, 400, 0, yoe + 1);
        }
    }
}

/// Turns a March-based year and day of year into the Gregorian date and
/// relates it to the day count since 1970-01-01.
proof fn lemma_month_and_day(z: int, big_y: int, doy: int, mp: int, y: int, m: int, d: int)
    requires
        big_y >= 0,
        z == 365 * big_y + leap_years_through(big_y) + doy,
        0 <= doy < march_year_len(big_y),
        mp == (5 * doy + 2) / 153,
        d == doy - (153 * mp + 2) / 5 + 1,
        m == (if mp < 10 { mp + 3 } else { mp - 9 }),
        y == (if m <= 2 { big_y + 1 } else { big_y }),
    ensures
        is_valid_date(y, m, d),
        days_since_epoch(y, m, d) == z - 719468,
{
    assert(153 * mp <= 5 * doy + 2 < 153 * mp + 153);
    assert(0 <= mp <= 11);
    lemma_days_before_month_table(y);
    if big_y >= 1 {
        lemma_leap_years_step(big_y);
    }
    lemma_leap_years_step(big_y + 1);
    assert(719468 == 365 * 1969 + leap_years_through(1969) + 306);
}

/// The date, from 1970-01-01 on, that lies `days` days after 1970-01-01.
pub open spec fn date_of_day(days: int) -> (int, int, int) {
    choose|t: (int, int, int)| is_date_of_day(t, days)
}

/// `t` is a valid date, from 1970 on, that lies `days` days after 1970-01-01.
pub open spec fn is_date_of_day(t: (int, int, int), days: int) -> bool {
    t.0 >= 1970 && is_valid_date(t.0, t.1, t.2) && days_since_epoch(t.0, t.1, t.2) == days
}

proof fn lemma_year_length(y: int)
    requires
        y >= 1,
    ensures
        days_before_year(y + 1) == days_before_year(y) + 365 + (if is_leap_year(y) { 1int } else { 0int }),
{
    lemma_leap_years_step(y);
}

proof fn lemma_days_before_year_monotone(a: int, b: int)
    requires
        1 <= a <= b,
    ensures
        days_before_year(a) <= days_before_year(b),
        a < b ==> days_before_year(a + 1) <= days_before_year(b),
    decreases b - a,
{
    if a < b {
        lemma_days_before_year_monotone(a, b - 1);
        lemma_year_length(b - 1);
    }
}

/// A valid date of year `y` falls inside year `y`.
proof fn lemma_date_within_year(y: int, m: int, d: int)
    requires
        y >= 1,
        is_valid_date(y, m, d),
    ensures
        days_before_year(y) <= days_since_epoch(y, m, d) < days_before_year(y + 1),
{
    lemma_year_length(y);
    lemma_days_before_month_table(y);
}

/// Two valid dates of the same year with the same day of year are equal.
proof fn lemma_day_of_year_unique(y: int, m1: int, d1: int, m2: int, d2: int)
    requires
        is_valid_date(y, m1, d1),
        is_valid_date(y, m2, d2),
        days_before_month(y, m1) + d1 == days_before_month(y, m2) + d2,
    ensures
        m1 == m2,
        d1 == d2,
{
    lemma_days_before_month_table(y);
}

/// Each count of days since 1970-01-01 names at most one calendar date
/// from 1970 on.
pub proof fn lemma_date_unique(y1: int, m1: int, d1: int, y2: int, m2: int, d2: int)
    requires
        y1 >= 1970,
        y2 >= 1970,
        is_valid_date(y1, m1, d1),
        is_valid_date(y2, m2, d2),
        days_since_epoch(y1, m1, d1) == days_since_epoch(y2, m2, d2),
    ensures
        y1 == y2,
        m1 == m2,
        d1 == d2,
{
    lemma_date_within_year(y1, m1, d1);
    lemma_date_within_year(y2, m2, d2);
    if y1 < y2 {
        lemma_days_before_year_monotone(y1, y2);
    } else if y2 < y1 {
        lemma_days_before_year_monotone(y2, y1);
    }
    lemma_day_of_year_unique(y1, m1, d1, m2, d2);
}

/// A valid date whose day count is `days >= 0` lies in 1970 or later and is
/// the date that `date_of_day` names.
proof fn lemma_date_is_date_of_day(days: int, y: int, m: int, d: int)
    requires
        days >= 0,
        y >= 1,
        is_valid_date(y, m, d),
        days_since_epoch(y, m, d) == days,
    ensures
        y >= 1970,
        (y, m, d) == date_of_day(days),
{
    lemma_date_within_year(y, m, d);
    if y < 1970 {
        lemma_days_before_year_monotone(y, 1969);
        lemma_year_length(1969);
    }
    assert(is_date_of_day((y, m, d), days));
    let t = date_of_day(days);
    lemma_date_unique(t.0, t.1, t.2, y, m, d);
}

/// Converts a count of days since 1970-01-01 into the calendar date
/// `(year, month, day)` of that day.
pub fn epoch_days_to_ymd(days: u64) -> (ymd: (u64, u64, u64))
    requires
        days <= u64::MAX - 719468,
    ensures
        ymd.0 >= 1970,
        is_valid_date(ymd.0 as int, ymd.1 as int, ymd.2 as int),
        days_since_epoch(ymd.0 as int, ymd.1 as int, ymd.2 as int) == days,
        (ymd.0 as int, ymd.1 as int, ymd.2 as int) == date_of_day(days as int),
{
    let z = days + 719468;
    let era = z / 146097;
    proof {
        lemma_fundamental_div_mod_converse(z as int, 146097, era as int, (z % 146097) as int);
    }
    let doe = z - era * 146097;
    proof {
        lemma_year_of_era(doe as int);
    }
    let yoe = (doe - doe / 1460 + doe / 36524 - doe / 146096) / 365;
    let y = yoe + era * 400;
    let doy = doe - (365 * yoe + yoe / 4 - yoe / 100);
    proof {
        lemma_march_year_split(z as int, era as int, doe as int, yoe as int, doy as int);
    }
    let mp = (5 * doy + 2) / 153;
    let d = doy - (153 * mp + 2) / 5 + 1;
    let m = if mp < 10 { mp + 3 } else { mp - 9 };
    let y = if m <= 2 { y + 1 } else { y };
    proof {
        lemma_month_and_day(z as int, yoe + era * 400, doy as int, mp as int, y as int, m as int, d as int);
        lemma_date_is_date_of_day(days as int, y as int, m as int, d as int);
    }
    (y, m, d)
}

// ---------------------------------------------------------------------------
// Timestamps
// ---------------------------------------------------------------------------

/// The text `YYYY-MM-DD hh:mm:ss` (UTC) for `secs` seconds after the Unix
/// epoch; each field is zero-padded to its width and the year to four digits.
pub open spec fn timestamp_text(secs: nat) -> Seq<char> {
    let date = date_of_day((secs / 86400) as int);
    zero_padded(date.0 as nat, 4) + seq!['-'] + zero_padded(date.1 as nat, 2) + seq!['-']
        + zero_padded(date.2 as nat, 2) + seq![' '] + zero_padded((secs / 3600) % 24, 2)
        + seq![':'] + zero_padded((secs / 60) % 60, 2) + seq![':'] + zero_padded(secs % 60, 2)
}

proof fn lemma_zero_padded_len(n: nat, width: nat)
    requires
        1 <= width <= 4,
        n < pow10(width),
    ensures
        zero_padded(n, width).len() == width,
{
    lemma_decimal_len_bound(n, width);
}

/// Formats `secs` seconds after the Unix epoch as `YYYY-MM-DD hh:mm:ss`.
pub fn format_timestamp(secs: u64) -> (s: String)
    ensures
        s@ == timestamp_text(secs as nat),
        date_of_day((secs / 86400) as int).0 <= 9999 ==> s@.len() == 19,
{
    let seconds = secs % 60;
    let minutes = (secs / 60) % 60;
    let hours = (secs / 3600) % 24;
    let days_since_epoch = secs / 86400;
    let (year, month, day) = epoch_days_to_ymd(days_since_epoch);
    let mut s = String::new();
    push_zero_padded(&mut s, year, 4);
    push_char(&mut s, '-');
    push_zero_padded(&mut s, month, 2);
    push_char(&mut s, '-');
    push_zero_padded(&mut s, day, 2);
    push_char(&mut s, ' ');
    push_zero_padded(&mut s, hours, 2);
    push_char(&mut s, ':');
    push_zero_padded(&mut s, minutes, 2);
    push_char(&mut s, ':');
    push_zero_padded(&mut s, seconds, 2);
    proof {
        assert(s@ =~= timestamp_text(secs as nat));
        if year <= 9999 {
            reveal_with_fuel(pow10, 5);
            lemma_zero_padded_len(year as nat, 4);
            lemma_zero_padded_len(month as nat, 2);
            lemma_zero_padded_len(day as nat, 2);
            lemma_zero_padded_len(hours as nat, 2);
            lemma_zero_padded_len(minutes as nat, 2);
            lemma_zero_padded_len(seconds as nat, 2);
        }
    }
    s
}

/// Seconds elapsed since the Unix epoch according to the system clock.
///
/// Trusted wrapper around `SystemTime::elapsed` on `UNIX_EPOCH`, in whole
/// seconds (a clock set before the epoch reads as 0). Nothing is stated of
/// the value: it is the time of the call.
#[verifier::external_body]
fn unix_time_secs() -> u64 {
    match std::time::UNIX_EPOCH.elapsed() {
        Ok(d) => d.as_secs(),
        Err(_) => 0,
    }
}

/// The current UTC time as `YYYY-MM-DD hh:mm:ss`.
pub fn current_timestamp() -> (s: String)
    ensures
        exists|secs: u64| s@ == timestamp_text(secs as nat),
{
    let secs = unix_time_secs();
    format_timestamp(secs)
}

// ---------------------------------------------------------------------------
// ANSI escape removal
// ---------------------------------------------------------------------------

/// The escape character that opens an ANSI control sequence.
pub open spec fn is_escape(c: char) -> bool {
    c == '\x1b'
}

/// Characters that close an ANSI control sequence.
pub open spec fn ends_escape(c: char) -> bool {
    c == 'm' || c == 'K' || c == 'H' || c == 'J'
}

/// One character of input applied to (kept text, inside an escape sequence).
pub open spec fn strip_step(state: (Seq<char>, bool), c: char) -> (Seq<char>, bool) {
    if is_escape(c) {
        (state.0, true)
    } else if state.1 {
        (state.0, !ends_escape(c))
    } else {
        (state.0.push(c), false)
    }
}

/// The state after reading all of `s` from the start of a plain text.
pub open spec fn strip_run(s: Seq<char>) -> (Seq<char>, bool)
    decreases s.len(),
{
    if s.len() == 0 {
        (Seq::empty(), false)
    } else {
        strip_step(strip_run(s.drop_last()), s.last())
    }
}

/// `s` with every ANSI escape sequence (ESC up to and including the next
/// `m`, `K`, `H` or `J`) removed.
pub open spec fn ansi_stripped(s: Seq<char>) -> Seq<char> {
    strip_run(s).0
}

/// Removes ANSI escape sequences (colour codes and the like) from `input`.
pub fn strip_ansi(input: &str) -> (out: String)
    ensures
        out@ == ansi_stripped(input@),
{
    let mut out = String::new();
    let mut in_escape = false;
    let n = input.unicode_len();
    let mut i: usize = 0;
    while i < n
        invariant
            n == input@.len(),
            0 <= i <= n,
            (out@, in_escape) == strip_run(input@.take(i as int)),
        decreases n - i,
    {
        let c = input.get_char(i);
        proof {
            assert(input@.take(i + 1).drop_last() =~= input@.take(i as int));
        }
        if c == '\x1b' {
            in_escape = true;
        } else if in_escape {
            if c == 'm' || c == 'K' || c == 'H' || c == 'J' {
                in_escape = false;
            }
        } else {
            push_char(&mut out, c);
        }
        i = i + 1;
    }
    proof {
        assert(input@.take(n as int) =~= input@);
    }
    out
}

/// Text left after removing escape sequences holds no escape character.
pub proof fn lemma_stripped_has_no_escape(s: Seq<char>)
    ensures
        forall|i: int| 0 <= i < ansi_stripped(s).len() ==> !is_escape(#[trigger] ansi_stripped(s)[i]),
    decreases s.len(),
{
    if s.len() > 0 {
        let prev = ansi_stripped(s.drop_last());
        lemma_stripped_has_no_escape(s.drop_last());
        assert forall|i: int| 0 <= i < ansi_stripped(s).len() implies !is_escape(#[trigger] ansi_stripped(s)[i]) by {
            if i < prev.len() {
                assert(ansi_stripped(s)[i] == prev[i]);
            }
        }
    }
}

/// Removing escape sequences leaves a text without escape characters unchanged.
pub proof fn lemma_strip_plain_text(s: Seq<char>)
    requires
        forall|i: int| 0 <= i < s.len() ==> !is_escape(#[trigger] s[i]),
    ensures
        strip_run(s) == (s, false),
        ansi_stripped(s) == s,
    decreases s.len(),
{
    if s.len() > 0 {
        let t = s.drop_last();
        assert forall|i: int| 0 <= i < t.len() implies !is_escape(#[trigger] t[i]) by {
            assert(t[i] == s[i]);
        }
        lemma_strip_plain_text(t);
        assert(t.push(s.last()) =~= s);
    }
}

/// Removing escape sequences twice gives the same text as removing them once.
pub proof fn lemma_strip_ansi_idempotent(s: Seq<char>)
    ensures
        ansi_stripped(ansi_stripped(s)) == ansi_stripped(s),
{
    lemma_stripped_has_no_escape(s);
    lemma_strip_plain_text(ansi_stripped(s));
}

// ---------------------------------------------------------------------------
// Log lines
// ---------------------------------------------------------------------------

/// The log-file line for `msg` written at `timestamp`:
/// `[timestamp] msg` with escape sequences removed, ending in a newline.
pub open spec fn log_line(timestamp: Seq<char>, msg: Seq<char>) -> Seq<char> {
    seq!['['] + timestamp + seq![']', ' '] + ansi_stripped(msg) + seq!['\n']
}

/// Builds the log-file line for `msg` written at `timestamp`.
pub fn format_log_line(timestamp: &str, msg: &str) -> (line: String)
    ensures
        line@ == log_line(timestamp@, msg@),
{
    let mut line = String::new();
    push_char(&mut line, '[');
    line.append(timestamp);
    push_char(&mut line, ']');
    push_char(&mut line, ' ');
    let plain = strip_ansi(msg);
    line.append(plain.as_str());
    push_char(&mut line, '\n');
    proof {
        assert(line@ =~= log_line(timestamp@, msg@));
    }
    line
}

// ---------------------------------------------------------------------------
// Log file location
// ---------------------------------------------------------------------------

/// The log file: the one asked for, else `~/.audio-fixer/audio-fixer.log`
/// under the home directory, else `/tmp/audio-fixer.log`.
pub open spec fn log_file_location(custom: Option<Seq<char>>, home: Option<Seq<char>>) -> Seq<char> {
    match custom {
        Some(p) => p,
        None => match home {
            Some(h) => spec_join(spec_join(h, ".audio-fixer"@), "audio-fixer.log"@),
            None => spec_join("/tmp"@, "audio-fixer.log"@),
        },
    }
}

/// Chooses the log file from the requested path and the home directory.
pub fn log_file_path(custom: Option<String>, home: Option<String>) -> (path: String)
    ensures
        path@ == log_file_location(
            match custom {
                Some(c) => Some(c@),
                None => None,
            },
            match home {
                Some(h) => Some(h@),
                None => None,
            },
        ),
{
    match custom {
        Some(p) => p,
        None => match home {
            Some(h) => {
                let dir = path_join(h.as_str(), ".audio-fixer");
                path_join(dir.as_str(), "audio-fixer.log")
            },
            None => path_join("/tmp", "audio-fixer.log"),
        },
    }
}

} // verus!
