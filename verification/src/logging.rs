//! The lines of the log: when, how grave, and what.

use std::time::{Duration, UNIX_EPOCH};

use vstd::prelude::*;

use crate::text;

verus! {

// ---- when ----

/// The first second that has no timestamp: the year 10000 begins with it.
pub const END_OF_TIME: u64 = 253_402_300_800;

/// The year has a 29th of February.
pub open spec fn leap(y: int) -> bool {
    y % 4 == 0 && (y % 100 != 0 || y % 400 == 0)
}

/// How many of the years 1 to `y` are leap years.
pub open spec fn leaps(y: int) -> int {
    y / 4 - y / 100 + y / 400
}

/// The days between 1 January 1970 and 1 January of the year `y`.
pub open spec fn year_start(y: int) -> int {
    365 * (y - 1970) + leaps(y - 1) - leaps(1969)
}

/// The days of a year before its month `m`; month 13 stands for its end.
pub open spec fn month_start(y: int, m: int) -> int {
    let common = if m <= 1 {
        0
    } else if m == 2 {
        31
    } else if m == 3 {
        59
    } else if m == 4 {
        90
    } else if m == 5 {
        120
    } else if m == 6 {
        151
    } else if m == 7 {
        181
    } else if m == 8 {
        212
    } else if m == 9 {
        243
    } else if m == 10 {
        273
    } else if m == 11 {
        304
    } else if m == 12 {
        334
    } else {
        365int
    };
    if m >= 3 && leap(y) {
        common + 1
    } else {
        common
    }
}

/// A date of the Gregorian calendar, from 1970 to 9999.
pub open spec fn valid_date(y: int, m: int, d: int) -> bool {
    1970 <= y <= 9999 && 1 <= m <= 12 && 1 <= d <= month_start(y, m + 1) - month_start(y, m)
}

/// The days between 1 January 1970 and a date.
pub open spec fn day_number(y: int, m: int, d: int) -> int {
    year_start(y) + month_start(y, m) + d - 1
}

/// The date that many days after 1 January 1970.
pub open spec fn date_of(days: int) -> (int, int, int) {
    choose|y: int, m: int, d: int| valid_date(y, m, d) && #[trigger] day_number(y, m, d) == days
}

/// A number in two digits.
pub open spec fn two(n: int) -> Seq<char> {
    seq![text::digit(n / 10), text::digit(n % 10)]
}

/// A date and a second of its day in RFC 3339 form, in UTC.
pub open spec fn rfc3339(date: (int, int, int), second: int) -> Seq<char> {
    two(date.0 / 100) + two(date.0 % 100) + "-"@ + two(date.1) + "-"@ + two(date.2) + "T"@ + two(
        second / 3600,
    ) + ":"@ + two(second / 60 % 60) + ":"@ + two(second % 60) + "Z"@
}

/// The moment that many seconds after the epoch, in RFC 3339 form.
pub open spec fn timestamp_of(secs: nat) -> Seq<char> {
    rfc3339(date_of(secs as int / 86400), secs as int % 86400)
}

/// `humantime::format_rfc3339_seconds` of that many seconds after the epoch:
/// the UTC date and time of day, to the second. It has no text for the year
/// 10000 and later.
#[verifier::external_body]
fn timestamp(secs: u64) -> (r: String)
    requires
        secs < END_OF_TIME,
    ensures
        r@ == timestamp_of(secs as nat),
{
    humantime::format_rfc3339_seconds(UNIX_EPOCH + Duration::from_secs(secs)).to_string()
}

/// A year is as long as its months.
proof fn lemma_year_length(y: int)
    requires
        1970 <= y <= 9999,
    ensures
        year_start(y + 1) == year_start(y) + month_start(y, 13),
{
}

/// Years follow each other.
proof fn lemma_years_grow(a: int, b: int)
    requires
        1970 <= a < b <= 10000,
    ensures
        year_start(a) + month_start(a, 13) <= year_start(b),
    decreases b - a,
{
    lemma_year_length(a);
    if a + 1 < b {
        lemma_years_grow(a + 1, b);
    }
}

/// Months follow each other.
proof fn lemma_months_grow(y: int, a: int, b: int)
    requires
        1 <= a < b <= 13,
    ensures
        month_start(y, a + 1) <= month_start(y, b),
{
}

/// No two dates are the same number of days away.
proof fn lemma_day_number_unique(y: int, m: int, d: int, y2: int, m2: int, d2: int)
    requires
        valid_date(y, m, d),
        valid_date(y2, m2, d2),
        day_number(y, m, d) == day_number(y2, m2, d2),
    ensures
        y == y2 && m == m2 && d == d2,
{
    if y < y2 {
        lemma_years_grow(y, y2);
        lemma_months_grow(y, m, 13);
        assert(month_start(y, m) + d - 1 < month_start(y, 13));
        assert(month_start(y2, m2) >= 0);
    } else if y2 < y {
        lemma_years_grow(y2, y);
        lemma_months_grow(y2, m2, 13);
        assert(month_start(y2, m2) + d2 - 1 < month_start(y2, 13));
        assert(month_start(y, m) >= 0);
    } else if m < m2 {
        lemma_months_grow(y, m, m2);
    } else if m2 < m {
        lemma_months_grow(y, m2, m);
    }
}

/// The year that a day falls in.
proof fn lemma_year_of(days: int, y: int) -> (r: int)
    requires
        1970 <= y <= 9999,
        year_start(y) <= days < year_start(10000),
    ensures
        y <= r <= 9999,
        year_start(r) <= days < year_start(r + 1),
    decreases 9999 - y,
{
    if days < year_start(y + 1) {
        y
    } else {
        lemma_year_of(days, y + 1)
    }
}

/// The month that a day of a year falls in.
proof fn lemma_month_of(y: int, day: int, m: int) -> (r: int)
    requires
        1 <= m <= 12,
        month_start(y, m) <= day < month_start(y, 13),
    ensures
        m <= r <= 12,
        month_start(y, r) <= day < month_start(y, r + 1),
    decreases 12 - m,
{
    if day < month_start(y, m + 1) {
        m
    } else {
        lemma_month_of(y, day, m + 1)
    }
}

/// Every second before the end of time falls on a date.
pub proof fn law_every_second_dated(secs: nat)
    requires
        secs < END_OF_TIME,
    ensures
        ({
            let (y, m, d) = date_of(secs as int / 86400);
            valid_date(y, m, d) && day_number(y, m, d) == secs as int / 86400
        }),
{
    let days = secs as int / 86400;
    assert(year_start(1970) == 0);
    assert(year_start(10000) == 2_932_897);
    assert(days < 2_932_897);
    let y = lemma_year_of(days, 1970);
    lemma_year_length(y);
    let m = lemma_month_of(y, days - year_start(y), 1);
    let d = days - year_start(y) - month_start(y, m) + 1;
    assert(valid_date(y, m, d) && day_number(y, m, d) == days);
}

/// Every date from 1970 on is told by its own digits, whatever the time of
/// day.
pub proof fn law_timestamp(y: int, m: int, d: int, second: nat)
    requires
        valid_date(y, m, d),
        second < 86400,
    ensures
        timestamp_of((day_number(y, m, d) * 86400 + second) as nat) == rfc3339(
            (y, m, d),
            second as int,
        ),
{
    let days = day_number(y, m, d);
    if y > 1970 {
        lemma_years_grow(1970, y);
    }
    assert(year_start(y) >= 0);
    assert(days >= 0);
    let secs = (days * 86400 + second) as nat;
    assert(secs as int / 86400 == days);
    assert(secs as int % 86400 == second);
    let (y2, m2, d2) = date_of(days);
    assert(valid_date(y2, m2, d2) && day_number(y2, m2, d2) == days);
    lemma_day_number_unique(y, m, d, y2, m2, d2);
}

// ---- what ----

/// A line of the log.
pub open spec fn line(secs: nat, level: Seq<char>, msg: Seq<char>) -> Seq<char> {
    timestamp_of(secs) + " ["@ + level + "] "@ + msg + "\n"@
}

/// A line of the log, that many seconds after the epoch.
fn log(secs: u64, level: &str, msg: &str) -> (r: String)
    requires
        secs < END_OF_TIME,
    ensures
        r@ == line(secs as nat, level@, msg@),
{
    timestamp(secs).concat(" [").concat(level).concat("] ").concat(msg).concat("\n")
}

/// A line that tells of something.
pub open spec fn info_line(secs: nat, msg: Seq<char>) -> Seq<char> {
    line(secs, "info"@, msg)
}

/// A line that tells of something.
pub fn info(secs: u64, msg: &str) -> (r: String)
    requires
        secs < END_OF_TIME,
    ensures
        r@ == info_line(secs as nat, msg@),
{
    log(secs, "info", msg)
}

/// A line that warns of something.
pub open spec fn warn_line(secs: nat, msg: Seq<char>) -> Seq<char> {
    line(secs, "warn"@, msg)
}

/// A line that warns of something.
pub fn warn(secs: u64, msg: &str) -> (r: String)
    requires
        secs < END_OF_TIME,
    ensures
        r@ == warn_line(secs as nat, msg@),
{
    log(secs, "warn", msg)
}

/// A line that tells of an error.
pub open spec fn error_line(secs: nat, msg: Seq<char>) -> Seq<char> {
    line(secs, "error"@, msg)
}

/// A line that tells of an error.
pub fn error(secs: u64, msg: &str) -> (r: String)
    requires
        secs < END_OF_TIME,
    ensures
        r@ == error_line(secs as nat, msg@),
{
    log(secs, "error", msg)
}

/// The months have the days that everyone knows, and February has one more in
/// a leap year.
pub proof fn law_months(y: int, m: int)
    requires
        1 <= m <= 12,
    ensures
        ({
            let days = month_start(y, m + 1) - month_start(y, m);
            &&& (m == 1 || m == 3 || m == 5 || m == 7 || m == 8 || m == 10 || m == 12) ==> days == 31
            &&& (m == 4 || m == 6 || m == 9 || m == 11) ==> days == 30
            &&& m == 2 ==> days == (if leap(y) { 29int } else { 28 })
        }),
{
}

/// Every fourth year is a leap year, but of the full centuries only every
/// fourth.
pub proof fn law_leap_years(y: int)
    ensures
        leap(y) ==> y % 4 == 0,
        leap(4 * y) <==> (y % 25 != 0 || y % 100 == 0),
{
    vstd::arithmetic::div_mod::lemma_fundamental_div_mod(y, 25);
    vstd::arithmetic::div_mod::lemma_fundamental_div_mod(y, 100);
    vstd::arithmetic::div_mod::lemma_fundamental_div_mod_converse(4 * y, 4, y, 0);
    vstd::arithmetic::div_mod::lemma_fundamental_div_mod_converse(
        4 * y,
        100,
        y / 25,
        4 * (y % 25),
    );
    vstd::arithmetic::div_mod::lemma_fundamental_div_mod_converse(
        4 * y,
        400,
        y / 100,
        4 * (y % 100),
    );
}

/// A timestamp is written in the twenty characters of RFC 3339, in UTC.
pub proof fn law_timestamp_form(y: int, m: int, d: int, second: int)
    ensures
        ({
            let s = rfc3339((y, m, d), second);
            &&& s.len() == 20
            &&& s[4] == '-' && s[7] == '-' && s[10] == 'T' && s[13] == ':' && s[16] == ':' && s[19]
                == 'Z'
            &&& s.subrange(5, 7) == two(m) && s.subrange(8, 10) == two(d)
            &&& s.subrange(11, 13) == two(second / 3600) && s.subrange(17, 19) == two(second % 60)
        }),
{
    reveal_strlit("-");
    reveal_strlit("T");
    reveal_strlit(":");
    reveal_strlit("Z");
    let s = rfc3339((y, m, d), second);
    assert(s.subrange(5, 7) =~= two(m));
    assert(s.subrange(8, 10) =~= two(d));
    assert(s.subrange(11, 13) =~= two(second / 3600));
    assert(s.subrange(17, 19) =~= two(second % 60));
}

/// A line of the log begins with its time, names its level in brackets and
/// ends with the message and a line break.
pub proof fn law_line(secs: nat, level: Seq<char>, msg: Seq<char>)
    ensures
        ({
            let l = line(secs, level, msg);
            let head = timestamp_of(secs) + seq![' ', '['] + level + seq![']', ' '];
            &&& text::starts_with(l, head)
            &&& l.skip(head.len() as int) == msg.push('\n')
        }),
{
    reveal_strlit(" [");
    reveal_strlit("] ");
    reveal_strlit("\n");
    let l = line(secs, level, msg);
    let head = timestamp_of(secs) + seq![' ', '['] + level + seq![']', ' '];
    assert(" ["@ =~= seq![' ', '['] && "] "@ =~= seq![']', ' '] && "\n"@ =~= seq!['\n']);
    assert(l.subrange(0, head.len() as int) =~= head);
    assert(l.skip(head.len() as int) =~= msg.push('\n'));
}

/// A line says of what kind it is.
pub proof fn law_levels(secs: nat, msg: Seq<char>)
    ensures
        text::starts_with(info_line(secs, msg), timestamp_of(secs) + " [info] "@),
        text::starts_with(warn_line(secs, msg), timestamp_of(secs) + " [warn] "@),
        text::starts_with(error_line(secs, msg), timestamp_of(secs) + " [error] "@),
{
    reveal_strlit("info");
    reveal_strlit("warn");
    reveal_strlit("error");
    reveal_strlit(" [info] ");
    reveal_strlit(" [warn] ");
    reveal_strlit(" [error] ");
    law_line(secs, "info"@, msg);
    law_line(secs, "warn"@, msg);
    law_line(secs, "error"@, msg);
    let t = timestamp_of(secs);
    assert(t + seq![' ', '['] + "info"@ + seq![']', ' '] =~= t + " [info] "@);
    assert(t + seq![' ', '['] + "warn"@ + seq![']', ' '] =~= t + " [warn] "@);
    assert(t + seq![' ', '['] + "error"@ + seq![']', ' '] =~= t + " [error] "@);
}

}
