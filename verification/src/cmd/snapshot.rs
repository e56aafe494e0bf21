//! `snapshot`: take a snapshot of what boots next.
//!
//! The name is given, or made from the clock: `snapshot-20260509T143000Z`.

use vstd::prelude::*;
use vstd::string::*;

use crate::effects;
use crate::error;
use crate::error::Error;
use crate::model;
use crate::model::{Be, BootEnvironment, Pool, PoolFacts, Snap, SnapshotRef};
use crate::state;
use crate::sub;
use crate::sub::{Call, Runner, World};
use crate::text;

verus! {

/// Arguments of `snapshot`.
#[derive(Debug)]
pub struct SnapshotArgs {
    /// The snapshot's name; made from the clock where it is missing.
    pub name: Option<String>,
}

// ---------------------------------------------------------------------------
// The calendar
// ---------------------------------------------------------------------------

/// The Gregorian leap years.
pub open spec fn leap(y: int) -> bool {
    y % 4 == 0 && (y % 100 != 0 || y % 400 == 0)
}

/// How many of the years 1 to `y` are leap years.
pub open spec fn leaps_to(y: int) -> int {
    y / 4 - y / 100 + y / 400
}

/// Length of a month.
pub open spec fn month_len(y: int, m: int) -> int {
    if m == 2 {
        if leap(y) {
            29
        } else {
            28
        }
    } else if m == 4 || m == 6 || m == 9 || m == 11 {
        30
    } else {
        31
    }
}

/// Days of the year before a month.
pub open spec fn days_before_month(y: int, m: int) -> int
    decreases m,
{
    if m <= 1 {
        0
    } else {
        days_before_month(y, m - 1) + month_len(y, m - 1)
    }
}

/// Days from 1 January 1970 to a date.
pub open spec fn day_number(y: int, m: int, d: int) -> int {
    365 * (y - 1970) + leaps_to(y - 1) - leaps_to(1969) + days_before_month(y, m) + d - 1
}

/// A date and a time of day that there are.
pub open spec fn valid_instant(y: int, m: int, d: int, h: int, mi: int, s: int) -> bool {
    &&& 1 <= m <= 12
    &&& 1 <= d <= month_len(y, m)
    &&& 0 <= h < 24
    &&& 0 <= mi < 60
    &&& 0 <= s < 60
}

/// Seconds from the beginning of 1970 to an instant.
pub open spec fn unix_seconds(y: int, m: int, d: int, h: int, mi: int, s: int) -> int {
    86400 * day_number(y, m, d) + 3600 * h + 60 * mi + s
}

proof fn lemma_year_of_era(doe: int)
    requires
        0 <= doe <= 146096,
    ensures
        ({
            let yoe = (doe - doe / 1460 + doe / 36524 - doe / 146096) / 365;
            let doy = doe - (365 * yoe + yoe / 4 - yoe / 100);
            &&& 0 <= yoe <= 399
            &&& 0 <= doy <= 365
            &&& doy == 365 ==> (yoe + 1) % 4 == 0 && ((yoe + 1) % 100 != 0 || yoe == 399)
        }),
{
}

proof fn lemma_months(y: int)
    ensures
        days_before_month(y, 1) == 0,
        days_before_month(y, 2) == 31,
        ({
            let feb: int = if leap(y) {
                60
            } else {
                59
            };
            &&& days_before_month(y, 3) == feb
            &&& days_before_month(y, 4) == feb + 31
            &&& days_before_month(y, 5) == feb + 61
            &&& days_before_month(y, 6) == feb + 92
            &&& days_before_month(y, 7) == feb + 122
            &&& days_before_month(y, 8) == feb + 153
            &&& days_before_month(y, 9) == feb + 184
            &&& days_before_month(y, 10) == feb + 214
            &&& days_before_month(y, 11) == feb + 245
            &&& days_before_month(y, 12) == feb + 275
        }),
{
    assert(days_before_month(y, 1) == 0);
    assert(days_before_month(y, 2) == 31);
    assert(days_before_month(y, 3) == 31 + month_len(y, 2));
    assert(days_before_month(y, 4) == days_before_month(y, 3) + 31);
    assert(days_before_month(y, 5) == days_before_month(y, 4) + 30);
    assert(days_before_month(y, 6) == days_before_month(y, 5) + 31);
    assert(days_before_month(y, 7) == days_before_month(y, 6) + 30);
    assert(days_before_month(y, 8) == days_before_month(y, 7) + 31);
    assert(days_before_month(y, 9) == days_before_month(y, 8) + 31);
    assert(days_before_month(y, 10) == days_before_month(y, 9) + 30);
    assert(days_before_month(y, 11) == days_before_month(y, 10) + 31);
    assert(days_before_month(y, 12) == days_before_month(y, 11) + 30);
}

proof fn lemma_leaps(y: int)
    requires
        y >= 1,
    ensures
        leaps_to(y) == leaps_to(y - 1) + (if leap(y) {
            1int
        } else {
            0
        }),
{
}

proof fn lemma_era(era: int, yoe: int)
    requires
        0 <= yoe <= 399,
        0 <= era,
    ensures
        leaps_to(400 * era + yoe) == 97 * era + yoe / 4 - yoe / 100,
        leap(400 * era + yoe + 1) == ((yoe + 1) % 4 == 0 && ((yoe + 1) % 100 != 0 || yoe == 399)),
{
}

/// The day that the era, the year of the era (which begins in March) and the
/// day of that year name.
proof fn lemma_date(era: int, yoe: int, doy: int, mp: int, day: int, month: int, year: int)
    requires
        0 <= era,
        0 <= yoe <= 399,
        0 <= doy <= 365,
        doy == 365 ==> (yoe + 1) % 4 == 0 && ((yoe + 1) % 100 != 0 || yoe == 399),
        mp == (5 * doy + 2) / 153,
        day == doy - (153 * mp + 2) / 5 + 1,
        month == (if mp < 10 {
            mp + 3
        } else {
            mp - 9
        }),
        year == (if month <= 2 {
            400 * era + yoe + 1
        } else {
            400 * era + yoe
        }),
        400 * era + yoe >= 1,
    ensures
        1 <= month <= 12,
        1 <= day <= month_len(year, month),
        day_number(year, month, day) == 146097 * era + 365 * yoe + yoe / 4 - yoe / 100 + doy
            - 719468,
{
    lemma_months(year);
    lemma_leaps(400 * era + yoe);
    lemma_era(era, yoe);
    assert(0 <= mp <= 11);
    assert(leaps_to(1969) == 477);
    if mp == 0 {
        assert(0 <= doy <= 30);
    } else if mp == 1 {
        assert(31 <= doy <= 60);
    } else if mp == 2 {
        assert(61 <= doy <= 91);
    } else if mp == 3 {
        assert(92 <= doy <= 121);
    } else if mp == 4 {
        assert(122 <= doy <= 152);
    } else if mp == 5 {
        assert(153 <= doy <= 183);
    } else if mp == 6 {
        assert(184 <= doy <= 213);
    } else if mp == 7 {
        assert(214 <= doy <= 244);
    } else if mp == 8 {
        assert(245 <= doy <= 274);
    } else if mp == 9 {
        assert(275 <= doy <= 305);
    } else if mp == 10 {
        assert(306 <= doy <= 336);
    } else {
        assert(337 <= doy <= 365);
    }
}

/// UNIX seconds as a UTC date and time: year, month, day, hour, minute,
/// second.
pub fn civil_from_unix(unix_secs: u64) -> (r: (i64, u32, u32, u32, u32, u32))
    ensures
        valid_instant(
            r.0 as int,
            r.1 as int,
            r.2 as int,
            r.3 as int,
            r.4 as int,
            r.5 as int,
        ),
        unix_seconds(
            r.0 as int,
            r.1 as int,
            r.2 as int,
            r.3 as int,
            r.4 as int,
            r.5 as int,
        ) == unix_secs,
        r.0 >= 1970,
{
    let days: u64 = unix_secs / 86_400;
    let secs_of_day: u32 = (unix_secs % 86_400) as u32;
    let hour: u32 = secs_of_day / 3600;
    let minute: u32 = (secs_of_day % 3600) / 60;
    let second: u32 = secs_of_day % 60;
    // Counted from 1 March of the year 0, in eras of 400 years.
    let z: u64 = days + 719_468;
    let era: u64 = z / 146_097;
    let doe: u64 = z % 146_097;
    proof {
        lemma_year_of_era(doe as int);
    }
    let yoe: u64 = (doe - doe / 1460 + doe / 36_524 - doe / 146_096) / 365;
    let y: u64 = yoe + era * 400;
    let doy: u64 = doe - (365 * yoe + yoe / 4 - yoe / 100);
    let mp: u64 = (5 * doy + 2) / 153;
    let day: u64 = doy - (153 * mp + 2) / 5 + 1;
    let month: u64 = if mp < 10 {
        mp + 3
    } else {
        mp - 9
    };
    let year: u64 = if month <= 2 {
        y + 1
    } else {
        y
    };
    proof {
        assert(y >= 1969);
        lemma_date(
            era as int,
            yoe as int,
            doy as int,
            mp as int,
            day as int,
            month as int,
            year as int,
        );
        lemma_not_before(year as int, month as int, day as int);
    }
    (year as i64, month as u32, day as u32, hour, minute, second)
}

proof fn lemma_not_before(y: int, m: int, d: int)
    requires
        1 <= m <= 12,
        1 <= d <= month_len(y, m),
        day_number(y, m, d) >= 0,
        y >= 1969,
    ensures
        y >= 1970,
{
    lemma_months(y);
    if y == 1969 {
        assert(!leap(1969));
        assert(leaps_to(1968) == 477);
        assert(leaps_to(1969) == 477);
    }
}

proof fn lemma_year_days(y: int, m: int, d: int)
    requires
        1 <= m <= 12,
        1 <= d <= month_len(y, m),
    ensures
        0 <= days_before_month(y, m) + d - 1 < (if leap(y) {
            366int
        } else {
            365
        }),
{
    lemma_months(y);
}

proof fn lemma_years_apart(y1: int, y2: int)
    requires
        1 <= y1 < y2,
    ensures
        365 * (y1 - 1970) + leaps_to(y1 - 1) + (if leap(y1) {
            366int
        } else {
            365
        }) <= 365 * (y2 - 1970) + leaps_to(y2 - 1),
    decreases y2 - y1,
{
    lemma_leaps(y1);
    if y1 + 1 < y2 {
        lemma_years_apart(y1 + 1, y2);
    }
}

/// No two dates have the same number: an instant has one reading.
pub proof fn law_one_reading(y1: int, m1: int, d1: int, y2: int, m2: int, d2: int)
    requires
        1 <= y1,
        1 <= y2,
        1 <= m1 <= 12,
        1 <= d1 <= month_len(y1, m1),
        1 <= m2 <= 12,
        1 <= d2 <= month_len(y2, m2),
        day_number(y1, m1, d1) == day_number(y2, m2, d2),
    ensures
        y1 == y2 && m1 == m2 && d1 == d2,
{
    lemma_year_days(y1, m1, d1);
    lemma_year_days(y2, m2, d2);
    if y1 < y2 {
        lemma_years_apart(y1, y2);
    }
    if y2 < y1 {
        lemma_years_apart(y2, y1);
    }
    lemma_months(y1);
}

/// The name that is made for an instant: `<prefix>YYYYMMDDTHHMMSSZ`.
pub open spec fn instant_name(
    prefix: Seq<char>,
    y: int,
    m: int,
    d: int,
    h: int,
    mi: int,
    s: int,
) -> Seq<char> {
    prefix + text::padded(y as nat, 10, 4) + text::padded(m as nat, 10, 2) + text::padded(
        d as nat,
        10,
        2,
    ) + "T"@ + text::padded(h as nat, 10, 2) + text::padded(mi as nat, 10, 2) + text::padded(
        s as nat,
        10,
        2,
    ) + "Z"@
}

/// `name` is that of the instant at `secs`.
pub open spec fn names_instant(prefix: Seq<char>, name: Seq<char>, secs: int) -> bool {
    exists|y: int, m: int, d: int, h: int, mi: int, s: int|
        y >= 1970 && valid_instant(y, m, d, h, mi, s) && #[trigger] unix_seconds(
            y,
            m,
            d,
            h,
            mi,
            s,
        ) == secs && name == instant_name(prefix, y, m, d, h, mi, s)
}

/// `<prefix>YYYYMMDDTHHMMSSZ`.
pub fn stamped_name(prefix: &str, unix_secs: u64) -> (r: String)
    ensures
        names_instant(prefix@, r@, unix_secs as int),
{
    let (year, month, day, hour, minute, second) = civil_from_unix(unix_secs);
    let y: String = text::pad(year as u128, 10, 4);
    let mo: String = text::pad(month as u128, 10, 2);
    let d: String = text::pad(day as u128, 10, 2);
    let h: String = text::pad(hour as u128, 10, 2);
    let mi: String = text::pad(minute as u128, 10, 2);
    let s: String = text::pad(second as u128, 10, 2);
    let mut out: String = text::cat8(
        prefix,
        y.as_str(),
        mo.as_str(),
        d.as_str(),
        "T",
        h.as_str(),
        mi.as_str(),
        s.as_str(),
    );
    out.append("Z");
    assert(unix_seconds(
        year as int,
        month as int,
        day as int,
        hour as int,
        minute as int,
        second as int,
    ) == unix_secs as int);
    out
}

/// `snapshot-YYYYMMDDTHHMMSSZ`.
pub fn default_snap_name(unix_secs: u64) -> (r: String)
    ensures
        names_instant("snapshot-"@, r@, unix_secs as int),
{
    stamped_name("snapshot-", unix_secs)
}

proof fn lemma_time_of_day(d1: int, h1: int, m1: int, s1: int, d2: int, h2: int, m2: int, s2: int)
    requires
        0 <= h1 < 24,
        0 <= m1 < 60,
        0 <= s1 < 60,
        0 <= h2 < 24,
        0 <= m2 < 60,
        0 <= s2 < 60,
        86400 * d1 + 3600 * h1 + 60 * m1 + s1 == 86400 * d2 + 3600 * h2 + 60 * m2 + s2,
    ensures
        d1 == d2 && h1 == h2 && m1 == m2 && s1 == s2,
{
    lemma_digit(86400, d1, 3600 * h1 + 60 * m1 + s1, d2, 3600 * h2 + 60 * m2 + s2);
    lemma_digit(3600, h1, 60 * m1 + s1, h2, 60 * m2 + s2);
    lemma_digit(60, m1, s1, m2, s2);
}

proof fn lemma_digit(base: int, q1: int, r1: int, q2: int, r2: int)
    by (nonlinear_arith)
    requires
        0 <= r1 < base,
        0 <= r2 < base,
        base * q1 + r1 == base * q2 + r2,
    ensures
        q1 == q2 && r1 == r2,
{
    if q1 < q2 {
        assert(base * (q2 - q1) >= base);
    }
    if q2 < q1 {
        assert(base * (q1 - q2) >= base);
    }
}

/// An instant has one name.
pub proof fn law_one_name(prefix: Seq<char>, a: Seq<char>, b: Seq<char>, secs: int)
    requires
        names_instant(prefix, a, secs),
        names_instant(prefix, b, secs),
    ensures
        a == b,
{
    let (y1, m1, d1, h1, mi1, s1) = choose|y: int, m: int, d: int, h: int, mi: int, s: int|
        y >= 1970 && valid_instant(y, m, d, h, mi, s) && #[trigger] unix_seconds(
            y,
            m,
            d,
            h,
            mi,
            s,
        ) == secs && a == instant_name(prefix, y, m, d, h, mi, s);
    let (y2, m2, d2, h2, mi2, s2) = choose|y: int, m: int, d: int, h: int, mi: int, s: int|
        y >= 1970 && valid_instant(y, m, d, h, mi, s) && #[trigger] unix_seconds(
            y,
            m,
            d,
            h,
            mi,
            s,
        ) == secs && b == instant_name(prefix, y, m, d, h, mi, s);
    lemma_time_of_day(
        day_number(y1, m1, d1),
        h1,
        mi1,
        s1,
        day_number(y2, m2, d2),
        h2,
        mi2,
        s2,
    );
    law_one_reading(y1, m1, d1, y2, m2, d2);
}

/// One part of a name that sorts before another, with what stands behind.
proof fn lemma_part_less(n: int, m: int, width: nat, a: Seq<char>, b: Seq<char>)
    requires
        width >= 1,
        0 <= n <= m < text::tens(width),
        n == m ==> text::less(a, b),
    ensures
        text::less(
            text::padded(n as nat, 10, width) + a,
            text::padded(m as nat, 10, width) + b,
        ),
{
    text::lemma_padded(n as nat, width);
    text::lemma_padded(m as nat, width);
    if n < m {
        text::lemma_padded_less(n as nat, m as nat, width);
        text::lemma_less_in_front(
            text::padded(n as nat, 10, width),
            text::padded(m as nat, 10, width),
            a,
            b,
        );
    } else {
        text::lemma_less_behind(text::padded(n as nat, 10, width), a, b);
    }
}

/// A later date has the later year, or in the same year the later month, or in
/// the same month the later day.
proof fn lemma_later_date(y1: int, m1: int, d1: int, y2: int, m2: int, d2: int)
    requires
        1 <= y1,
        1 <= y2,
        1 <= m1 <= 12,
        1 <= d1 <= month_len(y1, m1),
        1 <= m2 <= 12,
        1 <= d2 <= month_len(y2, m2),
        day_number(y1, m1, d1) < day_number(y2, m2, d2),
    ensures
        y1 < y2 || (y1 == y2 && m1 < m2) || (y1 == y2 && m1 == m2 && d1 < d2),
{
    lemma_year_days(y1, m1, d1);
    lemma_year_days(y2, m2, d2);
    if y2 < y1 {
        lemma_years_apart(y2, y1);
    }
    lemma_months(y1);
}

/// The year 10000 begins at this second.
proof fn lemma_four_digits(y: int, m: int, d: int, h: int, mi: int, s: int)
    requires
        y >= 1970,
        valid_instant(y, m, d, h, mi, s),
        unix_seconds(y, m, d, h, mi, s) < 253402300800,
    ensures
        y < 10000,
{
    if y >= 10000 {
        lemma_year_days(y, m, d);
        lemma_years_apart(9999, y);
        assert(leaps_to(1969) == 477);
        assert(leaps_to(9998) == 2424);
        assert(!leap(9999));
        assert(day_number(y, m, d) >= 2932897);
    }
}

/// The time of day in a name.
spec fn clock_part(h: int, mi: int, s: int) -> Seq<char> {
    text::padded(h as nat, 10, 2) + (text::padded(mi as nat, 10, 2) + (text::padded(
        s as nat,
        10,
        2,
    ) + "Z"@))
}

proof fn lemma_name_parts(
    prefix: Seq<char>,
    y: int,
    m: int,
    d: int,
    h: int,
    mi: int,
    s: int,
)
    ensures
        instant_name(prefix, y, m, d, h, mi, s) == prefix + (text::padded(y as nat, 10, 4) + (
        text::padded(m as nat, 10, 2) + (text::padded(d as nat, 10, 2) + ("T"@ + clock_part(
            h,
            mi,
            s,
        ))))),
{
    let (py, pm, pd) = (
        text::padded(y as nat, 10, 4),
        text::padded(m as nat, 10, 2),
        text::padded(d as nat, 10, 2),
    );
    let (ph, pn, ps) = (
        text::padded(h as nat, 10, 2),
        text::padded(mi as nat, 10, 2),
        text::padded(s as nat, 10, 2),
    );
    let clock = clock_part(h, mi, s);
    let front = prefix + py + pm + pd + "T"@;
    assert(front + ph + pn + ps + "Z"@ =~= front + clock);
    assert(front + clock =~= prefix + (py + (pm + (pd + ("T"@ + clock)))));
}

proof fn lemma_clock_less(h1: int, m1: int, s1: int, h2: int, m2: int, s2: int)
    requires
        0 <= h1 < 24,
        0 <= m1 < 60,
        0 <= s1 < 60,
        0 <= h2 < 24,
        0 <= m2 < 60,
        0 <= s2 < 60,
        h1 < h2 || (h1 == h2 && m1 < m2) || (h1 == h2 && m1 == m2 && s1 < s2),
    ensures
        text::less(clock_part(h1, m1, s1), clock_part(h2, m2, s2)),
{
    lemma_tens();
    let (sa, sb) = (
        text::padded(s1 as nat, 10, 2) + "Z"@,
        text::padded(s2 as nat, 10, 2) + "Z"@,
    );
    let (na, nb) = (
        text::padded(m1 as nat, 10, 2) + sa,
        text::padded(m2 as nat, 10, 2) + sb,
    );
    if h1 == h2 {
        if m1 == m2 {
            lemma_part_less(s1, s2, 2, "Z"@, "Z"@);
        }
        lemma_part_less(m1, m2, 2, sa, sb);
    }
    lemma_part_less(h1, h2, 2, na, nb);
}

proof fn lemma_tens()
    ensures
        text::tens(2) == 100,
        text::tens(4) == 10000,
{
    assert(text::tens(0) == 1);
    assert(text::tens(1) == 10);
    assert(text::tens(2) == 100);
    assert(text::tens(3) == 1000);
}

/// Names sort by time: up to the end of the year 9999, that of a later second
/// stands behind that of an earlier one.
pub proof fn law_names_sort_by_time(
    prefix: Seq<char>,
    a: Seq<char>,
    b: Seq<char>,
    at: int,
    later: int,
)
    requires
        names_instant(prefix, a, at),
        names_instant(prefix, b, later),
        at < later <= 253402300799,
    ensures
        text::less(a, b),
{
    let (y1, m1, d1, h1, mi1, s1) = choose|y: int, m: int, d: int, h: int, mi: int, s: int|
        y >= 1970 && valid_instant(y, m, d, h, mi, s) && #[trigger] unix_seconds(
            y,
            m,
            d,
            h,
            mi,
            s,
        ) == at && a == instant_name(prefix, y, m, d, h, mi, s);
    let (y2, m2, d2, h2, mi2, s2) = choose|y: int, m: int, d: int, h: int, mi: int, s: int|
        y >= 1970 && valid_instant(y, m, d, h, mi, s) && #[trigger] unix_seconds(
            y,
            m,
            d,
            h,
            mi,
            s,
        ) == later && b == instant_name(prefix, y, m, d, h, mi, s);
    lemma_four_digits(y1, m1, d1, h1, mi1, s1);
    lemma_four_digits(y2, m2, d2, h2, mi2, s2);
    lemma_name_parts(prefix, y1, m1, d1, h1, mi1, s1);
    lemma_name_parts(prefix, y2, m2, d2, h2, mi2, s2);
    let (ta, tb) = ("T"@ + clock_part(h1, mi1, s1), "T"@ + clock_part(h2, mi2, s2));
    if day_number(y1, m1, d1) == day_number(y2, m2, d2) {
        law_one_reading(y1, m1, d1, y2, m2, d2);
        lemma_clock_less(h1, mi1, s1, h2, mi2, s2);
        text::lemma_less_behind("T"@, clock_part(h1, mi1, s1), clock_part(h2, mi2, s2));
    } else {
        assert(day_number(y1, m1, d1) < day_number(y2, m2, d2));
        lemma_later_date(y1, m1, d1, y2, m2, d2);
    }
    lemma_date_less(prefix, y1, m1, d1, y2, m2, d2, ta, tb);
}

proof fn lemma_date_less(
    prefix: Seq<char>,
    y1: int,
    m1: int,
    d1: int,
    y2: int,
    m2: int,
    d2: int,
    ta: Seq<char>,
    tb: Seq<char>,
)
    requires
        0 <= y1 < 10000,
        0 <= y2 < 10000,
        0 <= m1 < 100,
        0 <= m2 < 100,
        0 <= d1 < 100,
        0 <= d2 < 100,
        y1 < y2 || (y1 == y2 && m1 < m2) || (y1 == y2 && m1 == m2 && d1 < d2) || (y1 == y2 && m1
            == m2 && d1 == d2 && text::less(ta, tb)),
    ensures
        text::less(
            prefix + (text::padded(y1 as nat, 10, 4) + (text::padded(m1 as nat, 10, 2) + (
            text::padded(d1 as nat, 10, 2) + ta))),
            prefix + (text::padded(y2 as nat, 10, 4) + (text::padded(m2 as nat, 10, 2) + (
            text::padded(d2 as nat, 10, 2) + tb))),
        ),
{
    lemma_tens();
    let (da, db) = (
        text::padded(d1 as nat, 10, 2) + ta,
        text::padded(d2 as nat, 10, 2) + tb,
    );
    let (ma, mb) = (
        text::padded(m1 as nat, 10, 2) + da,
        text::padded(m2 as nat, 10, 2) + db,
    );
    if y1 == y2 {
        if m1 == m2 {
            lemma_part_less(d1, d2, 2, ta, tb);
        }
        lemma_part_less(m1, m2, 2, da, db);
    }
    lemma_part_less(y1, y2, 4, ma, mb);
    text::lemma_less_behind(
        prefix,
        text::padded(y1 as nat, 10, 4) + ma,
        text::padded(y2 as nat, 10, 4) + mb,
    );
}

/// A name made from the clock is one that a snapshot can bear in a file name:
/// it holds none of `:`, `/` and `@`.
pub proof fn law_names_are_plain(name: Seq<char>, secs: int)
    requires
        names_instant("snapshot-"@, name, secs),
    ensures
        !name.contains(':'),
        !name.contains('/'),
        !name.contains('@'),
{
    reveal_strlit("snapshot-");
    reveal_strlit("T");
    reveal_strlit("Z");
    let (y, m, d, h, mi, s) = choose|y: int, m: int, d: int, h: int, mi: int, s: int|
        y >= 1970 && valid_instant(y, m, d, h, mi, s) && #[trigger] unix_seconds(
            y,
            m,
            d,
            h,
            mi,
            s,
        ) == secs && name == instant_name("snapshot-"@, y, m, d, h, mi, s);
    lemma_padded_digits(y as nat, 4);
    lemma_padded_digits(m as nat, 2);
    lemma_padded_digits(d as nat, 2);
    lemma_padded_digits(h as nat, 2);
    lemma_padded_digits(mi as nat, 2);
    lemma_padded_digits(s as nat, 2);
    let parts = (
        text::padded(y as nat, 10, 4),
        text::padded(m as nat, 10, 2),
        text::padded(d as nat, 10, 2),
        text::padded(h as nat, 10, 2),
        text::padded(mi as nat, 10, 2),
        text::padded(s as nat, 10, 2),
    );
    let n0 = "snapshot-"@;
    assert(plain(n0));
    lemma_plain_sum(n0, parts.0);
    let n1 = n0 + parts.0;
    lemma_plain_sum(n1, parts.1);
    let n2 = n1 + parts.1;
    lemma_plain_sum(n2, parts.2);
    let n3 = n2 + parts.2;
    lemma_plain_sum(n3, "T"@);
    let n4 = n3 + "T"@;
    lemma_plain_sum(n4, parts.3);
    let n5 = n4 + parts.3;
    lemma_plain_sum(n5, parts.4);
    let n6 = n5 + parts.4;
    lemma_plain_sum(n6, parts.5);
    lemma_plain_sum(n6 + parts.5, "Z"@);
}

spec fn plain(s: Seq<char>) -> bool {
    forall|i: int|
        0 <= i < s.len() ==> #[trigger] s[i] != ':' && s[i] != '/' && s[i] != '@'
}

proof fn lemma_plain_sum(a: Seq<char>, b: Seq<char>)
    requires
        plain(a),
        plain(b),
    ensures
        plain(a + b),
{
    let t = a + b;
    assert forall|i: int| 0 <= i < t.len() implies #[trigger] t[i] != ':' && t[i] != '/' && t[i]
        != '@' by {
        if i < a.len() {
            assert(t[i] == a[i]);
        } else {
            assert(t[i] == b[i - a.len()]);
        }
    }
}

proof fn lemma_padded_digits(n: nat, width: nat)
    ensures
        plain(text::padded(n, 10, width)),
    decreases width,
{
    if width <= 1 {
        text::lemma_decimal(n);
        assert forall|i: int| 0 <= i < text::decimal(n).len() implies #[trigger] text::decimal(n)[i]
            != ':' && text::decimal(n)[i] != '/' && text::decimal(n)[i] != '@' by {
            assert(text::digit(text::decimal(n)[i]));
        }
    } else {
        lemma_padded_digits(n / 10, (width - 1) as nat);
    }
}

// ---------------------------------------------------------------------------
// What is snapshotted
// ---------------------------------------------------------------------------

/// The pools and the boot environments that there are.
#[derive(Debug)]
pub struct Observed {
    pub pools: Vec<Pool>,
    pub bes: Vec<BootEnvironment>,
}

/// The pools and the boot environments, by what is known of them.
pub struct Seen {
    pub pools: Seq<PoolFacts>,
    pub bes: Seq<Be>,
}

impl DeepView for Observed {
    type V = Seen;

    open spec fn deep_view(&self) -> Seen {
        Seen { pools: self.pools.deep_view(), bes: self.bes.deep_view() }
    }
}

/// The first boot environment of a pool at a dataset.
pub open spec fn be_of(bes: Seq<Be>, pool: Seq<char>, ds: Seq<char>) -> Option<Be>
    decreases bes.len(),
{
    if bes.len() == 0 {
        None
    } else if bes[0].pool == pool && bes[0].dataset == ds {
        Some(bes[0])
    } else {
        be_of(bes.drop_first(), pool, ds)
    }
}

/// The boot environment that the first pool boots next whose next boot is one.
pub open spec fn active_of(pools: Seq<PoolFacts>, bes: Seq<Be>) -> Option<Be>
    decreases pools.len(),
{
    if pools.len() == 0 {
        None
    } else {
        match pools[0].bootfs {
            Some(ds) => match be_of(bes, pools[0].name, ds) {
                Some(b) => Some(b),
                None => active_of(pools.drop_first(), bes),
            },
            None => active_of(pools.drop_first(), bes),
        }
    }
}

fn find_be_of<'a>(bes: &'a Vec<BootEnvironment>, pool: &str, ds: &str) -> (r: Option<
    &'a BootEnvironment,
>)
    ensures
        r.deep_view() == be_of(bes.deep_view(), pool@, ds@),
{
    let ghost all = bes.deep_view();
    let mut i: usize = 0;
    assert(all.skip(0) =~= all);
    while i < bes.len()
        invariant
            i <= bes@.len(),
            all == bes.deep_view(),
            be_of(all, pool@, ds@) == be_of(all.skip(i as int), pool@, ds@),
        decreases bes@.len() - i,
    {
        proof {
            assert(all.skip(i as int)[0] == bes@[i as int].deep_view());
            assert(all.skip(i as int).drop_first() =~= all.skip(i + 1));
        }
        if text::eq(bes[i].pool.as_str(), pool) && text::eq(bes[i].dataset.as_str(), ds) {
            return Some(&bes[i]);
        }
        i = i + 1;
    }
    None
}

/// The boot environment that boots next.
pub fn find_active_be<'a>(observed: &'a Observed) -> (r: Option<&'a BootEnvironment>)
    ensures
        r.deep_view() == active_of(observed.deep_view().pools, observed.deep_view().bes),
{
    let ghost all = observed.pools.deep_view();
    let ghost bes = observed.bes.deep_view();
    let mut i: usize = 0;
    assert(all.skip(0) =~= all);
    while i < observed.pools.len()
        invariant
            i <= observed.pools@.len(),
            all == observed.pools.deep_view(),
            bes == observed.bes.deep_view(),
            active_of(all, bes) == active_of(all.skip(i as int), bes),
        decreases observed.pools@.len() - i,
    {
        proof {
            assert(all.skip(i as int)[0] == observed.pools@[i as int].deep_view());
            assert(all.skip(i as int).drop_first() =~= all.skip(i + 1));
        }
        let p = &observed.pools[i];
        if let Some(ds) = &p.bootfs {
            let found = find_be_of(&observed.bes, p.name.as_str(), ds.as_str());
            if found.is_some() {
                return found;
            }
        }
        i = i + 1;
    }
    None
}

/// The complaint where nothing boots next.
pub open spec fn no_active_text() -> Seq<char> {
    "no active BE: no pool has `bootfs` set to a dataset tagged `zboot:be=true`. Set `zpool set bootfs=<dataset> <pool>` and `zfs set zboot:be=true <dataset>` first."@
}

/// The snapshot that is to be taken.
pub open spec fn picked(seen: Seen, name: Seq<char>) -> Result<Snap, Seq<char>> {
    match active_of(seen.pools, seen.bes) {
        Some(b) => Ok(Snap { dataset: b.dataset, name: name }),
        None => Err(no_active_text()),
    }
}

/// The snapshot `snap_name` of what boots next.
pub fn pick_from_observed(observed: &Observed, snap_name: &str) -> (res: Result<SnapshotRef, Error>)
    ensures
        error::outcome(res) == picked(observed.deep_view(), snap_name@),
{
    match find_active_be(observed) {
        Some(b) => Ok(SnapshotRef { dataset: b.dataset.clone(), name: snap_name.to_owned() }),
        None => Err(
            Error::new(
                "no active BE: no pool has `bootfs` set to a dataset tagged `zboot:be=true`. Set `zpool set bootfs=<dataset> <pool>` and `zfs set zboot:be=true <dataset>` first.",
            ),
        ),
    }
}

/// Looks at the pools and the boot environments.
#[verifier::opaque]
pub open spec fn collect_does(w: World) -> (World, Result<Seen, Seq<char>>) {
    let (w1, ps) = state::pools_does(w);
    match ps {
        Err(m) => (w1, Err(m)),
        Ok(ps) => {
            let (w2, ds) = state::datasets_does(
                w1,
                "origin,mountpoint,canmount,zboot:be,zboot:attached-to"@,
            );
            match ds {
                Err(m) => (w2, Err(m)),
                Ok(d) => (w2, Ok(Seen { pools: ps, bes: state::bes_among(d.0, d.1) })),
            }
        },
    }
}

fn collect_state<R: Runner>(r: &mut R) -> (res: Result<Observed, Error>)
    ensures
        sub::did(final(r).world(), res) == collect_does(old(r).world()),
{
    proof {
        reveal(collect_does);
    }
    let ps = match state::collect_pools(r) {
        Err(e) => return Err(e),
        Ok(ps) => ps,
    };
    match state::collect_datasets(r, "origin,mountpoint,canmount,zboot:be,zboot:attached-to") {
        Err(e) => Err(e),
        Ok((names, rows)) => Ok(
            Observed { pools: ps, bes: state::bes_from_props(&names, &rows) },
        ),
    }
}

// ---------------------------------------------------------------------------
// The verb
// ---------------------------------------------------------------------------

/// Whole seconds of a reading of the clock.
pub open spec fn seconds_of(nanos: u128) -> int {
    let s = nanos as int / 1_000_000_000;
    if s <= u64::MAX {
        s
    } else {
        u64::MAX as int
    }
}

/// Whole seconds since the beginning of 1970.
pub fn unix_secs<R: Runner>(r: &mut R) -> (res: u64)
    ensures
        final(r).world() == old(r).world().after(Call::Clock),
        res == seconds_of(old(r).world().reply().nanos),
{
    let s: u128 = r.clock() / 1_000_000_000;
    if s <= 0xffff_ffff_ffff_ffff {
        s as u64
    } else {
        0xffff_ffff_ffff_ffff
    }
}

/// Takes the snapshot `snap`.
pub open spec fn take_does(w: World, snap: Snap) -> (World, Result<(), Seq<char>>) {
    let (w1, res) = sub::run_does(w, "zfs"@, seq!["snapshot"@, model::snap_text(snap)]);
    (w1, error::in_context(res, "creating snapshot "@ + model::snap_text(snap)))
}

/// The verb with the name that was given or made.
pub open spec fn run_named_does(w: World, seen: Seen, name: Seq<char>) -> (World, Result<
    (),
    Seq<char>,
>) {
    match picked(seen, name) {
        Err(m) => (w, Err(m)),
        Ok(snap) => take_does(w, snap),
    }
}

fn run_named<R: Runner>(r: &mut R, observed: &Observed, name: &str) -> (res: Result<(), Error>)
    ensures
        sub::did(final(r).world(), res) == run_named_does(
            old(r).world(),
            observed.deep_view(),
            name@,
        ),
{
    match pick_from_observed(observed, name) {
        Err(e) => Err(e),
        Ok(snap) => {
            let shown: String = snap.render();
            let args = text::argv2("snapshot", shown.as_str());
            let res = sub::zfs(r, args.as_slice());
            let what: String = text::cat2("creating snapshot ", shown.as_str());
            error::with_context(res, what.as_str())
        },
    }
}

/// What `snapshot` does in the world `w`: `end` is the world it leaves, `out`
/// what it returns. Where no name is given, the name is that of the instant
/// that the clock reads.
pub open spec fn run_does(
    w: World,
    name: Option<Seq<char>>,
    end: World,
    out: Result<(), Seq<char>>,
) -> bool {
    let (w1, seen) = collect_does(w);
    match seen {
        Err(m) => (end, out) == (w1, Err::<(), Seq<char>>(m)),
        Ok(s) => match name {
            Some(n) => (end, out) == run_named_does(w1, s, n),
            None => exists|n: Seq<char>| #[trigger]
                names_instant("snapshot-"@, n, seconds_of(w1.reply().nanos)) && (end, out) == run_named_does(
                    w1.after(Call::Clock),
                    s,
                    n,
                ),
        },
    }
}

/// `snapshot`: takes a snapshot of what boots next.
pub fn run<R: Runner>(r: &mut R, args: &SnapshotArgs) -> (res: Result<(), Error>)
    ensures
        run_does(
            old(r).world(),
            args.name.deep_view(),
            final(r).world(),
            error::outcome(res),
        ),
{
    let observed = match collect_state(r) {
        Err(e) => return Err(e),
        Ok(o) => o,
    };
    match &args.name {
        Some(n) => run_named(r, &observed, n.as_str()),
        None => {
            let n: String = default_snap_name(unix_secs(r));
            run_named(r, &observed, n.as_str())
        },
    }
}

/// What boots next is a boot environment, and some pool boots it next.
pub proof fn law_active_is_a_bootfs(pools: Seq<PoolFacts>, bes: Seq<Be>)
    ensures
        active_of(pools, bes) matches Some(b) ==> bes.contains(b) && exists|i: int|
            0 <= i < pools.len() && (#[trigger] pools[i]).name == b.pool && pools[i].bootfs == Some(
                b.dataset,
            ),
    decreases pools.len(),
{
    if pools.len() > 0 {
        if let Some(ds) = pools[0].bootfs {
            lemma_be_of(bes, pools[0].name, ds);
        }
        law_active_is_a_bootfs(pools.drop_first(), bes);
        if let Some(b) = active_of(pools.drop_first(), bes) {
            let rest = pools.drop_first();
            let i = choose|i: int|
                0 <= i < rest.len() && (#[trigger] rest[i]).name == b.pool && rest[i].bootfs == Some(
                    b.dataset,
                );
            assert(pools[i + 1] == rest[i]);
        }
    }
}

proof fn lemma_be_of(bes: Seq<Be>, pool: Seq<char>, ds: Seq<char>)
    ensures
        be_of(bes, pool, ds) matches Some(b) ==> bes.contains(b) && b.pool == pool && b.dataset
            == ds,
    decreases bes.len(),
{
    if bes.len() > 0 {
        lemma_be_of(bes.drop_first(), pool, ds);
        if be_of(bes, pool, ds) is Some {
            if bes[0].pool == pool && bes[0].dataset == ds {
            } else {
                let b = be_of(bes.drop_first(), pool, ds)->0;
                let k = choose|k: int| 0 <= k < bes.drop_first().len() && bes.drop_first()[k] == b;
                assert(bes[k + 1] == b);
            }
        }
    }
}

/// All that `snapshot` changes is that it takes a snapshot.
pub proof fn law_snapshot_is_all(
    w: World,
    name: Option<Seq<char>>,
    end: World,
    out: Result<(), Seq<char>>,
)
    requires
        run_does(w, name, end, out),
    ensures
        sub::did_only(
            w,
            end,
            |c: Call|
                c matches Call::Run { prog, args } && prog == "zfs"@ && args.len() == 2 && args[0]
                    == "snapshot"@,
        ),
{
    reveal(collect_does);
    reveal(state::pools_does);
    reveal(state::datasets_does);
    let w1 = collect_does(w).0;
    assert(sub::only_looked(w, w1));
}

/// An environment that some pool boots is found to be active.
pub proof fn law_booted_is_active(pools: Seq<PoolFacts>, bes: Seq<Be>, i: int, j: int)
    requires
        0 <= i < pools.len(),
        0 <= j < bes.len(),
        bes[j].pool == pools[i].name,
        pools[i].bootfs == Some(bes[j].dataset),
    ensures
        active_of(pools, bes) is Some,
    decreases pools.len(),
{
    if i == 0 {
        lemma_found(bes, pools[0].name, bes[j].dataset, j);
    } else {
        let rest = pools.drop_first();
        assert(rest[i - 1] == pools[i]);
        law_booted_is_active(rest, bes, i - 1, j);
    }
}

proof fn lemma_found(bes: Seq<Be>, pool: Seq<char>, ds: Seq<char>, j: int)
    requires
        0 <= j < bes.len(),
        bes[j].pool == pool,
        bes[j].dataset == ds,
    ensures
        be_of(bes, pool, ds) is Some,
    decreases bes.len(),
{
    if j > 0 {
        let rest = bes.drop_first();
        assert(rest[j - 1] == bes[j]);
        lemma_found(rest, pool, ds, j - 1);
    }
}

/// A snapshot that was asked for by name is taken, under that name, of an
/// environment that a pool boots.
pub proof fn law_snapshot_is_taken(w: World, name: Seq<char>, end: World)
    requires
        run_does(w, Some(name), end, Ok(())),
    ensures
        ({
            let seen = collect_does(w).1->Ok_0;
            &&& collect_does(w).1 is Ok
            &&& exists|i: int|
                0 <= i < seen.pools.len() && (#[trigger] seen.pools[i]).bootfs is Some
                    && effects::ran(
                    w,
                    end,
                    "zfs"@,
                    seq!["snapshot"@, seen.pools[i].bootfs->0 + "@"@ + name],
                )
        }),
{
    reveal(collect_does);
    reveal(state::pools_does);
    reveal(state::datasets_does);
    let w1 = collect_does(w).0;
    assert(sub::only_looked(w, w1));
    let seen = collect_does(w).1->Ok_0;
    law_active_is_a_bootfs(seen.pools, seen.bes);
    let b = active_of(seen.pools, seen.bes)->0;
    let full = b.dataset + "@"@ + name;
    assert(model::snap_text(Snap { dataset: b.dataset, name }) =~= full);
    let args = seq!["snapshot"@, full];
    effects::lemma_run_ran(w1, "zfs"@, args);
    assert(sub::continues(end, end));
    effects::lemma_ran_within(w, w1, end, end, "zfs"@, args);
    let i = choose|i: int|
        0 <= i < seen.pools.len() && (#[trigger] seen.pools[i]).name == b.pool
            && seen.pools[i].bootfs == Some(b.dataset);
    assert(seen.pools[i].bootfs->0 == b.dataset);
}

} // verus!
