use vstd::prelude::*;

verus! {

// ---------------------------------------------------------------------------
// The proleptic Gregorian calendar, stated directly
// ---------------------------------------------------------------------------

/// Gregorian leap-year rule.
pub open spec fn is_leap_year(y: int) -> bool {
    (y % 4 == 0 && y % 100 != 0) || y % 400 == 0
}

/// Number of days in month `m` (1-based) of year `y`.
pub open spec fn days_in_month(y: int, m: int) -> int {
    if m == 2 {
        if is_leap_year(y) { 29 } else { 28 }
    } else if m == 4 || m == 6 || m == 9 || m == 11 {
        30
    } else {
        31
    }
}

/// A real calendar date: month in 1..=12 and day within that month.
pub open spec fn is_valid_date(y: int, m: int, d: int) -> bool {
    1 <= m <= 12 && 1 <= d <= days_in_month(y, m)
}

/// Days from 0000-01-01 to `y`-01-01 (negative before year 0).
/// `lemma_days_before_year_step` shows that consecutive values differ by the
/// length of the year, so this is the running count of days.
pub open spec fn days_before_year(y: int) -> int {
    365 * y + (y + 3) / 4 - (y + 99) / 100 + (y + 399) / 400
}

/// Days from January 1st of year `y` to the first day of month `m`.
pub open spec fn days_before_month(y: int, m: int) -> int {
    let common: int = if m <= 1 {
        0
    } else if m == 2 {
        31
    } else if m == 3 {
        59
    } else if m == 4 {
        90
    } else if m == 5 {
        120
    } else if m == 6 {
        151
    } else if m == 7 {
        181
    } else if m == 8 {
        212
    } else if m == 9 {
        243
    } else if m == 10 {
        273
    } else if m == 11 {
        304
    } else {
        334
    };
    common + if m > 2 && is_leap_year(y) { 1int } else { 0int }
}

/// Days from 1970-01-01 (the Unix epoch) to the date `y-m-d`.
pub open spec fn epoch_day(y: int, m: int, d: int) -> int {
    days_before_year(y) - days_before_year(1970) + days_before_month(y, m) + d - 1
}

/// The calendar date of the day `days` after 1970-01-01: the unique valid date
/// whose `epoch_day` is `days` (see `lemma_civil_of_day` and
/// `lemma_epoch_day_injective`).
pub open spec fn civil_of_day(days: int) -> (int, int, int) {
    choose|t: (int, int, int)| is_valid_date(t.0, t.1, t.2) && epoch_day(t.0, t.1, t.2) == days
}

// ---------------------------------------------------------------------------
// Facts about the direct statement
// ---------------------------------------------------------------------------

/// Floor division by 4, 100 or 400 steps up exactly at multiples.
proof fn lemma_floor_step(x: int, c: int)
    requires
        c == 4 || c == 100 || c == 400,
    ensures
        (x + 1) / c - x / c == if (x + 1) % c == 0 { 1int } else { 0int },
{
    if c == 4 {
        assert((x + 1) / 4 - x / 4 == if (x + 1) % 4 == 0 { 1int } else { 0int });
    } else if c == 100 {
        assert((x + 1) / 100 - x / 100 == if (x + 1) % 100 == 0 { 1int } else { 0int });
    } else {
        assert((x + 1) / 400 - x / 400 == if (x + 1) % 400 == 0 { 1int } else { 0int });
    }
}

proof fn lemma_mod_shift(y: int)
    ensures
        (y + 4) % 4 == y % 4,
        (y + 100) % 100 == y % 100,
        (y + 400) % 400 == y % 400,
{
}

/// Consecutive `days_before_year` values differ by exactly the year's length.
pub proof fn lemma_days_before_year_step(y: int)
    ensures
        days_before_year(y + 1) - days_before_year(y) == if is_leap_year(y) { 366int } else { 365int },
{
    lemma_floor_step(y + 3, 4);
    lemma_floor_step(y + 99, 100);
    lemma_floor_step(y + 399, 400);
    lemma_mod_shift(y);
}

/// The days of a year occupy `[days_before_year(y), days_before_year(y + 1))`.
proof fn lemma_day_of_year_range(y: int, m: int, d: int)
    requires
        is_valid_date(y, m, d),
    ensures
        0 <= days_before_month(y, m) + d - 1,
        days_before_year(y) + days_before_month(y, m) + d - 1 < days_before_year(y + 1),
{
    lemma_days_before_year_step(y);
}

proof fn lemma_days_before_year_monotonic(a: int, b: int)
    requires
        a <= b,
    ensures
        days_before_year(a) + 365 * (b - a) <= days_before_year(b),
    decreases b - a,
{
    if a < b {
        lemma_days_before_year_monotonic(a, b - 1);
        lemma_days_before_year_step(b - 1);
    }
}

/// Within one year, distinct valid dates have distinct day offsets, in order.
proof fn lemma_month_offsets_ordered(y: int, m1: int, d1: int, m2: int, d2: int)
    requires
        is_valid_date(y, m1, d1),
        is_valid_date(y, m2, d2),
        m1 < m2 || (m1 == m2 && d1 < d2),
    ensures
        days_before_month(y, m1) + d1 < days_before_month(y, m2) + d2,
{
}

/// Distinct valid dates have distinct epoch days: the calendar is one-to-one.
pub proof fn lemma_epoch_day_injective(y1: int, m1: int, d1: int, y2: int, m2: int, d2: int)
    requires
        is_valid_date(y1, m1, d1),
        is_valid_date(y2, m2, d2),
        epoch_day(y1, m1, d1) == epoch_day(y2, m2, d2),
    ensures
        y1 == y2 && m1 == m2 && d1 == d2,
{
    lemma_day_of_year_range(y1, m1, d1);
    lemma_day_of_year_range(y2, m2, d2);
    if y1 < y2 {
        lemma_days_before_year_monotonic(y1 + 1, y2);
    } else if y2 < y1 {
        lemma_days_before_year_monotonic(y2 + 1, y1);
    } else {
        if m1 < m2 || (m1 == m2 && d1 < d2) {
            lemma_month_offsets_ordered(y1, m1, d1, m2, d2);
        } else if m2 < m1 || (m1 == m2 && d2 < d1) {
            lemma_month_offsets_ordered(y1, m2, d2, m1, d1);
        }
    }
}

// ---------------------------------------------------------------------------
// The era-based algorithm (Howard Hinnant's), as a proof device
// ---------------------------------------------------------------------------

/// Days from the start of the era to the start of its March-based year `yoe`.
pub open spec fn era_year_start(yoe: int) -> int {
    365 * yoe + yoe / 4 - yoe / 100
}

/// The March-based year of an era that holds the era's day `doe`.
pub open spec fn yoe_of_doe(doe: int) -> int {
    (doe - doe / 1460 + doe / 36524 - doe / 146096) / 365
}

/// Days of the March-based year `yoe` (0-based within the era).
pub open spec fn era_year_len(yoe: int) -> int {
    if yoe == 399 { 366 } else { era_year_start(yoe + 1) - era_year_start(yoe) }
}

/// Days from March 1st to the first day of month index `mp` (0 = March).
pub open spec fn march_offset(mp: int) -> int {
    (153 * mp + 2) / 5
}

/// Month index (0 = March) holding the day `doy` of a March-based year.
pub open spec fn month_index_of(doy: int) -> int {
    (5 * doy + 2) / 153
}

pub proof fn lemma_yoe(doe: int)
    requires
        0 <= doe < 146097,
    ensures
        0 <= yoe_of_doe(doe) < 400,
        era_year_start(yoe_of_doe(doe)) <= doe < era_year_start(yoe_of_doe(doe)) + era_year_len(yoe_of_doe(doe)),
{
}

/// `365 * yr + yr / 4 - yr / 100 + yr / 400` split into era and year of era.
pub open spec fn march_count(yr: int) -> int {
    365 * yr + yr / 4 - yr / 100 + yr / 400
}

pub proof fn lemma_march_count_era(yr: int)
    ensures
        march_count(yr) == (yr / 400) * 146097 + era_year_start(yr % 400),
{
    let e = yr / 400;
    let k = yr % 400;
    assert(yr == 400 * e + k);
    assert(yr / 4 == 100 * e + k / 4);
    assert(yr / 100 == 4 * e + k / 100);
}

pub proof fn lemma_days_before_year_march(y: int)
    ensures
        days_before_year(y) == march_count(y - 1) + 366,
        march_count(y) - march_count(y - 1) == if is_leap_year(y) { 366int } else { 365int },
{
    assert((y + 3) / 4 == (y - 1) / 4 + 1);
    assert((y + 99) / 100 == (y - 1) / 100 + 1);
    assert((y + 399) / 400 == (y - 1) / 400 + 1);
    lemma_floor_step(y - 1, 4);
    lemma_floor_step(y - 1, 100);
    lemma_floor_step(y - 1, 400);
}

pub proof fn lemma_month_index(doy: int)
    requires
        0 <= doy < 366,
    ensures
        0 <= month_index_of(doy) < 12,
        march_offset(month_index_of(doy)) <= doy,
        doy < march_offset(month_index_of(doy) + 1) || month_index_of(doy) == 11,
{
}

/// The era-based reading of `epoch_day`: March-based year `yr`, month index
/// `mp` counted from March.
pub proof fn lemma_epoch_day_march(y: int, m: int, d: int)
    requires
        1 <= m <= 12,
    ensures
        epoch_day(y, m, d) == march_count(if m <= 2 { y - 1 } else { y }) + march_offset(
            if m > 2 { m - 3 } else { m + 9 },
        ) + d - 1 - 719468,
{
    lemma_days_before_year_march(y);
    assert(days_before_year(1970) == 719528);
}

/// Length of the March-based year `yoe` of era `era`: it holds the February
/// of Gregorian year `400 * era + yoe + 1`.
pub proof fn lemma_era_year_len(era: int, yoe: int)
    requires
        0 <= yoe < 400,
    ensures
        era_year_len(yoe) == if is_leap_year(400 * era + yoe + 1) { 366int } else { 365int },
{
    lemma_mod_era(era, yoe + 1);
    if yoe < 399 {
        lemma_floor_step(yoe, 4);
        lemma_floor_step(yoe, 100);
        assert(era_year_start(yoe + 1) - era_year_start(yoe) == 365 + (if (yoe + 1) % 4 == 0 {
            1int
        } else {
            0int
        }) - (if (yoe + 1) % 100 == 0 {
            1int
        } else {
            0int
        }));
    }
}

proof fn lemma_mod_era(era: int, k: int)
    ensures
        (400 * era + k) % 4 == k % 4,
        (400 * era + k) % 100 == k % 100,
        (400 * era + k) % 400 == k % 400,
{
}

/// Howard Hinnant's `civil_from_days`, over mathematical integers.
pub open spec fn era_civil(days: int) -> (int, int, int) {
    let z = days + 719468;
    let era = z / 146097;
    let doe = z % 146097;
    let yoe = yoe_of_doe(doe);
    let doy = doe - era_year_start(yoe);
    let mp = month_index_of(doy);
    let d = doy - march_offset(mp) + 1;
    let m = if mp < 10 { mp + 3 } else { mp - 9 };
    let y0 = yoe + era * 400;
    (if m <= 2 { y0 + 1 } else { y0 }, m, d)
}

/// The era-based algorithm yields a valid date with the requested epoch day.
pub proof fn lemma_era_civil(days: int)
    ensures
        is_valid_date(era_civil(days).0, era_civil(days).1, era_civil(days).2),
        epoch_day(era_civil(days).0, era_civil(days).1, era_civil(days).2) == days,
{
    let z = days + 719468;
    let era = z / 146097;
    let doe = z % 146097;
    let yoe = yoe_of_doe(doe);
    let doy = doe - era_year_start(yoe);
    let mp = month_index_of(doy);
    let d = doy - march_offset(mp) + 1;
    let m = if mp < 10 { mp + 3 } else { mp - 9 };
    let y0 = yoe + era * 400;
    let y = if m <= 2 { y0 + 1 } else { y0 };
    assert(era_civil(days) == (y, m, d));
    lemma_yoe(doe);
    lemma_era_year_len(era, yoe);
    lemma_month_index(doy);
    lemma_epoch_day_march(y, m, d);
    assert(y0 / 400 == era && y0 % 400 == yoe);
    lemma_march_count_era(y0);
    assert(is_valid_date(y, m, d));
}

/// Every day has a calendar date: `civil_of_day` is that date.
pub proof fn lemma_civil_of_day(days: int)
    ensures
        is_valid_date(civil_of_day(days).0, civil_of_day(days).1, civil_of_day(days).2),
        epoch_day(civil_of_day(days).0, civil_of_day(days).1, civil_of_day(days).2) == days,
        civil_of_day(days) == era_civil(days),
{
    lemma_era_civil(days);
    let t = era_civil(days);
    assert(is_valid_date(t.0, t.1, t.2) && epoch_day(t.0, t.1, t.2) == days);
    let c = civil_of_day(days);
    lemma_epoch_day_injective(c.0, c.1, c.2, t.0, t.1, t.2);
}

/// Counting days and naming them are inverse: a valid date's day count
/// names that date back.
pub proof fn lemma_civil_round_trip(y: int, m: int, d: int)
    requires
        is_valid_date(y, m, d),
    ensures
        civil_of_day(epoch_day(y, m, d)) == (y, m, d),
{
    let days = epoch_day(y, m, d);
    lemma_civil_of_day(days);
    let c = civil_of_day(days);
    lemma_epoch_day_injective(c.0, c.1, c.2, y, m, d);
}

/// `(y1, m1, d1)` comes before `(y2, m2, d2)` in the calendar.
pub open spec fn date_before(y1: int, m1: int, d1: int, y2: int, m2: int, d2: int) -> bool {
    y1 < y2 || (y1 == y2 && (m1 < m2 || (m1 == m2 && d1 < d2)))
}

/// Day counts follow the calendar: of two valid dates, the earlier has the
/// smaller epoch day.
pub proof fn lemma_epoch_day_ordered(y1: int, m1: int, d1: int, y2: int, m2: int, d2: int)
    requires
        is_valid_date(y1, m1, d1),
        is_valid_date(y2, m2, d2),
    ensures
        (epoch_day(y1, m1, d1) < epoch_day(y2, m2, d2)) == date_before(y1, m1, d1, y2, m2, d2),
{
    lemma_day_of_year_range(y1, m1, d1);
    lemma_day_of_year_range(y2, m2, d2);
    if y1 < y2 {
        lemma_days_before_year_monotonic(y1 + 1, y2);
    } else if y2 < y1 {
        lemma_days_before_year_monotonic(y2 + 1, y1);
    } else if m1 < m2 || (m1 == m2 && d1 < d2) {
        lemma_month_offsets_ordered(y1, m1, d1, m2, d2);
    } else if m2 < m1 || (m1 == m2 && d2 < d1) {
        lemma_month_offsets_ordered(y1, m2, d2, m1, d1);
    }
}

} // verus!
