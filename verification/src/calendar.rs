//! Calendar arithmetic over a table of month lengths.
//!
//! The simulation clock counts hours from January 1st, 00:00.  These
//! functions convert between (month, day) pairs and day-of-year / hour-of-year
//! indices for a given table of days in each month.

use vstd::prelude::*;

verus! {

/// Number of days in the first `k` months of `dims`.
pub open spec fn days_before(dims: Seq<u32>, k: int) -> int
    decreases k,
{
    if k <= 0 || dims.len() == 0 {
        0
    } else {
        days_before(dims, k - 1) + dims[k - 1] as int
    }
}

/// Zero-based day of the year of day `day` (1-based) of month `month` (1-based).
pub open spec fn day_of_year_spec(month: int, day: int, dims: Seq<u32>) -> int {
    days_before(dims, month - 1) + day - 1
}

/// The (month, day) pair, both 1-based, of zero-based day `doy` when walking
/// the month table from month `m` with `rem` days still to place.
pub open spec fn month_day_walk(dims: Seq<u32>, m: int, rem: int) -> (int, int)
    decreases 12 - m,
{
    if m >= 12 || m < 0 {
        (12, 31)
    } else if rem < dims[m] {
        (m + 1, rem + 1)
    } else {
        month_day_walk(dims, m + 1, rem - dims[m])
    }
}

/// The (month, day) pair that contains zero-based day-of-year `doy`;
/// `(12, 31)` when the table ends before that day.
pub open spec fn month_day_spec(doy: int, dims: Seq<u32>) -> (int, int) {
    month_day_walk(dims, 0, doy)
}

/// Partial sums of month lengths never decrease.
pub proof fn lemma_days_before_monotone(dims: Seq<u32>, i: int, j: int)
    requires
        0 <= i <= j <= dims.len(),
    ensures
        days_before(dims, i) <= days_before(dims, j),
    decreases j - i,
{
    if i < j {
        lemma_days_before_monotone(dims, i, j - 1);
    }
}

/// The month walk started at month `m` with `rem` remaining days lands in
/// the month whose day interval holds `days_before(m) + rem`.
proof fn lemma_walk_interval(dims: Seq<u32>, m: int, rem: int)
    requires
        dims.len() == 12,
        0 <= m <= 12,
        0 <= rem,
    ensures
        ({
            let d = days_before(dims, m) + rem;
            let r = month_day_walk(dims, m, rem);
            &&& d < days_before(dims, 12) ==> {
                &&& m + 1 <= r.0 <= 12
                &&& days_before(dims, r.0 - 1) <= d < days_before(dims, r.0)
                &&& r.1 == d - days_before(dims, r.0 - 1) + 1
            }
            &&& d >= days_before(dims, 12) ==> r == (12int, 31int)
        }),
    decreases 12 - m,
{
    if m < 12 {
        if rem >= dims[m] {
            lemma_walk_interval(dims, m + 1, rem - dims[m]);
        } else {
            lemma_days_before_monotone(dims, m + 1, 12);
        }
    }
}

/// A day index falls in exactly one month interval of the table.
proof fn lemma_interval_unique(dims: Seq<u32>, d: int, a: int, b: int)
    requires
        dims.len() == 12,
        1 <= a <= 12,
        1 <= b <= 12,
        days_before(dims, a - 1) <= d < days_before(dims, a),
        days_before(dims, b - 1) <= d < days_before(dims, b),
    ensures
        a == b,
{
    if a < b {
        lemma_days_before_monotone(dims, a, b - 1);
    } else if b < a {
        lemma_days_before_monotone(dims, b, a - 1);
    }
}

/// Interval form of [`month_day_spec`]: inside the year the result is the
/// unique month whose day range holds `doy`, outside it is `(12, 31)`.
pub proof fn lemma_month_day_interval(doy: int, dims: Seq<u32>)
    requires
        dims.len() == 12,
        0 <= doy,
    ensures
        ({
            let r = month_day_spec(doy, dims);
            &&& doy < days_before(dims, 12) ==> {
                &&& 1 <= r.0 <= 12
                &&& days_before(dims, r.0 - 1) <= doy < days_before(dims, r.0)
                &&& r.1 == doy - days_before(dims, r.0 - 1) + 1
            }
            &&& doy >= days_before(dims, 12) ==> r == (12int, 31int)
        }),
{
    lemma_walk_interval(dims, 0, doy);
}

/// Zero-based day of the year for a 1-based `month` and `day`, given the
/// number of days in each month.
pub fn day_of_year(month: u32, day: u32, dims: &[u32; 12]) -> (doy: u32)
    requires
        1 <= month <= 13,
        1 <= days_before(dims@, month - 1) + day <= u32::MAX,
    ensures
        doy == day_of_year_spec(month as int, day as int, dims@),
{
    let mut doy: u32 = 0;
    let last: usize = (month - 1) as usize;
    let mut m: usize = 0;
    while m < last
        invariant
            last == month - 1,
            m <= last <= 12,
            dims@.len() == 12,
            doy == days_before(dims@, m as int),
            days_before(dims@, last as int) + day <= u32::MAX,
        decreases last - m,
    {
        proof {
            lemma_days_before_monotone(dims@, (m + 1) as int, last as int);
        }
        doy = doy + dims[m];
        m = m + 1;
    }
    doy + day - 1
}

/// (month, day), both 1-based, of the day that contains `hour_of_year`
/// (zero-based hours from January 1st); `(12, 31)` past the end of the table.
pub fn month_day_from_hour(hour_of_year: u32, dims: &[u32; 12]) -> (md: (u32, u32))
    ensures
        md.0 as int == month_day_spec(hour_of_year as int / 24, dims@).0,
        md.1 as int == month_day_spec(hour_of_year as int / 24, dims@).1,
{
    let day_of_year: u32 = hour_of_year / 24;
    let mut remaining: u32 = day_of_year;
    let mut m: usize = 0;
    while m < 12
        invariant
            m <= 12,
            dims@.len() == 12,
            day_of_year == hour_of_year / 24,
            month_day_walk(dims@, m as int, remaining as int) == month_day_spec(
                day_of_year as int,
                dims@,
            ),
        decreases 12 - m,
    {
        let days = dims[m];
        if remaining < days {
            return ((m + 1) as u32, remaining + 1);
        }
        remaining = remaining - days;
        m = m + 1;
    }
    (12, 31)
}

/// Simulated period for a run from (`start_month`, `start_day`) through
/// (`end_month`, `end_day`) inclusive, over a weather file holding
/// `weather_hours` hourly records: the first hour, the hour after the last
/// one (cut back to the end of the weather data), and the number of
/// timesteps in between.
pub fn run_period(
    start_month: u32,
    start_day: u32,
    end_month: u32,
    end_day: u32,
    timesteps_per_hour: u32,
    weather_hours: u32,
    dims: &[u32; 12],
) -> (r: (u32, u32, u32))
    requires
        1 <= start_month <= 13,
        1 <= days_before(dims@, start_month - 1) + start_day <= u32::MAX,
        1 <= end_month <= 13,
        1 <= days_before(dims@, end_month - 1) + end_day <= u32::MAX,
        day_of_year_spec(start_month as int, start_day as int, dims@) * 24 <= u32::MAX,
        (day_of_year_spec(end_month as int, end_day as int, dims@) + 1) * 24 <= u32::MAX,
        day_of_year_spec(start_month as int, start_day as int, dims@) * 24 <= min_int(
            (day_of_year_spec(end_month as int, end_day as int, dims@) + 1) * 24,
            weather_hours as int,
        ),
        (min_int(
            (day_of_year_spec(end_month as int, end_day as int, dims@) + 1) * 24,
            weather_hours as int,
        ) - day_of_year_spec(start_month as int, start_day as int, dims@) * 24)
            * timesteps_per_hour <= u32::MAX,
    ensures
        r.0 == day_of_year_spec(start_month as int, start_day as int, dims@) * 24,
        r.1 == min_int(
            (day_of_year_spec(end_month as int, end_day as int, dims@) + 1) * 24,
            weather_hours as int,
        ),
        r.2 == (r.1 - r.0) * timesteps_per_hour,
{
    let start_hour = day_of_year(start_month, start_day, dims) * 24;
    let mut end_hour = (day_of_year(end_month, end_day, dims) + 1) * 24;
    if weather_hours < end_hour {
        end_hour = weather_hours;
    }
    let total = (end_hour - start_hour) * timesteps_per_hour;
    (start_hour, end_hour, total)
}

/// Smaller of two integers.
pub open spec fn min_int(a: int, b: int) -> int {
    if a <= b {
        a
    } else {
        b
    }
}

/// Calendar stamp of simulation hour `hour_of_year`: its (month, day) and
/// its 1-based hour of the day.
pub fn hour_stamp(hour_of_year: u32, dims: &[u32; 12]) -> (s: (u32, u32, u32))
    ensures
        s.0 as int == month_day_spec(hour_of_year as int / 24, dims@).0,
        s.1 as int == month_day_spec(hour_of_year as int / 24, dims@).1,
        s.2 == hour_of_year % 24 + 1,
{
    let (month, day) = month_day_from_hour(hour_of_year, dims);
    (month, day, hour_of_year % 24 + 1)
}

/// Index of the weather record before `hour_index`, wrapping from the first
/// record to the last of `n_hours` records.
pub fn previous_hour(hour_index: u32, n_hours: u32) -> (p: u32)
    requires
        hour_index > 0 || n_hours > 0,
    ensures
        hour_index > 0 ==> p == hour_index - 1,
        hour_index == 0 ==> p == n_hours - 1,
{
    if hour_index > 0 {
        hour_index - 1
    } else {
        n_hours - 1
    }
}

/// Hour-of-year of any hour on a valid calendar date maps back to that date.
pub proof fn law_month_day_inverts_day_of_year(month: int, day: int, hour: int, dims: Seq<u32>)
    requires
        dims.len() == 12,
        1 <= month <= 12,
        1 <= day <= dims[month - 1],
        0 <= hour < 24,
    ensures
        month_day_spec(
            (day_of_year_spec(month, day, dims) * 24 + hour) / 24,
            dims,
        ) == (month, day),
{
    let doy = day_of_year_spec(month, day, dims);
    assert((doy * 24 + hour) / 24 == doy) by (nonlinear_arith)
        requires
            0 <= hour < 24,
    ;
    lemma_days_before_monotone(dims, 0, month - 1);
    lemma_month_day_interval(doy, dims);
    lemma_days_before_monotone(dims, month, 12);
    let r = month_day_spec(doy, dims);
    lemma_interval_unique(dims, doy, r.0, month);
}

/// The date found for an hour inside the year is a valid date whose
/// day of year is that hour's day.
pub proof fn law_day_of_year_inverts_month_day(hour: int, dims: Seq<u32>)
    requires
        dims.len() == 12,
        0 <= hour,
        hour / 24 < days_before(dims, 12),
    ensures
        ({
            let r = month_day_spec(hour / 24, dims);
            &&& 1 <= r.0 <= 12
            &&& 1 <= r.1 <= dims[r.0 - 1]
            &&& day_of_year_spec(r.0, r.1, dims) == hour / 24
        }),
{
    lemma_month_day_interval(hour / 24, dims);
}

} // verus!
