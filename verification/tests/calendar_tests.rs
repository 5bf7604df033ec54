use openbse::calendar::{day_of_year, hour_stamp, month_day_from_hour, previous_hour, run_period};

const DIMS: [u32; 12] = [31, 28, 31, 30, 31, 30, 31, 31, 30, 31, 30, 31];

#[test]
fn day_of_year_first_and_last() {
    assert_eq!(day_of_year(1, 1, &DIMS), 0);
    assert_eq!(day_of_year(12, 31, &DIMS), 364);
}

#[test]
fn day_of_year_mid_year() {
    // March 1st follows 31 + 28 days.
    assert_eq!(day_of_year(3, 1, &DIMS), 59);
    assert_eq!(day_of_year(7, 4, &DIMS), 184);
}

#[test]
fn day_of_year_month_thirteen_counts_whole_year() {
    assert_eq!(day_of_year(13, 1, &DIMS), 365);
}

#[test]
fn month_day_from_hour_examples() {
    assert_eq!(month_day_from_hour(0, &DIMS), (1, 1));
    assert_eq!(month_day_from_hour(23, &DIMS), (1, 1));
    assert_eq!(month_day_from_hour(24, &DIMS), (1, 2));
    assert_eq!(month_day_from_hour(59 * 24, &DIMS), (3, 1));
    assert_eq!(month_day_from_hour(8759, &DIMS), (12, 31));
}

#[test]
fn month_day_from_hour_past_year_end() {
    assert_eq!(month_day_from_hour(8760, &DIMS), (12, 31));
    assert_eq!(month_day_from_hour(u32::MAX, &DIMS), (12, 31));
}

#[test]
fn month_day_skips_empty_months() {
    let dims: [u32; 12] = [2, 0, 3, 0, 0, 0, 0, 0, 0, 0, 0, 1];
    assert_eq!(month_day_from_hour(2 * 24, &dims), (3, 1));
    assert_eq!(month_day_from_hour(5 * 24, &dims), (12, 1));
    assert_eq!(month_day_from_hour(6 * 24, &dims), (12, 31));
}

#[test]
fn calendar_round_trip_whole_year() {
    for m in 1..=12u32 {
        for d in 1..=DIMS[(m - 1) as usize] {
            let doy = day_of_year(m, d, &DIMS);
            for h in [0u32, 11, 23] {
                assert_eq!(month_day_from_hour(doy * 24 + h, &DIMS), (m, d));
            }
        }
    }
    for hour in (0..8760u32).step_by(7) {
        let (m, d) = month_day_from_hour(hour, &DIMS);
        assert_eq!(day_of_year(m, d, &DIMS), hour / 24);
    }
}

#[test]
fn run_period_full_year() {
    assert_eq!(run_period(1, 1, 12, 31, 4, 8760, &DIMS), (0, 8760, 8760 * 4));
}

#[test]
fn run_period_cut_to_weather_data() {
    // July run, but only 5000 hours of weather
    let (start, end, total) = run_period(7, 1, 7, 31, 6, 5000, &DIMS);
    assert_eq!(start, 181 * 24);
    assert_eq!(end, 5000);
    assert_eq!(total, (5000 - 181 * 24) * 6);
}

#[test]
fn run_period_single_day() {
    assert_eq!(run_period(2, 1, 2, 1, 1, 8760, &DIMS), (31 * 24, 32 * 24, 24));
}

#[test]
fn hour_stamp_examples() {
    assert_eq!(hour_stamp(0, &DIMS), (1, 1, 1));
    assert_eq!(hour_stamp(23, &DIMS), (1, 1, 24));
    assert_eq!(hour_stamp(59 * 24 + 13, &DIMS), (3, 1, 14));
}

#[test]
fn previous_hour_wraps() {
    assert_eq!(previous_hour(5, 8760), 4);
    assert_eq!(previous_hour(0, 8760), 8759);
    assert_eq!(previous_hour(0, 168), 167);
}
