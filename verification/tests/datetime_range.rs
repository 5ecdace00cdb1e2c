use polars_kernels::range::datetime_range::{
    check_row_interval, date_ranges_interval, datetime_parts, datetime_ranges_interval,
    dt_range_start_end_interval, range_bounds, range_interval, ranges_interval,
    ranges_values_capacity, ClosedWindow, DateRangeArgs, RangeRequest, Duration, RangeError, RangesInterval, TemporalType,
    TimeUnit,
};

fn days(n: i64) -> Duration {
    Duration { months: 0, weeks: 0, days: n, nsecs: 0, negative: false }
}

fn hours(n: i64) -> Duration {
    Duration { months: 0, weeks: 0, days: 0, nsecs: n * 3_600_000_000_000, negative: false }
}

#[test]
fn fixed_interval_is_passed_through() {
    assert_eq!(range_interval(DateRangeArgs::StartEndInterval, Some(days(2))), days(2));
}

#[test]
fn ranges_pick_dynamic_or_fixed_interval() {
    assert_eq!(
        ranges_interval(DateRangeArgs::StartEndInterval, None, 3, true),
        RangesInterval::Dynamic { require_full_days: true }
    );
    assert_eq!(
        ranges_interval(DateRangeArgs::StartEndInterval, Some(hours(1)), 3, false),
        RangesInterval::Fixed(hours(1))
    );
    assert_eq!(
        ranges_interval(DateRangeArgs::StartEndInterval, Some(days(1)), 2, true),
        RangesInterval::Fixed(days(1))
    );
}

#[test]
fn non_datetime_bounds_are_refused() {
    assert_eq!(
        datetime_parts(&TemporalType::Datetime(TimeUnit::Milliseconds, Some("UTC".to_string()))),
        Ok((TimeUnit::Milliseconds, Some("UTC".to_string())))
    );
    assert_eq!(
        datetime_parts(&TemporalType::Date),
        Err(RangeError::ExpectedDatetime(TemporalType::Date))
    );
    assert_eq!(
        datetime_parts(&TemporalType::Other),
        Err(RangeError::ExpectedDatetime(TemporalType::Other))
    );
}

#[test]
fn out_of_range_bounds_are_refused_start_first() {
    assert_eq!(range_bounds(Some(1), Some(5)), Ok((1, 5)));
    assert_eq!(range_bounds(None, None), Err(RangeError::StartOutOfRange));
    assert_eq!(range_bounds(Some(1), None), Err(RangeError::EndOutOfRange));
}

#[test]
fn date_ranges_require_full_days() {
    assert_eq!(check_row_interval(&days(1), "1d", true), Ok(()));
    assert_eq!(check_row_interval(&hours(5), "5h", false), Ok(()));
    assert_eq!(
        check_row_interval(&hours(5), "5h", true),
        Err(RangeError::IntervalNotFullDays("5h".to_string()))
    );
    assert!(days(3).is_full_days());
    assert!(!hours(24).is_full_days());
}

#[test]
fn builder_capacity_is_five_values_per_row() {
    assert_eq!(ranges_values_capacity(4), 20);
    assert_eq!(ranges_values_capacity(0), 0);
}

#[test]
fn single_range_checks_type_then_bounds() {
    let dt = TemporalType::Datetime(TimeUnit::Microseconds, None);
    assert_eq!(
        dt_range_start_end_interval(
            "start",
            &dt,
            Some(0),
            Some(86_400_000_000),
            days(1),
            ClosedWindow::Both
        ),
        Ok(RangeRequest {
            name: "start".to_string(),
            start: 0,
            end: 86_400_000_000,
            interval: days(1),
            time_unit: TimeUnit::Microseconds,
            time_zone: None,
            closed: ClosedWindow::Both,
        })
    );
    assert_eq!(
        dt_range_start_end_interval("start", &TemporalType::Date, None, None, days(1), ClosedWindow::Left),
        Err(RangeError::ExpectedDatetime(TemporalType::Date))
    );
    assert_eq!(
        dt_range_start_end_interval("start", &dt, None, Some(1), days(1), ClosedWindow::Left),
        Err(RangeError::StartOutOfRange)
    );
    assert_eq!(
        dt_range_start_end_interval("start", &dt, Some(1), None, days(1), ClosedWindow::Left),
        Err(RangeError::EndOutOfRange)
    );
}

#[test]
fn closed_window_and_name_are_handed_on() {
    let dt = TemporalType::Datetime(TimeUnit::Nanoseconds, Some("UTC".to_string()));
    let req = dt_range_start_end_interval("ts", &dt, Some(5), Some(9), hours(1), ClosedWindow::Neither)
        .unwrap();
    assert_eq!(req.name, "ts");
    assert_eq!(req.closed, ClosedWindow::Neither);
    assert_eq!(req.time_zone, Some("UTC".to_string()));
    let req = dt_range_start_end_interval("ts", &dt, Some(5), Some(9), hours(1), ClosedWindow::Right)
        .unwrap();
    assert_eq!(req.closed, ClosedWindow::Right);
}

#[test]
fn only_date_ranges_require_full_days() {
    assert_eq!(
        date_ranges_interval(DateRangeArgs::StartEndInterval, None, 3),
        RangesInterval::Dynamic { require_full_days: true }
    );
    assert_eq!(
        datetime_ranges_interval(DateRangeArgs::StartEndInterval, None, 3),
        RangesInterval::Dynamic { require_full_days: false }
    );
    assert_eq!(
        date_ranges_interval(DateRangeArgs::StartEndInterval, Some(days(2)), 3),
        RangesInterval::Fixed(days(2))
    );
    assert_eq!(
        datetime_ranges_interval(DateRangeArgs::StartEndInterval, Some(hours(2)), 2),
        RangesInterval::Fixed(hours(2))
    );
}
