//! What the date / datetime range expressions decide from their arguments
//! before any range is generated.

use vstd::prelude::*;

verus! {

/// Range values per row that a list builder reserves room for.
pub const CAPACITY_FACTOR: usize = 5;

/// Which arguments a range expression was given.
#[derive(Clone, Copy, Debug, PartialEq, Eq)]
pub enum DateRangeArgs {
    StartEndInterval,
    StartEndSamples,
    StartIntervalSamples,
    EndIntervalSamples,
}

/// The unit of a datetime.
#[derive(Clone, Copy, Debug, PartialEq, Eq)]
pub enum TimeUnit {
    Nanoseconds,
    Microseconds,
    Milliseconds,
}

/// The logical type of a range bound, as far as the range expressions read
/// it.
#[derive(Clone, Debug, PartialEq, Eq)]
pub enum TemporalType {
    Date,
    Datetime(TimeUnit, Option<String>),
    Other,
}

/// A calendar duration: months, weeks, days and a fixed number of
/// nanoseconds.
#[derive(Clone, Copy, Debug, PartialEq, Eq)]
pub struct Duration {
    pub months: i64,
    pub weeks: i64,
    pub days: i64,
    pub nsecs: i64,
    pub negative: bool,
}

impl Duration {
    /// The duration holds no part smaller than a day.
    pub open spec fn spec_is_full_days(&self) -> bool {
        self.nsecs == 0
    }

    /// Whether the duration holds no part smaller than a day.
    pub fn is_full_days(&self) -> (r: bool)
        ensures
            r == self.spec_is_full_days(),
    {
        self.nsecs == 0
    }
}

/// Which ends of a range are included.
#[derive(Clone, Copy, Debug, PartialEq, Eq)]
pub enum ClosedWindow {
    /// The start is included, the end is not.
    Left,
    /// The end is included, the start is not.
    Right,
    /// Both ends are included.
    Both,
    /// Neither end is included.
    Neither,
}

/// A duration consists of full days exactly when it has no part smaller
/// than a day: months, weeks and days are all whole days, so a `1mo` or
/// `2w` interval is accepted where full days are required, and any
/// sub-day part is refused.
pub proof fn law_full_days_iff_no_subday_part(d: Duration)
    ensures
        d.spec_is_full_days() <==> d.nsecs == 0,
{
}

/// Whether a duration consists of full days does not depend on its months,
/// weeks, days or sign.
pub proof fn law_full_days_ignores_calendar_parts(d1: Duration, d2: Duration)
    requires
        d1.nsecs == d2.nsecs,
    ensures
        d1.spec_is_full_days() == d2.spec_is_full_days(),
{
}

/// Why a range expression refuses its arguments.
#[derive(Clone, Debug, PartialEq, Eq)]
pub enum RangeError {
    /// The bounds are not datetimes.
    ExpectedDatetime(TemporalType),
    /// The start bound does not fit the datetime range.
    StartOutOfRange,
    /// The end bound does not fit the datetime range.
    EndOutOfRange,
    /// `date_ranges` was given a per-row interval with a part smaller than
    /// a day; the interval as written.
    IntervalNotFullDays(String),
}

/// Where the interval of a `*_ranges` expression comes from.
#[derive(Clone, Copy, Debug, PartialEq, Eq)]
pub enum RangesInterval {
    /// A per-row interval column, checked for full days when asked.
    Dynamic { require_full_days: bool },
    /// One interval for every row.
    Fixed(Duration),
}

/// The interval of a `date_range` / `datetime_range` expression: only
/// start-end-interval arguments are supported, and the interval is given.
pub fn range_interval(arg_type: DateRangeArgs, interval: Option<Duration>) -> (d: Duration)
    requires
        arg_type == DateRangeArgs::StartEndInterval,
        interval is Some,
    ensures
        d == interval->0,
{
    match arg_type {
        DateRangeArgs::StartEndInterval => interval.unwrap(),
        DateRangeArgs::StartEndSamples
        | DateRangeArgs::StartIntervalSamples
        | DateRangeArgs::EndIntervalSamples => unreached(),
    }
}

/// The interval of a `date_ranges` / `datetime_ranges` expression over
/// `n_inputs` columns: without a fixed interval and with a third column, a
/// per-row interval (that `date_ranges` requires in full days); otherwise
/// the fixed interval.
pub fn ranges_interval(
    arg_type: DateRangeArgs,
    interval: Option<Duration>,
    n_inputs: usize,
    require_full_days: bool,
) -> (r: RangesInterval)
    requires
        arg_type == DateRangeArgs::StartEndInterval,
        interval is Some || n_inputs >= 3,
    ensures
        interval is None && n_inputs >= 3 ==> r == (RangesInterval::Dynamic { require_full_days }),
        !(interval is None && n_inputs >= 3) ==> r == RangesInterval::Fixed(interval->0),
{
    if interval.is_none() && n_inputs >= 3 {
        RangesInterval::Dynamic { require_full_days }
    } else {
        RangesInterval::Fixed(interval.unwrap())
    }
}

/// The interval of a `date_ranges` expression: a per-row interval must
/// consist of full days.
pub fn date_ranges_interval(
    arg_type: DateRangeArgs,
    interval: Option<Duration>,
    n_inputs: usize,
) -> (r: RangesInterval)
    requires
        arg_type == DateRangeArgs::StartEndInterval,
        interval is Some || n_inputs >= 3,
    ensures
        interval is None && n_inputs >= 3 ==> r == (RangesInterval::Dynamic {
            require_full_days: true,
        }),
        !(interval is None && n_inputs >= 3) ==> r == RangesInterval::Fixed(interval->0),
{
    ranges_interval(arg_type, interval, n_inputs, true)
}

/// The interval of a `datetime_ranges` expression: a per-row interval may
/// hold parts smaller than a day.
pub fn datetime_ranges_interval(
    arg_type: DateRangeArgs,
    interval: Option<Duration>,
    n_inputs: usize,
) -> (r: RangesInterval)
    requires
        arg_type == DateRangeArgs::StartEndInterval,
        interval is Some || n_inputs >= 3,
    ensures
        interval is None && n_inputs >= 3 ==> r == (RangesInterval::Dynamic {
            require_full_days: false,
        }),
        !(interval is None && n_inputs >= 3) ==> r == RangesInterval::Fixed(interval->0),
{
    ranges_interval(arg_type, interval, n_inputs, false)
}

/// The time unit and time zone of datetime bounds; any other type is
/// refused.
pub fn datetime_parts(dtype: &TemporalType) -> (r: Result<(TimeUnit, Option<String>), RangeError>)
    ensures
        *dtype matches TemporalType::Datetime(tu, tz) ==> r == Ok::<
            (TimeUnit, Option<String>),
            RangeError,
        >((tu, tz)),
        !(dtype is Datetime) ==> r == Err::<(TimeUnit, Option<String>), RangeError>(
            RangeError::ExpectedDatetime(*dtype),
        ),
{
    match dtype {
        TemporalType::Datetime(tu, tz) => {
            let tz2 = match tz {
                Some(s) => Some(s.clone()),
                None => None,
            };
            Ok((*tu, tz2))
        },
        TemporalType::Date => Err(RangeError::ExpectedDatetime(TemporalType::Date)),
        TemporalType::Other => Err(RangeError::ExpectedDatetime(TemporalType::Other)),
    }
}

/// The start and end of a single range, as physical values; a bound that
/// has none (it lies out of the datetime range) is refused, the start
/// first.
pub fn range_bounds(start: Option<i64>, end: Option<i64>) -> (r: Result<(i64, i64), RangeError>)
    ensures
        start is None ==> r == Err::<(i64, i64), RangeError>(RangeError::StartOutOfRange),
        start is Some && end is None ==> r == Err::<(i64, i64), RangeError>(
            RangeError::EndOutOfRange,
        ),
        start is Some && end is Some ==> r == Ok::<(i64, i64), RangeError>(
            (start->0, end->0),
        ),
{
    let s = match start {
        Some(s) => s,
        None => {
            return Err(RangeError::StartOutOfRange);
        },
    };
    let e = match end {
        Some(e) => e,
        None => {
            return Err(RangeError::EndOutOfRange);
        },
    };
    Ok((s, e))
}

/// What a single datetime range is generated from.
#[derive(Clone, Debug, PartialEq, Eq)]
pub struct RangeRequest {
    pub name: String,
    pub start: i64,
    pub end: i64,
    pub interval: Duration,
    pub time_unit: TimeUnit,
    pub time_zone: Option<String>,
    pub closed: ClosedWindow,
}

/// The arguments of a single datetime range named `name` (the start
/// column's name) from bounds of type `dtype` with physical values `start`
/// and `end`: the bounds must be datetimes, then the start, then the end,
/// must lie in the datetime range.
pub fn dt_range_start_end_interval(
    name: &str,
    dtype: &TemporalType,
    start: Option<i64>,
    end: Option<i64>,
    interval: Duration,
    closed: ClosedWindow,
) -> (r: Result<RangeRequest, RangeError>)
    ensures
        !(dtype is Datetime) ==> r == Err::<RangeRequest, RangeError>(
            RangeError::ExpectedDatetime(*dtype),
        ),
        dtype is Datetime && start is None ==> r == Err::<RangeRequest, RangeError>(
            RangeError::StartOutOfRange,
        ),
        dtype is Datetime && start is Some && end is None ==> r == Err::<
            RangeRequest,
            RangeError,
        >(RangeError::EndOutOfRange),
        *dtype matches TemporalType::Datetime(tu, tz) ==> (start is Some && end is Some ==> (r
            matches Ok(req) && req.name@ == name@ && req.start == start->0 && req.end == end->0
            && req.interval == interval && req.time_unit == tu && req.time_zone == tz
            && req.closed == closed)),
{
    let (time_unit, time_zone) = match datetime_parts(dtype) {
        Ok(parts) => parts,
        Err(e) => {
            return Err(e);
        },
    };
    let (start, end) = match range_bounds(start, end) {
        Ok(bounds) => bounds,
        Err(e) => {
            return Err(e);
        },
    };
    let name = name.to_owned();
    Ok(RangeRequest { name, start, end, interval, time_unit, time_zone, closed })
}

/// Checks a per-row interval: when full days are required, an interval with
/// a part smaller than a day is refused, naming the interval as written.
pub fn check_row_interval(
    interval: &Duration,
    interval_str: &str,
    require_full_days: bool,
) -> (r: Result<(), RangeError>)
    ensures
        require_full_days && !interval.spec_is_full_days() ==> (r matches Err(
            RangeError::IntervalNotFullDays(s),
        ) && s@ == interval_str@),
        !(require_full_days && !interval.spec_is_full_days()) ==> r is Ok,
{
    if require_full_days && !interval.is_full_days() {
        return Err(RangeError::IntervalNotFullDays(interval_str.to_owned()));
    }
    Ok(())
}

/// The number of range values a list builder reserves room for, given the
/// number of rows.
pub fn ranges_values_capacity(n_rows: usize) -> (c: usize)
    requires
        n_rows * CAPACITY_FACTOR <= usize::MAX,
    ensures
        c == n_rows * CAPACITY_FACTOR,
{
    n_rows * CAPACITY_FACTOR
}

} // verus!
