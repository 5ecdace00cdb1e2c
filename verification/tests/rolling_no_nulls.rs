use polars_kernels::min_max::Scalar;
use polars_kernels::rolling::no_nulls::arg_min_max::{rolling_argmax, rolling_argmin};

fn vals(xs: &[i128]) -> Vec<Scalar> {
    xs.iter().map(|&x| Scalar::Value(x)).collect()
}

#[test]
fn test_no_nulls_rolling_argmax() {
    let values = vals(&[1, 5, 3, 4, 2]);
    let out = rolling_argmax(&values, 3, 3, false);
    assert_eq!(out, &[None, None, Some(1), Some(0), Some(1)]);
}

#[test]
fn test_no_nulls_rolling_argmin() {
    let values = vals(&[1, 5, 3, 4, 2]);
    let out = rolling_argmin(&values, 3, 3, false);
    assert_eq!(out, &[None, None, Some(0), Some(1), Some(2)]);
}

#[test]
fn test_no_nulls_rolling_argmax_min_periods_1() {
    let values = vals(&[1, 5, 3, 4, 2]);
    let out = rolling_argmax(&values, 3, 1, false);
    assert_eq!(out, &[Some(0), Some(1), Some(1), Some(0), Some(1)]);
}

#[test]
fn test_no_nulls_rolling_argmax_centered() {
    let values = vals(&[1, 5, 3, 4, 2]);
    let out = rolling_argmax(&values, 3, 1, true);
    assert_eq!(out, &[Some(1), Some(1), Some(0), Some(1), Some(0)]);
}

#[test]
fn no_nulls_empty_input() {
    assert_eq!(rolling_argmax(&[], 3, 1, false), Vec::<Option<u32>>::new());
    assert_eq!(rolling_argmin(&[], 3, 1, true), Vec::<Option<u32>>::new());
}

#[test]
fn no_nulls_min_periods_zero_and_large_window() {
    let values = vals(&[4, 1, 4, 0]);
    assert_eq!(
        rolling_argmin(&values, 10, 0, false),
        &[Some(0), Some(1), Some(1), Some(3)]
    );
    assert_eq!(
        rolling_argmax(&values, 10, 0, false),
        &[Some(0), Some(0), Some(0), Some(0)]
    );
}

#[test]
fn no_nulls_min_periods_above_window_size() {
    // The single pass over trailing windows only nulls the first
    // `min_periods - 1` rows.
    let values = vals(&[1, 3, 2, 5, 4]);
    assert_eq!(
        rolling_argmax(&values, 2, 3, false),
        &[None, None, Some(0), Some(1), Some(0)]
    );
}

#[test]
fn no_nulls_nan_is_smallest_for_argmin() {
    let values = vec![Scalar::Value(1), Scalar::Nan, Scalar::Value(-3), Scalar::Nan];
    assert_eq!(
        rolling_argmin(&values, 2, 1, false),
        &[Some(0), Some(1), Some(0), Some(1)]
    );
}

#[test]
fn no_nulls_negative_values_and_ties() {
    let values = vals(&[-5, -2, -2, -7, -2]);
    assert_eq!(
        rolling_argmax(&values, 3, 1, false),
        &[Some(0), Some(1), Some(1), Some(0), Some(0)]
    );
    assert_eq!(
        rolling_argmin(&values, 3, 2, true),
        &[Some(0), Some(0), Some(2), Some(1), Some(0)]
    );
}
