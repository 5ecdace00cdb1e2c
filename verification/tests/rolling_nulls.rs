use polars_kernels::min_max::Scalar;
use polars_kernels::rolling::nulls::arg_min_max::{rolling_argmax, rolling_argmin};

fn vals(xs: &[i128]) -> Vec<Scalar> {
    xs.iter().map(|&x| Scalar::Value(x)).collect()
}

#[test]
fn nulls_rolling_argmin_trailing() {
    let values = vals(&[1, 0, 3, 2, 9]);
    let validity = [true, false, true, true, false];
    assert_eq!(
        rolling_argmin(&values, &validity, 3, 1, false),
        &[Some(0), Some(0), Some(0), Some(2), Some(1)]
    );
}

#[test]
fn nulls_all_null_window_is_none_even_with_zero_min_periods() {
    let values = vals(&[1, 2, 3]);
    let validity = [false, false, true];
    assert_eq!(
        rolling_argmax(&values, &validity, 2, 0, false),
        &[None, None, Some(1)]
    );
}

#[test]
fn nulls_centered_window() {
    let values = vals(&[1, 5, 3, 4, 2]);
    let validity = [true, false, true, true, true];
    assert_eq!(
        rolling_argmax(&values, &validity, 3, 1, true),
        &[Some(0), Some(2), Some(2), Some(1), Some(0)]
    );
}

#[test]
fn nulls_null_nan_is_ignored() {
    let values = vec![Scalar::Value(1), Scalar::Nan, Scalar::Value(2)];
    let validity = [true, false, true];
    assert_eq!(
        rolling_argmax(&values, &validity, 3, 1, false),
        &[Some(0), Some(0), Some(2)]
    );
}
