use polars_kernels::min_max::Scalar;
use polars_kernels::rolling::no_nulls::arg_min_max as no_nulls;
use polars_kernels::rolling::nulls::arg_min_max as nulls;

fn vals(xs: &[i128]) -> Vec<Scalar> {
    xs.iter().map(|&x| Scalar::Value(x)).collect()
}

#[test]
fn test_rolling_argmin_argmax() {
    let s = vals(&[1, 5, 3, 4, 2]);

    // rolling_argmax, window=3, min_periods=3
    let a = no_nulls::rolling_argmax(&s, 3, 3, false);
    assert_eq!(a, &[None, None, Some(1), Some(0), Some(1)]);

    // rolling_argmin, window=3, min_periods=3
    let a = no_nulls::rolling_argmin(&s, 3, 3, false);
    assert_eq!(a, &[None, None, Some(0), Some(1), Some(2)]);
}

#[test]
fn test_rolling_argmax_min_periods() {
    let s = vals(&[1, 5, 3, 4, 2]);
    let a = no_nulls::rolling_argmax(&s, 3, 1, false);
    assert_eq!(a, &[Some(0), Some(1), Some(1), Some(0), Some(1)]);
}

#[test]
fn rolling_window_test_rolling_argmax_centered() {
    let s = vals(&[1, 5, 3, 4, 2]);
    let a = no_nulls::rolling_argmax(&s, 3, 1, true);
    assert_eq!(a, &[Some(1), Some(1), Some(0), Some(1), Some(0)]);
}

#[test]
fn rolling_window_test_rolling_argmax_with_nulls() {
    let s = vals(&[1, 0, 3, 2, 5]);
    let validity = [true, false, true, true, true];
    let a = nulls::rolling_argmax(&s, &validity, 3, 2, false);
    // window[0..3] = [1.0, null, 3.0], valid=[1.0, 3.0] -> argmax=2 (3.0 at pos 2)
    // window[1..4] = [null, 3.0, 2.0], valid=[3.0, 2.0] -> argmax=1 (3.0 at pos 1)
    // window[2..5] = [3.0, 2.0, 5.0], valid=[3.0, 2.0, 5.0] -> argmax=2 (5.0 at pos 2)
    assert_eq!(a, &[None, None, Some(2), Some(1), Some(2)]);
}

#[test]
fn test_rolling_argmin_argmax_consistency() {
    // Verify that values[start + argmax] == rolling_max
    let values: [i128; 10] = [2, 7, 1, 8, 3, 6, 4, 9, 5, 0];
    let s = vals(&values);

    let argmax = no_nulls::rolling_argmax(&s, 4, 4, false);
    let max_val: Vec<Option<i128>> = (0..values.len())
        .map(|i| {
            if i + 1 < 4 {
                None
            } else {
                values[i + 1 - 4..=i].iter().copied().max()
            }
        })
        .collect();

    for i in 0..values.len() {
        if let (Some(idx), Some(expected_max)) = (argmax[i], max_val[i]) {
            let window_start = i.saturating_sub(3); // window_size - 1
            let actual = values[window_start + idx as usize];
            assert_eq!(
                actual, expected_max,
                "at i={i}: values[{window_start} + {idx}] = {actual} != rolling_max = {expected_max}"
            );
        }
    }
}
