use polars_kernels::min_max::{MaxPropagateNan, MinPropagateNan, Scalar};
use polars_kernels::rolling::nulls::rolling_apply_agg_window as rolling_apply_agg_window_nulls;
use polars_kernels::rolling::no_nulls::rolling_apply_agg_window;
use polars_kernels::rolling::IdxSize;
use polars_kernels::rolling::{det_offsets, det_offsets_center};

fn vals(xs: &[i128]) -> Vec<Scalar> {
    xs.iter().map(|&x| Scalar::Value(x)).collect()
}

fn rolling_argmax_no_nulls(
    values: &[Scalar],
    window_size: usize,
    min_periods: usize,
    center: bool,
) -> Vec<Option<IdxSize>> {
    rolling_apply_agg_window::<MaxPropagateNan>(values, window_size, min_periods, center)
}

fn rolling_argmin_no_nulls(
    values: &[Scalar],
    window_size: usize,
    min_periods: usize,
    center: bool,
) -> Vec<Option<IdxSize>> {
    rolling_apply_agg_window::<MinPropagateNan>(values, window_size, min_periods, center)
}

fn rolling_argmax_nulls(
    values: &[Scalar],
    validity: &[bool],
    window_size: usize,
    min_periods: usize,
    center: bool,
) -> Vec<Option<IdxSize>> {
    rolling_apply_agg_window_nulls::<MaxPropagateNan>(
        values,
        validity,
        window_size,
        min_periods,
        center,
    )
}

#[test]
fn test_rolling_argmax_basic() {
    let values = vals(&[1, 5, 3, 4, 2]);
    let out = rolling_argmax_no_nulls(&values, 3, 3, false);
    assert_eq!(out, &[None, None, Some(1), Some(0), Some(1)]);
}

#[test]
fn test_rolling_argmin_basic() {
    let values = vals(&[1, 5, 3, 4, 2]);
    let out = rolling_argmin_no_nulls(&values, 3, 3, false);
    assert_eq!(out, &[None, None, Some(0), Some(1), Some(2)]);
}

#[test]
fn test_rolling_argmax_min_periods_1() {
    let values = vals(&[1, 5, 3, 4, 2]);
    let out = rolling_argmax_no_nulls(&values, 3, 1, false);
    assert_eq!(out, &[Some(0), Some(1), Some(1), Some(0), Some(1)]);
}

#[test]
fn arg_min_max_test_rolling_argmax_centered() {
    let values = vals(&[1, 5, 3, 4, 2]);
    let out = rolling_argmax_no_nulls(&values, 3, 1, true);
    assert_eq!(out, &[Some(1), Some(1), Some(0), Some(1), Some(0)]);
}

#[test]
fn test_rolling_argmax_all_equal() {
    let values = vals(&[3, 3, 3, 3, 3]);
    let out = rolling_argmax_no_nulls(&values, 3, 3, false);
    assert_eq!(out, &[None, None, Some(0), Some(0), Some(0)]);
}

#[test]
fn test_rolling_argmax_nan_propagation() {
    let values = vec![Scalar::Value(1), Scalar::Nan, Scalar::Value(3)];
    let out = rolling_argmax_no_nulls(&values, 3, 3, false);
    assert_eq!(out, &[None, None, Some(1)]);
}

#[test]
fn arg_min_max_test_rolling_argmax_with_nulls() {
    let values = vals(&[1, 0, 3, 2]);
    let validity = [true, false, true, true];
    let out = rolling_argmax_nulls(&values, &validity, 3, 2, false);
    assert_eq!(out, &[None, None, Some(2), Some(1)]);
}

#[test]
fn test_rolling_argmin_with_nulls() {
    let values = vals(&[1, 0, 3, 2]);
    let validity = [true, false, true, true];
    let out = rolling_argmax_nulls(&values, &validity, 3, 2, false);
    assert_eq!(out, &[None, None, Some(2), Some(1)]);
}

#[test]
fn test_rolling_argmax_consistent_with_rolling_max() {
    let raw: [i128; 10] = [2, 7, 1, 8, 3, 6, 4, 9, 5, 0];
    let values = vals(&raw);
    let window_size = 4;

    let argmax_vec = rolling_apply_agg_window::<MaxPropagateNan>(
        &values,
        window_size,
        window_size,
        false,
    );
    // The rolling maximum over the same windows, with the same null rows.
    let max_vec: Vec<Option<i128>> = (0..raw.len())
        .map(|idx| {
            let (start, end) = det_offsets(idx, window_size, raw.len());
            if end - start < window_size {
                None
            } else {
                raw[start..end].iter().copied().max()
            }
        })
        .collect();

    for idx in 0..raw.len() {
        let (start, _end) = det_offsets(idx, window_size, raw.len());
        if let (Some(argmax_idx), Some(max_val)) = (argmax_vec[idx], max_vec[idx]) {
            let actual = raw[start + argmax_idx as usize];
            assert_eq!(
                actual, max_val,
                "at idx={idx}: values[{} + {}] = {} != rolling_max = {}",
                start, argmax_idx, actual, max_val
            );
        }
    }
}

#[test]
fn det_offsets_centered_windows() {
    assert_eq!(det_offsets_center(0, 3, 5), (0, 2));
    assert_eq!(det_offsets_center(2, 3, 5), (1, 4));
    assert_eq!(det_offsets_center(4, 3, 5), (3, 5));
    assert_eq!(det_offsets_center(0, 4, 6), (0, 2));
    assert_eq!(det_offsets_center(3, 4, 6), (1, 5));
    assert_eq!(det_offsets(0, 3, 5), (0, 1));
    assert_eq!(det_offsets(4, 3, 5), (2, 5));
}
