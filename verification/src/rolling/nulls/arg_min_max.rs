//! Rolling arg-min / arg-max over columns with a validity mask.

use vstd::prelude::*;

use super::super::{rolling_arg_best_nulls, IdxSize};
use super::rolling_apply_agg_window;
use crate::min_max::{MaxPropagateNan, MinPropagateNan, Scalar};

verus! {

/// Rolling arg-min of a column with validity mask `validity`: for each row,
/// the position of the first smallest non-null value of its window (NaN
/// counting as the smallest), relative to the window's start, or `None` when
/// the window holds fewer than `min_periods` non-null values or none.
pub fn rolling_argmin(
    values: &[Scalar],
    validity: &[bool],
    window_size: usize,
    min_periods: usize,
    center: bool,
) -> (out: Vec<Option<IdxSize>>)
    requires
        values@.len() <= IdxSize::MAX,
        validity@.len() == values@.len(),
        values@.len() > 0 || center,
        window_size >= 1 || center,
    ensures
        out@ == rolling_arg_best_nulls::<MinPropagateNan>(
            values@,
            validity@,
            window_size as int,
            min_periods as int,
            center,
        ),
{
    rolling_apply_agg_window::<MinPropagateNan>(values, validity, window_size, min_periods, center)
}

/// Rolling arg-max of a column with validity mask `validity`: for each row,
/// the position of the first largest non-null value of its window (NaN
/// counting as the largest), relative to the window's start, or `None` when
/// the window holds fewer than `min_periods` non-null values or none.
pub fn rolling_argmax(
    values: &[Scalar],
    validity: &[bool],
    window_size: usize,
    min_periods: usize,
    center: bool,
) -> (out: Vec<Option<IdxSize>>)
    requires
        values@.len() <= IdxSize::MAX,
        validity@.len() == values@.len(),
        values@.len() > 0 || center,
        window_size >= 1 || center,
    ensures
        out@ == rolling_arg_best_nulls::<MaxPropagateNan>(
            values@,
            validity@,
            window_size as int,
            min_periods as int,
            center,
        ),
{
    rolling_apply_agg_window::<MaxPropagateNan>(values, validity, window_size, min_periods, center)
}

} // verus!
