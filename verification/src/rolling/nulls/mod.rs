//! Rolling kernels over columns with a validity mask.

pub mod arg_min_max;

use vstd::prelude::*;

use super::arg_min_max::ArgMinMaxWindow;
use super::{
    det_offsets, det_offsets_center, lemma_window_monotone, rolling_arg_best_nulls, window_of,
    IdxSize,
};
use crate::min_max::{MinMaxPolicy, Scalar};

verus! {

/// Runs an arg-best window over every row of `values` with validity mask
/// `validity`: a row gets the position of the first best non-null value of
/// its window (centred or trailing), relative to the window's start, when
/// the window holds at least `min_periods` non-null values and at least
/// one; otherwise `None`.
pub fn rolling_apply_agg_window<P: MinMaxPolicy>(
    values: &[Scalar],
    validity: &[bool],
    window_size: usize,
    min_periods: usize,
    center: bool,
) -> (out: Vec<Option<IdxSize>>)
    requires
        values@.len() <= IdxSize::MAX,
        validity@.len() == values@.len(),
        values@.len() > 0 || center,
        window_size >= 1 || center,
    ensures
        out@ == rolling_arg_best_nulls::<P>(
            values@,
            validity@,
            window_size as int,
            min_periods as int,
            center,
        ),
{
    let len = values.len();
    let ghost n = len as int;
    let ghost spec_out = rolling_arg_best_nulls::<P>(
        values@,
        validity@,
        window_size as int,
        min_periods as int,
        center,
    );
    let (start, end) = if center {
        det_offsets_center(0, window_size, len)
    } else {
        det_offsets(0, window_size, len)
    };
    proof {
        if n > 0 {
            lemma_window_monotone(center, 0, 0, window_size as int, n);
        }
    }
    let mut agg_window = ArgMinMaxWindow::<P>::new(values, Some(validity), start, end);
    let mut out: Vec<Option<IdxSize>> = Vec::new();
    let mut idx: usize = 0;
    while idx < len
        invariant
            len == values@.len(),
            n == len,
            len <= IdxSize::MAX,
            window_size >= 1 || center,
            idx <= len,
            spec_out == rolling_arg_best_nulls::<P>(
                values@,
                validity@,
                window_size as int,
                min_periods as int,
                center,
            ),
            agg_window.wf(),
            agg_window.has_validity(),
            agg_window.values_view() == values@,
            agg_window.valid_view() == validity@,
            idx < len ==> agg_window.window_start() <= window_of(
                center,
                idx as int,
                window_size as int,
                n,
            ).0,
            idx < len ==> agg_window.window_end() <= window_of(
                center,
                idx as int,
                window_size as int,
                n,
            ).1,
            out@.len() == idx,
            forall|j: int| 0 <= j < idx ==> out@[j] == spec_out[j],
        decreases len - idx,
    {
        let (start, end) = if center {
            det_offsets_center(idx, window_size, len)
        } else {
            det_offsets(idx, window_size, len)
        };
        proof {
            lemma_window_monotone(center, idx as int, idx as int, window_size as int, n);
            if idx + 1 < n {
                lemma_window_monotone(center, idx as int, idx + 1, window_size as int, n);
            }
        }
        agg_window.update(start, end);
        let agg = agg_window.get_agg(idx);
        match agg {
            Some(val) => {
                if agg_window.is_valid(min_periods) {
                    out.push(Some(val));
                } else {
                    out.push(None);
                }
            },
            None => {
                out.push(None);
            },
        }
        idx = idx + 1;
    }
    proof {
        assert(out@ =~= spec_out);
    }
    out
}

} // verus!
