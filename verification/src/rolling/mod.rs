//! Fixed-size rolling windows and the order facts that the rolling
//! arg-min / arg-max kernels rest on.

pub mod arg_min_max;
pub mod laws;
pub mod no_nulls;
pub mod nulls;

use vstd::prelude::*;

use crate::min_max::{MinMaxPolicy, Scalar};

verus! {

/// The type of an index into a column.
pub type IdxSize = u32;

/// Every position of a column of length `n` is non-null.
pub open spec fn all_valid(n: nat) -> Seq<bool> {
    Seq::new(n, |i: int| true)
}

/// Some position of `start..end` is non-null.
pub open spec fn has_valid(valid: Seq<bool>, start: int, end: int) -> bool {
    exists|j: int| start <= j < end && #[trigger] valid[j]
}

/// The number of non-null positions in `start..end`.
pub open spec fn count_valid(valid: Seq<bool>, start: int, end: int) -> nat
    decreases end - start,
{
    if end <= start {
        0
    } else {
        count_valid(valid, start, end - 1) + if valid[end - 1] { 1nat } else { 0nat }
    }
}

/// `x` holds the first best non-null value of `values[start..end]` under `P`:
/// no non-null value of the window is better, and every non-null value
/// before it is worse.
pub open spec fn is_first_best<P: MinMaxPolicy>(
    values: Seq<Scalar>,
    valid: Seq<bool>,
    start: int,
    end: int,
    x: int,
) -> bool {
    &&& start <= x < end
    &&& valid[x]
    &&& forall|j: int|
        start <= j < end && #[trigger] valid[j] ==> P::rank(values[j]) <= P::rank(values[x])
    &&& forall|j: int| start <= j < x && #[trigger] valid[j] ==> P::rank(values[j]) < P::rank(values[x])
}

/// The position of the first best non-null value of `values[start..end]`.
pub open spec fn first_best<P: MinMaxPolicy>(
    values: Seq<Scalar>,
    valid: Seq<bool>,
    start: int,
    end: int,
) -> int {
    choose|x: int| is_first_best::<P>(values, valid, start, end, x)
}

/// The arg-best of a window, relative to its start; `None` for a window
/// without a non-null value.
pub open spec fn arg_best<P: MinMaxPolicy>(
    values: Seq<Scalar>,
    valid: Seq<bool>,
    start: int,
    end: int,
) -> Option<IdxSize> {
    if has_valid(valid, start, end) {
        Some((first_best::<P>(values, valid, start, end) - start) as IdxSize)
    } else {
        None
    }
}

/// The trailing window of row `i`: the last `window_size` rows up to and
/// including `i`.
pub open spec fn trailing_window(i: int, window_size: int) -> (int, int) {
    (if i + 1 >= window_size { i + 1 - window_size } else { 0 }, i + 1)
}

/// The centred window of row `i` in a column of length `len`: `window_size`
/// rows, the larger half from `i` on, clipped to the column.
pub open spec fn centered_window(i: int, window_size: int, len: int) -> (int, int) {
    let right = (window_size + 1) / 2;
    let left = window_size - right;
    (
        if i >= left { i - left } else { 0 },
        if i + right <= len { i + right } else { len },
    )
}

/// The window of row `i`, centred or trailing.
pub open spec fn window_of(center: bool, i: int, window_size: int, len: int) -> (int, int) {
    if center {
        centered_window(i, window_size, len)
    } else {
        trailing_window(i, window_size)
    }
}

/// Rolling arg-best over a column without nulls: row `i` is `None` when its
/// window holds fewer than `min_periods` rows, else the position of the
/// first best value of the window, relative to the window's start.
pub open spec fn rolling_arg_best_no_nulls<P: MinMaxPolicy>(
    values: Seq<Scalar>,
    window_size: int,
    min_periods: int,
    center: bool,
) -> Seq<Option<IdxSize>> {
    Seq::new(
        values.len(),
        |i: int|
            {
                let w = window_of(center, i, window_size, values.len() as int);
                if w.1 - w.0 < min_periods {
                    None
                } else {
                    arg_best::<P>(values, all_valid(values.len()), w.0, w.1)
                }
            },
    )
}

/// Rolling arg-best over trailing windows of a column without nulls, where
/// the first `min_periods - 1` rows are `None` and every later row is the
/// arg-best of its window.
pub open spec fn rolling_arg_best_trailing<P: MinMaxPolicy>(
    values: Seq<Scalar>,
    window_size: int,
    min_periods: int,
) -> Seq<Option<IdxSize>> {
    Seq::new(
        values.len(),
        |i: int|
            {
                let w = trailing_window(i, window_size);
                if i + 1 < min_periods {
                    None
                } else {
                    arg_best::<P>(values, all_valid(values.len()), w.0, w.1)
                }
            },
    )
}

/// Rolling arg-best over a column with a validity mask: row `i` is `None`
/// when its window holds fewer than `min_periods` non-null values or none at
/// all, else the position of the first best non-null value, relative to the
/// window's start.
pub open spec fn rolling_arg_best_nulls<P: MinMaxPolicy>(
    values: Seq<Scalar>,
    valid: Seq<bool>,
    window_size: int,
    min_periods: int,
    center: bool,
) -> Seq<Option<IdxSize>> {
    Seq::new(
        values.len(),
        |i: int|
            {
                let w = window_of(center, i, window_size, values.len() as int);
                if count_valid(valid, w.0, w.1) >= min_periods {
                    arg_best::<P>(values, valid, w.0, w.1)
                } else {
                    None
                }
            },
    )
}

/// Windows lie inside the column and move forward with the row.
pub proof fn lemma_window_monotone(center: bool, i: int, j: int, window_size: int, len: int)
    requires
        0 <= i <= j < len,
        window_size >= 1 || (center && window_size >= 0),
    ensures
        0 <= window_of(center, i, window_size, len).0 <= window_of(center, i, window_size, len).1
            <= len,
        window_of(center, i, window_size, len).0 <= window_of(center, j, window_size, len).0,
        window_of(center, i, window_size, len).1 <= window_of(center, j, window_size, len).1,
        window_of(center, i, window_size, len).0 <= i,
{
}

/// The offsets `(start, end)` of the trailing window of row `i`.
pub fn det_offsets(i: usize, window_size: usize, _len: usize) -> (r: (usize, usize))
    requires
        window_size >= 1,
        i < usize::MAX,
    ensures
        r.0 == trailing_window(i as int, window_size as int).0,
        r.1 == trailing_window(i as int, window_size as int).1,
{
    let start = if i >= window_size - 1 { i - (window_size - 1) } else { 0 };
    (start, i + 1)
}

/// The offsets `(start, end)` of the centred window of row `i` in a column of
/// length `len`.
pub fn det_offsets_center(i: usize, window_size: usize, len: usize) -> (r: (usize, usize))
    requires
        i <= len,
    ensures
        r.0 == centered_window(i as int, window_size as int, len as int).0,
        r.1 == centered_window(i as int, window_size as int, len as int).1,
{
    let right_window = window_size / 2 + window_size % 2;
    let left_window = window_size - right_window;
    let start = if i >= left_window { i - left_window } else { 0 };
    let end = if right_window <= len - i { i + right_window } else { len };
    (start, end)
}

/// The number of non-null positions splits at any point of the range.
pub proof fn lemma_count_valid_split(valid: Seq<bool>, start: int, mid: int, end: int)
    requires
        start <= mid <= end,
    ensures
        count_valid(valid, start, end) == count_valid(valid, start, mid) + count_valid(
            valid,
            mid,
            end,
        ),
    decreases end - mid,
{
    if end > mid {
        lemma_count_valid_split(valid, start, mid, end - 1);
    }
}

/// There are no more non-null positions than positions.
pub proof fn lemma_count_valid_bound(valid: Seq<bool>, start: int, end: int)
    ensures
        count_valid(valid, start, end) <= if end >= start { end - start } else { 0 },
    decreases end - start,
{
    if end > start {
        lemma_count_valid_bound(valid, start, end - 1);
    }
}

/// Over a column without nulls the count is the window length.
pub proof fn lemma_count_all_valid(n: nat, start: int, end: int)
    requires
        0 <= start <= end <= n,
    ensures
        count_valid(all_valid(n), start, end) == end - start,
    decreases end - start,
{
    if end > start {
        lemma_count_all_valid(n, start, end - 1);
    }
}

/// At most one position is the first best of a window.
pub proof fn lemma_first_best_unique<P: MinMaxPolicy>(
    values: Seq<Scalar>,
    valid: Seq<bool>,
    start: int,
    end: int,
    x: int,
    y: int,
)
    requires
        is_first_best::<P>(values, valid, start, end, x),
        is_first_best::<P>(values, valid, start, end, y),
    ensures
        x == y,
{
    if x < y {
        assert(valid[x]);
    } else if y < x {
        assert(valid[y]);
    }
}

/// A first best position is the one that `first_best` names.
pub proof fn lemma_first_best_is<P: MinMaxPolicy>(
    values: Seq<Scalar>,
    valid: Seq<bool>,
    start: int,
    end: int,
    x: int,
)
    requires
        is_first_best::<P>(values, valid, start, end, x),
    ensures
        first_best::<P>(values, valid, start, end) == x,
        has_valid(valid, start, end),
{
    let y = first_best::<P>(values, valid, start, end);
    lemma_first_best_unique::<P>(values, valid, start, end, x, y);
    assert(valid[x]);
}

/// Every window with a non-null value has a first best position.
pub proof fn lemma_first_best_exists<P: MinMaxPolicy>(
    values: Seq<Scalar>,
    valid: Seq<bool>,
    start: int,
    end: int,
) -> (x: int)
    requires
        has_valid(valid, start, end),
    ensures
        is_first_best::<P>(values, valid, start, end, x),
    decreases end - start,
{
    let last = end - 1;
    if has_valid(valid, start, last) {
        let b = lemma_first_best_exists::<P>(values, valid, start, last);
        if valid[last] && P::rank(values[last]) > P::rank(values[b]) {
            assert forall|j: int| start <= j < last && #[trigger] valid[j] implies P::rank(
                values[j],
            ) < P::rank(values[last]) by {}
            last
        } else {
            assert forall|j: int| start <= j < end && #[trigger] valid[j] implies P::rank(
                values[j],
            ) <= P::rank(values[b]) by {
                if j == last {
                }
            }
            b
        }
    } else {
        let j0 = choose|j: int| start <= j < end && #[trigger] valid[j];
        assert(j0 == last) by {
            if j0 < last {
                assert(has_valid(valid, start, last));
            }
        }
        assert forall|j: int| start <= j < end && #[trigger] valid[j] implies j == last by {
            if j < last {
                assert(has_valid(valid, start, last));
            }
        }
        last
    }
}

} // verus!
